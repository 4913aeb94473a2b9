//! Each report touches only what it names: which relay a downloader is given,
//! which relay a failure blames, which downloaders a departure puts back in
//! the queue, and which channels a completion closes.
use crate::dispatch::{failed_of, last_usable, relay_plan};
use crate::keyed::{key_index, lemma_key_index, lemma_unique_index, lookup, Keyed};
use crate::laws::{lemma_requeue, lemma_release_frame, lemma_strip_client};
use crate::scheduler::{
    complete_effect, disconnect_effect, failure_applies, relay_done_effect, relay_source_of,
    relayed_by, relays_to, requeue, spec_mark_transfer_failed, update_event,
};
use crate::state::{
    add_failed_relay, drop_channels, has_item, item_of, keep_channel, lemma_drop_channels,
    lemma_put_item, lemma_set_relaying, push_event, queue_items, selected, set_item_state,
    set_relaying, wf, SpecAppState, SpecChannelSel,
};
use crate::store::{other_client, strip_client_items, strip_queue};
use crate::types::{ChannelType, DownloadState, SpecChannel, SpecQueueItem, SpecSseEvent};
use vstd::prelude::*;

verus! {

/// Channel `ch` is a WebRTC transfer of file `f` to downloader `c`.
pub open spec fn relays_file_to(ch: SpecChannel, f: Seq<char>, c: Seq<char>) -> bool {
    ch.file_id == f && ch.target == c && ch.channel_type == ChannelType::Webrtc
}

/// The relays that the pairs use, in order.
pub open spec fn planned_relays(pairs: Seq<(Seq<char>, Seq<char>)>) -> Seq<Seq<char>> {
    pairs.map_values(|p: (Seq<char>, Seq<char>)| p.1)
}

/// The relay chosen from `pool` for a downloader whose failed relays are
/// `failed` is the last one of the pool that has not failed it; there is none
/// exactly when every relay of the pool has failed it.
pub proof fn law_last_usable(pool: Seq<Seq<char>>, failed: Seq<Seq<char>>)
    ensures
        (last_usable(pool, failed) >= 0) == (exists|j: int|
            0 <= j < pool.len() && !failed.contains(#[trigger] pool[j])),
        last_usable(pool, failed) >= 0 ==> last_usable(pool, failed) < pool.len() && !failed.contains(
            pool[last_usable(pool, failed)],
        ) && forall|j: int| last_usable(pool, failed) < j < pool.len() ==> failed.contains(#[trigger] pool[j]),
    decreases pool.len(),
{
    if pool.len() > 0 {
        let p = pool.drop_last();
        law_last_usable(p, failed);
        let n = pool.len() - 1;
        if !failed.contains(pool.last()) {
            assert(!failed.contains(pool[n]));
        } else {
            assert forall|j: int| 0 <= j < p.len() implies #[trigger] p[j] == pool[j] by {}
            if exists|j: int| 0 <= j < pool.len() && !failed.contains(#[trigger] pool[j]) {
                let j = choose|j: int| 0 <= j < pool.len() && !failed.contains(#[trigger] pool[j]);
                assert(j != n);
                assert(p[j] == pool[j]);
            }
            if last_usable(p, failed) >= 0 {
                let u = last_usable(p, failed);
                assert(p[u] == pool[u]);
                assert forall|j: int| u < j < pool.len() implies failed.contains(#[trigger] pool[j]) by {
                    if j < n {
                        assert(p[j] == pool[j]);
                    }
                }
            }
        }
    }
}

/// How a relay plan treats failed relays: each planned downloader is given the
/// last relay of the pool that has not failed it (the first one is given such a
/// relay whenever the budget allows and the pool holds one), and a downloader
/// is left over, to have its failed record cleared, only where every relay of
/// the pool that the plan leaves idle has failed it.
pub proof fn law_relay_plan_skips_failed(
    items: Seq<SpecQueueItem>,
    targets: Seq<Seq<char>>,
    pool: Seq<Seq<char>>,
    budget: nat,
)
    ensures
        relay_plan(items, targets, pool, budget).1 matches Some(t) ==> forall|r: Seq<char>|
            pool.contains(r) && !planned_relays(relay_plan(items, targets, pool, budget).0).contains(r)
                ==> #[trigger] failed_of(items, t).contains(r),
        targets.len() > 0 && budget > 0 && (exists|j: int|
            0 <= j < pool.len() && !failed_of(items, targets[0]).contains(#[trigger] pool[j])) ==> relay_plan(
            items,
            targets,
            pool,
            budget,
        ).0.len() > 0,
        relay_plan(items, targets, pool, budget).0.len() > 0 ==> relay_plan(items, targets, pool, budget).0[0].0
            == targets[0] && exists|j: int|
            0 <= j < pool.len() && pool[j] == relay_plan(items, targets, pool, budget).0[0].1 && !failed_of(
                items,
                targets[0],
            ).contains(pool[j]) && forall|j2: int| j < j2 < pool.len() ==> failed_of(items, targets[0]).contains(
                #[trigger] pool[j2],
            ),
    decreases targets.len(),
{
    let plan = relay_plan(items, targets, pool, budget);
    if targets.len() > 0 && budget > 0 {
        let t = targets[0];
        let fl = failed_of(items, t);
        let pos = last_usable(pool, fl);
        law_last_usable(pool, fl);
        if pos < 0 {
            assert forall|r: Seq<char>|
                pool.contains(r) && !planned_relays(plan.0).contains(r) implies #[trigger] fl.contains(r) by {
                let j = choose|j: int| 0 <= j < pool.len() && pool[j] == r;
                assert(!(!fl.contains(pool[j])));
            }
        } else {
            let rp = pool.remove(pos);
            let rest = relay_plan(items, targets.drop_first(), rp, (budget - 1) as nat);
            law_relay_plan_skips_failed(items, targets.drop_first(), rp, (budget - 1) as nat);
            assert(plan.0 == seq![(t, pool[pos])] + rest.0);
            assert(planned_relays(plan.0) =~= seq![pool[pos]] + planned_relays(rest.0));
            match rest.1 {
                Some(t2) => {
                    assert forall|r: Seq<char>|
                        pool.contains(r) && !planned_relays(plan.0).contains(r) implies #[trigger] failed_of(
                        items,
                        t2,
                    ).contains(r) by {
                        let j = choose|j: int| 0 <= j < pool.len() && pool[j] == r;
                        assert(planned_relays(plan.0)[0] == pool[pos]);
                        assert(j != pos);
                        if j < pos {
                            assert(rp[j] == r);
                        } else {
                            assert(rp[j - 1] == r);
                        }
                        assert(rp.contains(r));
                        if planned_relays(rest.0).contains(r) {
                            let k = choose|k: int| 0 <= k < planned_relays(rest.0).len() && planned_relays(rest.0)[k] == r;
                            assert(planned_relays(plan.0)[k + 1] == r);
                        }
                    }
                },
                None => {},
            }
            assert(plan.0[0] == (t, pool[pos]));
        }
    }
}

/// The relay that `relay_source_of` finds sends the file to the downloader,
/// and it finds none exactly when no WebRTC channel brings the file there.
pub proof fn lemma_relay_source(chs: Seq<SpecChannel>, f: Seq<char>, c: Seq<char>)
    ensures
        relay_source_of(chs, f, c) matches Some(r) ==> exists|i: int|
            0 <= i < chs.len() && relays_file_to(#[trigger] chs[i], f, c) && chs[i].source == r,
        relay_source_of(chs, f, c) is None ==> forall|i: int| 0 <= i < chs.len() ==> !relays_file_to(#[trigger] chs[i], f, c),
    decreases chs.len(),
{
    if chs.len() > 0 {
        let rest = chs.drop_first();
        lemma_relay_source(rest, f, c);
        if relays_file_to(chs[0], f, c) {
        } else {
            match relay_source_of(rest, f, c) {
                Some(r) => {
                    let i = choose|i: int| 0 <= i < rest.len() && relays_file_to(#[trigger] rest[i], f, c) && rest[i].source == r;
                    assert(chs[i + 1] == rest[i]);
                },
                None => {
                    assert forall|i: int| 0 <= i < chs.len() implies !relays_file_to(#[trigger] chs[i], f, c) by {
                        if i > 0 {
                            assert(chs[i] == rest[i - 1]);
                        }
                    }
                },
            }
        }
    }
}

/// A failure report of `c` for file `f` frees, and records as failed for `c`,
/// only a downloader that was relaying `f` to `c`; where nobody was relaying
/// `f` to `c`, no downloader's record changes and the failed relays recorded
/// for `c` stay as they were.
pub proof fn law_failure_blames_only_its_relay(s: SpecAppState, f: Seq<char>, c: Seq<char>, x: Seq<char>)
    requires
        wf(s),
    ensures
        lookup(spec_mark_transfer_failed(s, f, c).clients, x) != lookup(s.clients, x) ==> exists|i: int|
            0 <= i < s.channels.len() && relays_file_to(#[trigger] s.channels[i], f, c) && s.channels[i].source == x,
        has_item(s, f, c) && item_of(spec_mark_transfer_failed(s, f, c), f, c).failed_relays.contains(x)
            && !item_of(s, f, c).failed_relays.contains(x) ==> exists|i: int|
            0 <= i < s.channels.len() && relays_file_to(#[trigger] s.channels[i], f, c) && s.channels[i].source == x,
        (forall|i: int| 0 <= i < s.channels.len() ==> !relays_file_to(#[trigger] s.channels[i], f, c)) ==> (
        spec_mark_transfer_failed(s, f, c).clients == s.clients && (has_item(s, f, c) ==> item_of(
            spec_mark_transfer_failed(s, f, c),
            f,
            c,
        ).failed_relays == item_of(s, f, c).failed_relays)),
{
    let res = spec_mark_transfer_failed(s, f, c);
    lemma_relay_source(s.channels, f, c);
    if failure_applies(s, f, c) {
        let relay = relay_source_of(s.channels, f, c);
        let s1 = match relay {
            Some(r) => push_event(
                set_relaying(s, r, false),
                SpecSseEvent::ScheduleUpdate(update_event(f, r, DownloadState::Completed)),
            ),
            None => s,
        };
        match relay {
            Some(r) => {
                lemma_set_relaying(s, r, false);
            },
            None => {},
        }
        assert(wf(s1));
        assert(s1.queues == s.queues);
        let d = drop_channels(s1, SpecChannelSel::ToTarget { file: f, target: c });
        lemma_drop_channels(s1, SpecChannelSel::ToTarget { file: f, target: c });
        assert(queue_items(d, f) == queue_items(s, f));
        assert(has_item(d, f, c));
        assert(item_of(d, f, c) == item_of(s, f, c));
        let it = SpecQueueItem { state: DownloadState::Queued, ..item_of(d, f, c) };
        let s2 = set_item_state(d, f, c, DownloadState::Queued);
        lemma_put_item(d, f, c, it);
        lemma_key_index(queue_items(d, f), c);
        assert(item_of(s2, f, c) == it);
        assert(has_item(s2, f, c));
        let s3 = match relay {
            Some(r) => add_failed_relay(s2, f, c, r),
            None => s2,
        };
        match relay {
            Some(r) => {
                if !it.failed_relays.contains(r) {
                    lemma_put_item(s2, f, c, SpecQueueItem { failed_relays: it.failed_relays.push(r), ..it });
                    assert(item_of(s3, f, c).failed_relays == it.failed_relays.push(r));
                    if item_of(s3, f, c).failed_relays.contains(x) && !it.failed_relays.contains(x) {
                        let k = choose|k: int| 0 <= k < it.failed_relays.push(r).len() && it.failed_relays.push(r)[k] == x;
                        if k < it.failed_relays.len() {
                            assert(it.failed_relays[k] == x);
                        }
                        assert(x == r);
                    }
                }
                assert(s3.clients == set_relaying(s, r, false).clients);
                if x != r {
                    assert(lookup(res.clients, x) == lookup(s.clients, x));
                }
            },
            None => {},
        }
        assert(res.clients == s3.clients);
        assert(item_of(res, f, c) == item_of(s3, f, c));
    }
}

/// Each (file, target) that `relayed_by` lists is carried by a WebRTC channel
/// from the downloader.
pub proof fn lemma_relayed_by(chs: Seq<SpecChannel>, d: Seq<char>, k: int)
    requires
        0 <= k < relayed_by(chs, d).len(),
    ensures
        exists|i: int|
            0 <= i < chs.len() && (#[trigger] chs[i]).source == d && relays_file_to(
                chs[i],
                relayed_by(chs, d)[k].0,
                relayed_by(chs, d)[k].1,
            ),
    decreases chs.len(),
{
    let p = chs.drop_last();
    let rb = relayed_by(chs, d);
    let rp = relayed_by(p, d);
    let ch = chs.last();
    if k < rp.len() {
        lemma_relayed_by(p, d, k);
        if ch.source == d && ch.channel_type == ChannelType::Webrtc {
            assert(rb == rp.push((ch.file_id, ch.target)));
        }
        assert(rb[k] == rp[k]);
        let i = choose|i: int| 0 <= i < p.len() && (#[trigger] p[i]).source == d && relays_file_to(p[i], rp[k].0, rp[k].1);
        assert(chs[i] == p[i]);
    } else {
        assert(ch.source == d && ch.channel_type == ChannelType::Webrtc);
        assert(rb == rp.push((ch.file_id, ch.target)));
        assert(rb[k] == (ch.file_id, ch.target));
        assert(chs[chs.len() - 1] == ch);
        assert(relays_file_to(chs[chs.len() - 1], rb[k].0, rb[k].1));
    }
}

/// Requeueing pairs that do not name (`g`, `t`) leaves the item of `t` for `g`.
pub proof fn lemma_requeue_others(
    s: SpecAppState,
    ts: Seq<(Seq<char>, Seq<char>)>,
    g: Seq<char>,
    t: Seq<char>,
)
    requires
        wf(s),
        has_item(s, g, t),
        forall|k: int| 0 <= k < ts.len() ==> #[trigger] ts[k] != (g, t),
    ensures
        has_item(requeue(s, ts), g, t),
        item_of(requeue(s, ts), g, t) == item_of(s, g, t),
    decreases ts.len(),
{
    if ts.len() > 0 {
        let d = ts.drop_last();
        assert forall|k: int| 0 <= k < d.len() implies #[trigger] d[k] != (g, t) by {
            assert(d[k] == ts[k]);
        }
        lemma_requeue_others(s, d, g, t);
        lemma_requeue(s, d);
        let m = requeue(s, d);
        let (g2, t2) = ts.last();
        assert(ts[ts.len() - 1] != (g, t));
        lemma_put_item(m, g2, t2, SpecQueueItem { state: DownloadState::Queued, ..item_of(m, g2, t2) });
        if has_item(m, g2, t2) {
            lemma_key_index(queue_items(m, g2), t2);
        }
    }
}

/// Taking `d` out of the queues leaves the item of every other downloader.
pub proof fn lemma_strip_keeps(s: SpecAppState, d: Seq<char>, g: Seq<char>, t: Seq<char>)
    requires
        wf(s),
        t != d,
        has_item(s, g, t),
    ensures
        has_item(strip_client_items(s, d), g, t),
        item_of(strip_client_items(s, d), g, t) == item_of(s, g, t),
{
    let s1 = strip_client_items(s, d);
    lemma_strip_client(s, d);
    lemma_key_index(s.queues, g);
    let qi = key_index(s.queues, g);
    assert(s1.queues[qi] == strip_queue(s.queues[qi], d));
    assert(s1.queues[qi].key() == g);
    lemma_unique_index(s1.queues, qi);
    let items = s.queues[qi].items;
    assert(queue_items(s, g) == items);
    lemma_key_index(items, t);
    let j = key_index(items, t);
    let kept = items.filter(other_client(d));
    items.lemma_filter_contains(other_client(d), j);
    let a = choose|a: int| 0 <= a < kept.len() && kept[a] == items[j];
    assert(queue_items(s1, g) == kept);
    assert(kept[a].key() == t);
    lemma_unique_index(kept, a);
}

/// Before the dispatch that follows, a departure of `d` changes the item of
/// another downloader `t` for file `g` only where `d` was relaying `g` to `t`.
pub proof fn law_disconnect_touches_only_its_targets(s: SpecAppState, d: Seq<char>, g: Seq<char>, t: Seq<char>)
    requires
        wf(s),
        t != d,
        has_item(s, g, t),
        forall|i: int| 0 <= i < s.channels.len() ==> !((#[trigger] s.channels[i]).source == d && relays_file_to(s.channels[i], g, t)),
    ensures
        has_item(disconnect_effect(s, d), g, t),
        item_of(disconnect_effect(s, d), g, t) == item_of(s, g, t),
{
    let s1 = strip_client_items(s, d);
    lemma_strip_keeps(s, d, g, t);
    lemma_strip_client(s, d);
    let ts = relayed_by(s.channels, d);
    assert forall|k: int| 0 <= k < ts.len() implies #[trigger] ts[k] != (g, t) by {
        lemma_relayed_by(s.channels, d, k);
        let i = choose|i: int| 0 <= i < s.channels.len() && (#[trigger] s.channels[i]).source == d && relays_file_to(s.channels[i], ts[k].0, ts[k].1);
    }
    lemma_requeue_others(s1, ts, g, t);
    let s2 = requeue(s1, ts);
    lemma_release_frame(s2, relays_to(s.channels, d));
    let e = disconnect_effect(s, d);
    assert(e.queues == s2.queues);
    assert(queue_items(e, g) == queue_items(s2, g));
}

/// Closing the channels that a selection names keeps every other channel.
pub proof fn lemma_drop_keeps(s: SpecAppState, sel: SpecChannelSel, ch: SpecChannel)
    requires
        s.channels.contains(ch),
        !selected(sel, ch),
    ensures
        drop_channels(s, sel).channels.contains(ch),
{
    let j = choose|j: int| 0 <= j < s.channels.len() && s.channels[j] == ch;
    s.channels.lemma_filter_contains(keep_channel(sel), j);
}

/// Completing file `f` for `c` closes exactly the channels that brought `f`
/// to `c`: every other channel open before stays open, and no new one opens.
pub proof fn law_complete_closes_only_its_channels(s: SpecAppState, f: Seq<char>, c: Seq<char>, ch: SpecChannel)
    ensures
        s.channels.contains(ch) && !(ch.file_id == f && ch.target == c) ==> complete_effect(s, f, c).channels.contains(ch),
        complete_effect(s, f, c).channels.contains(ch) ==> s.channels.contains(ch) && !(ch.file_id == f && ch.target
            == c),
{
    let sel = SpecChannelSel::ToTarget { file: f, target: c };
    let m = push_event(
        crate::state::add_completed(set_item_state(s, f, c, DownloadState::Completed), c, f),
        SpecSseEvent::ScheduleUpdate(update_event(f, c, DownloadState::Completed)),
    );
    assert(m.channels == s.channels);
    if s.channels.contains(ch) && !(ch.file_id == f && ch.target == c) {
        lemma_drop_keeps(m, sel, ch);
    }
    if complete_effect(s, f, c).channels.contains(ch) {
        let k = choose|k: int| 0 <= k < complete_effect(s, f, c).channels.len() && complete_effect(s, f, c).channels[k] == ch;
        m.channels.lemma_filter_pred(keep_channel(sel), k);
        m.channels.lemma_filter_contains_rev(keep_channel(sel), ch);
    }
}

/// A relay's report that it sent file `f` from `src` to `tgt` closes exactly
/// the channel of `f` from `src` to `tgt`; with the completion of `f` for
/// `tgt` that follows, exactly the channels that brought `f` to `tgt` are
/// closed: every other channel, such as one bringing another file to `src`,
/// stays open.
pub proof fn law_relay_done_closes_only_its_channel(
    s: SpecAppState,
    f: Seq<char>,
    src: Seq<char>,
    tgt: Seq<char>,
    ch: SpecChannel,
)
    ensures
        s.channels.contains(ch) && !(ch.file_id == f && ch.source == src && ch.target == tgt) ==> relay_done_effect(
            s,
            f,
            src,
            tgt,
        ).channels.contains(ch),
        relay_done_effect(s, f, src, tgt).channels.contains(ch) ==> s.channels.contains(ch) && !(ch.file_id == f
            && ch.source == src && ch.target == tgt),
        s.channels.contains(ch) && !(ch.file_id == f && ch.target == tgt) ==> complete_effect(
            relay_done_effect(s, f, src, tgt),
            f,
            tgt,
        ).channels.contains(ch),
        complete_effect(relay_done_effect(s, f, src, tgt), f, tgt).channels.contains(ch) ==> s.channels.contains(ch)
            && !(ch.file_id == f && ch.target == tgt),
{
    let sel = SpecChannelSel::Pair { file: f, source: src, target: tgt };
    let m = set_relaying(s, src, false);
    assert(m.channels == s.channels);
    let r = relay_done_effect(s, f, src, tgt);
    assert(r.channels == drop_channels(m, sel).channels);
    if s.channels.contains(ch) && !(ch.file_id == f && ch.source == src && ch.target == tgt) {
        lemma_drop_keeps(m, sel, ch);
    }
    if r.channels.contains(ch) {
        let k = choose|k: int| 0 <= k < r.channels.len() && r.channels[k] == ch;
        m.channels.lemma_filter_pred(keep_channel(sel), k);
        m.channels.lemma_filter_contains_rev(keep_channel(sel), ch);
    }
    law_complete_closes_only_its_channels(r, f, tgt, ch);
}

} // verus!

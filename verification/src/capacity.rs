//! Limits that dispatching respects: one transfer from the share side per file,
//! and at most `MAX_CONCURRENT_WEBRTC` relayed transfers over all files.
use crate::dispatch::{
    apply_plan, count_channels, dispatch_all_spec, dispatch_file_spec, dispatch_files, file_ids,
    http_busy, is_webrtc, relay_plan, webrtc_count, MAX_CONCURRENT_WEBRTC,
};
use crate::frame::lemma_plan_targets;
use crate::keyed::{has_key, key_index, lemma_key_index, upsert, Keyed};
use crate::state::SpecAppState;
use crate::types::{ChannelType, SpecChannel};
use vstd::prelude::*;

verus! {

pub open spec fn http_for(f: Seq<char>) -> spec_fn(SpecChannel) -> bool {
    |ch: SpecChannel| ch.channel_type == ChannelType::Http && ch.file_id == f
}

/// The number of transfers of file `f` from the share side.
pub open spec fn http_count(chs: Seq<SpecChannel>, f: Seq<char>) -> nat {
    count_channels(chs, http_for(f))
}

pub open spec fn one_if(b: bool) -> nat {
    if b {
        1
    } else {
        0
    }
}

pub proof fn lemma_count_push(chs: Seq<SpecChannel>, x: SpecChannel, p: spec_fn(SpecChannel) -> bool)
    ensures
        count_channels(chs.push(x), p) == count_channels(chs, p) + one_if(p(x)),
{
    assert(chs.push(x).drop_last() =~= chs);
}

pub proof fn lemma_count_update(chs: Seq<SpecChannel>, i: int, x: SpecChannel, p: spec_fn(SpecChannel) -> bool)
    requires
        0 <= i < chs.len(),
    ensures
        count_channels(chs.update(i, x), p) + one_if(p(chs[i])) == count_channels(chs, p) + one_if(p(x)),
    decreases chs.len(),
{
    let u = chs.update(i, x);
    if i == chs.len() - 1 {
        assert(u.drop_last() =~= chs.drop_last());
    } else {
        assert(u.drop_last() =~= chs.drop_last().update(i, x));
        lemma_count_update(chs.drop_last(), i, x, p);
    }
}

pub proof fn lemma_count_upsert(chs: Seq<SpecChannel>, x: SpecChannel, p: spec_fn(SpecChannel) -> bool)
    ensures
        count_channels(upsert(chs, x), p) <= count_channels(chs, p) + one_if(p(x)),
{
    lemma_key_index(chs, x.key());
    if has_key(chs, x.key()) {
        lemma_count_update(chs, key_index(chs, x.key()), x, p);
    } else {
        lemma_count_push(chs, x, p);
    }
}

pub proof fn lemma_count_zero(chs: Seq<SpecChannel>, p: spec_fn(SpecChannel) -> bool)
    ensures
        count_channels(chs, p) == 0 <==> forall|i: int| 0 <= i < chs.len() ==> !p(#[trigger] chs[i]),
    decreases chs.len(),
{
    if chs.len() > 0 {
        let d = chs.drop_last();
        lemma_count_zero(d, p);
        if count_channels(chs, p) == 0 {
            assert forall|i: int| 0 <= i < chs.len() implies !p(#[trigger] chs[i]) by {
                if i < chs.len() - 1 {
                    assert(chs[i] == d[i]);
                }
            }
        }
        if forall|i: int| 0 <= i < chs.len() ==> !p(#[trigger] chs[i]) {
            assert forall|i: int| 0 <= i < d.len() implies !p(#[trigger] d[i]) by {
                assert(d[i] == chs[i]);
            }
            assert(!p(chs[chs.len() - 1]));
        }
    }
}

/// Relaying the pairs of a plan adds at most one channel of each kind per pair,
/// and no channel that is not a WebRTC one.
pub proof fn lemma_apply_plan_count(
    s1: SpecAppState,
    f: Seq<char>,
    size: u64,
    pairs: Seq<(Seq<char>, Seq<char>)>,
    ids: Seq<Seq<char>>,
    p: spec_fn(SpecChannel) -> bool,
)
    ensures
        count_channels(apply_plan(s1, f, size, pairs, ids).channels, p) <= count_channels(s1.channels, p)
            + pairs.len(),
        (forall|ch: SpecChannel| ch.channel_type == ChannelType::Webrtc ==> !#[trigger] p(ch)) ==> count_channels(
            apply_plan(s1, f, size, pairs, ids).channels,
            p,
        ) <= count_channels(s1.channels, p),
    decreases pairs.len(),
{
    if pairs.len() > 0 {
        let k = pairs.len() - 1;
        lemma_apply_plan_count(s1, f, size, pairs.drop_last(), ids, p);
        let m = apply_plan(s1, f, size, pairs.drop_last(), ids);
        let ch = SpecChannel {
            channel_id: ids[k],
            file_id: f,
            source: pairs[k].1,
            target: pairs[k].0,
            channel_type: ChannelType::Webrtc,
        };
        let m2 = crate::state::set_relaying(
            crate::state::set_item_state(m, f, pairs[k].0, crate::types::DownloadState::Downloading),
            pairs[k].1,
            true,
        );
        assert(m2.channels == m.channels);
        lemma_count_upsert(m.channels, ch, p);
        assert(apply_plan(s1, f, size, pairs, ids).channels == upsert(m.channels, ch));
    }
}

/// Dispatching a file starts at most one transfer from the share side, for
/// that file and only where none runs; and starts relayed transfers only while
/// fewer than `MAX_CONCURRENT_WEBRTC` run.
pub proof fn lemma_dispatch_file_counts(s: SpecAppState, f: Seq<char>, ids: Seq<Seq<char>>, g: Seq<char>)
    ensures
        webrtc_count(dispatch_file_spec(s, f, ids).channels) <= if webrtc_count(s.channels)
            > MAX_CONCURRENT_WEBRTC {
            webrtc_count(s.channels)
        } else {
            MAX_CONCURRENT_WEBRTC as nat
        },
        g != f ==> http_count(dispatch_file_spec(s, f, ids).channels, g) <= http_count(s.channels, g),
        g == f ==> http_count(dispatch_file_spec(s, f, ids).channels, g) <= if http_count(s.channels, g) > 1 {
            http_count(s.channels, g)
        } else {
            1
        },
{
    let result = dispatch_file_spec(s, f, ids);
    if has_key(s.files, f) && has_key(s.queues, f) {
        let size = s.files[key_index(s.files, f)].size;
        let w = crate::dispatch::waiting(crate::state::queue_items(s, f));
        if w.len() > 0 {
            let http = !http_busy(s.channels, f);
            let kk: int = if http { 1 } else { 0 };
            let hch = SpecChannel {
                channel_id: ids[0],
                file_id: f,
                source: "server"@,
                target: w[0],
                channel_type: ChannelType::Http,
            };
            let s1 = if http {
                crate::dispatch::serve_over_http(s, f, w[0], ids[0])
            } else {
                s
            };
            if http {
                let m1 = crate::state::set_item_state(s, f, w[0], crate::types::DownloadState::Downloading);
                assert(m1.channels == s.channels);
                assert(s1.channels == upsert(s.channels, hch));
                lemma_count_upsert(s.channels, hch, is_webrtc());
                lemma_count_upsert(s.channels, hch, http_for(g));
                lemma_count_zero(s.channels, http_for(f));
                if http_count(s.channels, f) != 0 {
                    let i = choose|i: int| 0 <= i < s.channels.len() && (#[trigger] http_for(f)(s.channels[i]));
                    assert(http_busy(s.channels, f));
                }
            }
            let rem = w.skip(kk);
            {
                let s2 = if rem.len() > 0 && webrtc_count(s1.channels) < MAX_CONCURRENT_WEBRTC {
                    let items1 = crate::state::queue_items(s1, f);
                    let pool = crate::dispatch::relay_pool(s1.clients, f);
                    let budget = (MAX_CONCURRENT_WEBRTC - webrtc_count(s1.channels)) as nat;
                    let plan = relay_plan(items1, rem, pool, budget);
                    lemma_plan_targets(items1, rem, pool, budget);
                    lemma_apply_plan_count(s1, f, size, plan.0, ids.skip(kk), is_webrtc());
                    lemma_apply_plan_count(s1, f, size, plan.0, ids.skip(kk), http_for(g));
                    let sa = apply_plan(s1, f, size, plan.0, ids.skip(kk));
                    match plan.1 {
                        Some(t) => {
                            assert(crate::state::clear_failed_relays(sa, f, t).channels == sa.channels);
                        },
                        None => {},
                    }
                    match plan.1 {
                        Some(t) => crate::state::clear_failed_relays(sa, f, t),
                        None => sa,
                    }
                } else {
                    s1
                };
                assert(result.channels == s2.channels);
            }
        }
    }
}

/// Dispatching every file never raises the number of relayed transfers above
/// `MAX_CONCURRENT_WEBRTC` (nor above what already ran), and never starts a
/// second transfer of a file from the share side.
pub proof fn law_dispatch_limits(s: SpecAppState, idss: Seq<Seq<Seq<char>>>, g: Seq<char>)
    ensures
        webrtc_count(s.channels) <= MAX_CONCURRENT_WEBRTC ==> webrtc_count(dispatch_all_spec(s, idss).channels)
            <= MAX_CONCURRENT_WEBRTC,
        webrtc_count(dispatch_all_spec(s, idss).channels) <= if webrtc_count(s.channels) > MAX_CONCURRENT_WEBRTC {
            webrtc_count(s.channels)
        } else {
            MAX_CONCURRENT_WEBRTC as nat
        },
        http_count(s.channels, g) <= 1 ==> http_count(dispatch_all_spec(s, idss).channels, g) <= 1,
        http_count(dispatch_all_spec(s, idss).channels, g) <= if http_count(s.channels, g) > 1 {
            http_count(s.channels, g)
        } else {
            1
        },
{
    lemma_dispatch_files_counts(s, file_ids(s), idss, g);
}

pub proof fn lemma_dispatch_files_counts(s: SpecAppState, fs: Seq<Seq<char>>, idss: Seq<Seq<Seq<char>>>, g: Seq<char>)
    ensures
        webrtc_count(dispatch_files(s, fs, idss).channels) <= if webrtc_count(s.channels) > MAX_CONCURRENT_WEBRTC {
            webrtc_count(s.channels)
        } else {
            MAX_CONCURRENT_WEBRTC as nat
        },
        http_count(dispatch_files(s, fs, idss).channels, g) <= if http_count(s.channels, g) > 1 {
            http_count(s.channels, g)
        } else {
            1
        },
    decreases fs.len(),
{
    if fs.len() > 0 {
        lemma_dispatch_files_counts(s, fs.drop_last(), idss, g);
        let m = dispatch_files(s, fs.drop_last(), idss);
        lemma_dispatch_file_counts(m, fs.last(), idss[fs.len() - 1], g);
    }
}

pub proof fn lemma_count_filter(chs: Seq<SpecChannel>, q: spec_fn(SpecChannel) -> bool, p: spec_fn(SpecChannel) -> bool)
    ensures
        count_channels(chs.filter(q), p) <= count_channels(chs, p),
    decreases chs.len(),
{
    reveal(Seq::filter);
    if chs.len() > 0 {
        lemma_count_filter(chs.drop_last(), q, p);
        if q(chs.last()) {
            lemma_count_push(chs.drop_last().filter(q), chs.last(), p);
        }
    }
}

/// At most `MAX_CONCURRENT_WEBRTC` relayed transfers run, and at most one
/// transfer of each file from the share side.
pub open spec fn within_limits(s: SpecAppState) -> bool {
    &&& webrtc_count(s.channels) <= MAX_CONCURRENT_WEBRTC
    &&& forall|g: Seq<char>| #[trigger] http_count(s.channels, g) <= 1
}

/// Closing channels keeps the limits.
pub proof fn lemma_drop_channels_limits(s: SpecAppState, sel: crate::state::SpecChannelSel)
    requires
        within_limits(s),
    ensures
        within_limits(crate::state::drop_channels(s, sel)),
{
    let t = crate::state::drop_channels(s, sel);
    lemma_count_filter(s.channels, crate::state::keep_channel(sel), is_webrtc());
    assert forall|g: Seq<char>| #[trigger] http_count(t.channels, g) <= 1 by {
        lemma_count_filter(s.channels, crate::state::keep_channel(sel), http_for(g));
        assert(http_count(s.channels, g) <= 1);
    }
}

/// Dispatching every file keeps the limits.
pub proof fn lemma_dispatch_all_limits(s: SpecAppState, idss: Seq<Seq<Seq<char>>>)
    requires
        within_limits(s),
    ensures
        within_limits(dispatch_all_spec(s, idss)),
{
    law_dispatch_limits(s, idss, Seq::empty());
    assert forall|g: Seq<char>| #[trigger] http_count(dispatch_all_spec(s, idss).channels, g) <= 1 by {
        law_dispatch_limits(s, idss, g);
        assert(http_count(s.channels, g) <= 1);
    }
}

/// Every operation keeps the limits: at most one transfer of a file from the
/// share side at a time, and at most `MAX_CONCURRENT_WEBRTC` relayed ones.
pub proof fn law_limits_kept(
    s: SpecAppState,
    f: Seq<char>,
    c: Seq<char>,
    d: Seq<char>,
    file: crate::types::SpecFileInfo,
    idss: Seq<Seq<Seq<char>>>,
)
    requires
        within_limits(s),
    ensures
        within_limits(crate::store::spec_add_file(s, file)),
        within_limits(crate::store::spec_remove_file(s, f)),
        within_limits(crate::store::spec_register_client(s, c)),
        within_limits(crate::store::spec_remove_client(s, c)),
        within_limits(crate::state::add_completed(s, c, f)),
        within_limits(crate::scheduler::spec_request_download(s, f, c, idss)),
        within_limits(crate::scheduler::spec_mark_download_complete(s, f, c, idss)),
        within_limits(crate::scheduler::spec_mark_relay_complete(s, f, c, d, idss)),
        within_limits(crate::scheduler::spec_mark_transfer_failed(s, f, c)),
        within_limits(crate::scheduler::spec_disconnect_client(s, c, idss)),
        within_limits(dispatch_all_spec(s, idss)),
{
    assert(crate::store::spec_add_file(s, file).channels == s.channels);
    assert(crate::store::spec_remove_file(s, f).channels == s.channels);
    assert(crate::store::spec_register_client(s, c).channels == s.channels);
    assert(crate::store::spec_remove_client(s, c).channels == s.channels);
    lemma_dispatch_all_limits(s, idss);
    // a request
    if has_key(s.files, f) && !crate::state::has_item(s, f, c) {
        let p = crate::state::push_event(
            crate::scheduler::enqueue(s, f, c),
            crate::types::SpecSseEvent::ScheduleUpdate(
                crate::scheduler::update_event(f, c, crate::types::DownloadState::Queued),
            ),
        );
        assert(p.channels == s.channels);
        lemma_dispatch_all_limits(p, idss);
    }
    // a completion
    lemma_complete_limits(s, f, c, idss);
    // a relay's completion
    let r1 = crate::state::set_relaying(s, c, false);
    assert(r1.channels == s.channels);
    lemma_drop_channels_limits(r1, crate::state::SpecChannelSel::Pair { file: f, source: c, target: d });
    let r = crate::scheduler::relay_done_effect(s, f, c, d);
    lemma_complete_limits(r, f, d, idss);
    // a failure
    if crate::scheduler::failure_applies(s, f, c) {
        let relay = crate::scheduler::relay_source_of(s.channels, f, c);
        let s1 = match relay {
            Some(x) => crate::state::push_event(
                crate::state::set_relaying(s, x, false),
                crate::types::SpecSseEvent::ScheduleUpdate(
                    crate::scheduler::update_event(f, x, crate::types::DownloadState::Completed),
                ),
            ),
            None => s,
        };
        assert(s1.channels == s.channels);
        let sel = crate::state::SpecChannelSel::ToTarget { file: f, target: c };
        lemma_drop_channels_limits(s1, sel);
        let d1 = crate::state::drop_channels(s1, sel);
        let s2 = crate::state::set_item_state(d1, f, c, crate::types::DownloadState::Queued);
        assert(s2.channels == d1.channels);
        let s3 = match relay {
            Some(x) => crate::state::add_failed_relay(s2, f, c, x),
            None => s2,
        };
        assert(s3.channels == d1.channels);
    }
    // a departure
    let e1 = crate::scheduler::requeue(crate::store::strip_client_items(s, c), crate::scheduler::relayed_by(s.channels, c));
    lemma_requeue_channels(crate::store::strip_client_items(s, c), crate::scheduler::relayed_by(s.channels, c));
    let e2 = crate::scheduler::release(e1, crate::scheduler::relays_to(s.channels, c));
    crate::laws::lemma_release_frame(e1, crate::scheduler::relays_to(s.channels, c));
    lemma_drop_channels_limits(e2, crate::state::SpecChannelSel::Touching { client: c });
    let e = crate::scheduler::disconnect_effect(s, c);
    assert(e.channels == crate::state::drop_channels(e2, crate::state::SpecChannelSel::Touching { client: c }).channels);
    lemma_dispatch_all_limits(e, idss);
}

pub proof fn lemma_requeue_channels(s: SpecAppState, ts: Seq<(Seq<char>, Seq<char>)>)
    ensures
        crate::scheduler::requeue(s, ts).channels == s.channels,
    decreases ts.len(),
{
    if ts.len() > 0 {
        lemma_requeue_channels(s, ts.drop_last());
    }
}

pub proof fn lemma_complete_limits(s: SpecAppState, f: Seq<char>, c: Seq<char>, idss: Seq<Seq<Seq<char>>>)
    requires
        within_limits(s),
    ensures
        within_limits(crate::scheduler::spec_mark_download_complete(s, f, c, idss)),
{
    let m = crate::state::push_event(
        crate::state::add_completed(
            crate::state::set_item_state(s, f, c, crate::types::DownloadState::Completed),
            c,
            f,
        ),
        crate::types::SpecSseEvent::ScheduleUpdate(
            crate::scheduler::update_event(f, c, crate::types::DownloadState::Completed),
        ),
    );
    assert(m.channels == s.channels);
    lemma_drop_channels_limits(m, crate::state::SpecChannelSel::ToTarget { file: f, target: c });
    lemma_dispatch_all_limits(crate::scheduler::complete_effect(s, f, c), idss);
}

} // verus!

//! What a dispatch leaves alone: the files, the downloaders' ids and held
//! files, the relays that are busy, the queues' order and members, and every
//! item that is not waiting.
use crate::dispatch::{
    apply_plan, dispatch_file_spec, dispatch_files, position_events, relay_plan, serve_over_http,
    waiting,
};
use crate::keyed::{
    has_key, key_index, lemma_key_index, lemma_unique_index, lemma_upsert, lookup, unique_keys,
    upsert, Keyed,
};
use crate::state::{
    clear_failed_relays, has_item, item_of, push_event, put_channel, put_item, queue_items,
    set_item_state, set_relaying, wf, SpecAppState,
};
use crate::types::{DownloadState, SpecQueueItem};
use vstd::prelude::*;

verus! {

/// `b` is `a` after a dispatch: same downloader; an item that was not waiting
/// is untouched; a waiting one is waiting or downloading.
pub open spec fn item_evolves(a: SpecQueueItem, b: SpecQueueItem) -> bool {
    &&& b.client_id == a.client_id
    &&& a.state != DownloadState::Queued ==> b == a
    &&& a.state == DownloadState::Queued ==> (b.state == DownloadState::Queued || b.state
        == DownloadState::Downloading)
}

pub open spec fn items_evolve(a: Seq<SpecQueueItem>, b: Seq<SpecQueueItem>) -> bool {
    &&& a.len() == b.len()
    &&& forall|i: int| 0 <= i < a.len() ==> item_evolves(#[trigger] a[i], b[i])
}

/// `t` is `s` after some dispatching: a relay that was busy stays busy.
pub open spec fn evolves(s: SpecAppState, t: SpecAppState) -> bool {
    &&& t.files == s.files
    &&& t.port == s.port
    &&& t.queues.len() == s.queues.len()
    &&& forall|i: int|
        0 <= i < s.queues.len() ==> (#[trigger] t.queues[i]).file_id == s.queues[i].file_id
            && items_evolve(s.queues[i].items, t.queues[i].items)
    &&& t.clients.len() == s.clients.len()
    &&& forall|i: int|
        0 <= i < s.clients.len() ==> (#[trigger] t.clients[i]).id == s.clients[i].id
            && t.clients[i].completed_files == s.clients[i].completed_files && (s.clients[i].is_relaying
            ==> t.clients[i].is_relaying)
    &&& s.outbox.len() <= t.outbox.len()
    &&& t.outbox.take(s.outbox.len() as int) == s.outbox
}

/// `t` is `s` after dispatching file `f` only: the other queues are untouched.
pub open spec fn evolves_within(s: SpecAppState, t: SpecAppState, f: Seq<char>) -> bool {
    &&& evolves(s, t)
    &&& forall|i: int| 0 <= i < s.queues.len() && s.queues[i].file_id != f ==> #[trigger] t.queues[i] == s.queues[i]
}

pub proof fn lemma_evolves_refl(s: SpecAppState, f: Seq<char>)
    ensures
        evolves_within(s, s, f),
{
    assert(s.outbox.take(s.outbox.len() as int) =~= s.outbox);
}

pub proof fn lemma_evolves_trans_any(a: SpecAppState, b: SpecAppState, c: SpecAppState)
    requires
        evolves(a, b),
        evolves(b, c),
    ensures
        evolves(a, c),
{
    assert forall|i: int| 0 <= i < a.queues.len() implies (#[trigger] c.queues[i]).file_id == a.queues[i].file_id
        && items_evolve(a.queues[i].items, c.queues[i].items) by {
        assert(b.queues[i].file_id == a.queues[i].file_id);
        let x = a.queues[i].items;
        let y = b.queues[i].items;
        let z = c.queues[i].items;
        assert(items_evolve(x, y) && items_evolve(y, z));
        assert forall|j: int| 0 <= j < x.len() implies item_evolves(#[trigger] x[j], z[j]) by {
            assert(item_evolves(x[j], y[j]));
            assert(item_evolves(y[j], z[j]));
        }
    }
    assert forall|i: int| 0 <= i < a.clients.len() implies (#[trigger] c.clients[i]).id == a.clients[i].id
        && c.clients[i].completed_files == a.clients[i].completed_files && (a.clients[i].is_relaying
        ==> c.clients[i].is_relaying) by {
        assert(b.clients[i].id == a.clients[i].id);
    }
    assert(c.outbox.take(a.outbox.len() as int) =~= b.outbox.take(a.outbox.len() as int));
}

/// Evolving items keep their downloaders where they were.
pub proof fn lemma_items_evolve_keys(a: Seq<SpecQueueItem>, b: Seq<SpecQueueItem>, k: Seq<char>)
    requires
        unique_keys(a),
        items_evolve(a, b),
    ensures
        unique_keys(b),
        has_key(b, k) == has_key(a, k),
        key_index(b, k) == key_index(a, k),
{
    assert forall|i: int, j: int|
        0 <= i < b.len() && 0 <= j < b.len() && i != j implies #[trigger] b[i].key() != #[trigger] b[j].key() by {
        assert(item_evolves(a[i], b[i]));
        assert(item_evolves(a[j], b[j]));
        assert(a[i].key() != a[j].key());
    }
    if has_key(a, k) {
        lemma_key_index(a, k);
        let i = key_index(a, k);
        assert(item_evolves(a[i], b[i]));
        lemma_unique_index(b, i);
    }
    if has_key(b, k) {
        let i = choose|i: int| 0 <= i < b.len() && #[trigger] b[i].key() == k;
        assert(item_evolves(a[i], b[i]));
        assert(a[i].key() == k);
    }
}

/// Evolving states keep the queues where they were, and the state well formed
/// where the channels stay unique.
pub proof fn lemma_evolves_wf(s: SpecAppState, t: SpecAppState)
    requires
        wf(s),
        evolves(s, t),
        unique_keys(t.channels),
    ensures
        wf(t),
        forall|g: Seq<char>| #[trigger] has_key(t.queues, g) == has_key(s.queues, g),
        forall|g: Seq<char>| #[trigger] key_index(t.queues, g) == key_index(s.queues, g),
{
    assert forall|i: int, j: int|
        0 <= i < t.clients.len() && 0 <= j < t.clients.len() && i != j implies #[trigger] t.clients[i].key()
        != #[trigger] t.clients[j].key() by {
        assert(t.clients[i].id == s.clients[i].id);
        assert(t.clients[j].id == s.clients[j].id);
        assert(s.clients[i].key() != s.clients[j].key());
    }
    assert forall|i: int, j: int|
        0 <= i < t.queues.len() && 0 <= j < t.queues.len() && i != j implies #[trigger] t.queues[i].key()
        != #[trigger] t.queues[j].key() by {
        assert(t.queues[i].file_id == s.queues[i].file_id);
        assert(t.queues[j].file_id == s.queues[j].file_id);
        assert(s.queues[i].key() != s.queues[j].key());
    }
    assert forall|i: int| 0 <= i < t.queues.len() implies unique_keys(#[trigger] t.queues[i].items) by {
        assert(t.queues[i].file_id == s.queues[i].file_id);
        lemma_items_evolve_keys(s.queues[i].items, t.queues[i].items, Seq::empty());
    }
    assert forall|i: int| 0 <= i < t.queues.len() implies has_key(t.files, (#[trigger] t.queues[i]).file_id) by {
        assert(t.queues[i].file_id == s.queues[i].file_id);
        assert(has_key(s.files, s.queues[i].file_id));
    }
    assert forall|g: Seq<char>| #[trigger] has_key(t.queues, g) == has_key(s.queues, g) by {
        if has_key(s.queues, g) {
            let i = choose|i: int| 0 <= i < s.queues.len() && #[trigger] s.queues[i].key() == g;
            assert(t.queues[i].file_id == s.queues[i].file_id);
            assert(t.queues[i].key() == g);
        }
        if has_key(t.queues, g) {
            let i = choose|i: int| 0 <= i < t.queues.len() && #[trigger] t.queues[i].key() == g;
            assert(t.queues[i].file_id == s.queues[i].file_id);
            assert(s.queues[i].key() == g);
        }
    }
    assert forall|g: Seq<char>| #[trigger] key_index(t.queues, g) == key_index(s.queues, g) by {
        if has_key(s.queues, g) {
            lemma_key_index(s.queues, g);
            let i = key_index(s.queues, g);
            assert(t.queues[i].file_id == s.queues[i].file_id);
            lemma_unique_index(t.queues, i);
        }
    }
}

/// The downloaders of a queue, in order.
pub open spec fn client_ids(items: Seq<SpecQueueItem>) -> Seq<Seq<char>> {
    items.map_values(|it: SpecQueueItem| it.client_id)
}

/// Evolving states keep each queue's downloaders in their order.
pub proof fn lemma_evolves_members(s: SpecAppState, t: SpecAppState, g: Seq<char>)
    requires
        wf(s),
        wf(t),
        evolves(s, t),
    ensures
        client_ids(queue_items(t, g)) == client_ids(queue_items(s, g)),
{
    lemma_evolves_wf(s, t);
    lemma_key_index(s.queues, g);
    if has_key(s.queues, g) {
        let i = key_index(s.queues, g);
        let a = s.queues[i].items;
        let b = t.queues[i].items;
        assert(queue_items(s, g) == a);
        assert(queue_items(t, g) == b);
        assert(items_evolve(a, b));
        assert forall|j: int| 0 <= j < a.len() implies #[trigger] client_ids(b)[j] == client_ids(a)[j] by {
            assert(item_evolves(a[j], b[j]));
        }
        assert(client_ids(b) =~= client_ids(a));
    } else {
        assert(!has_key(t.queues, g));
        assert(queue_items(s, g) == Seq::<SpecQueueItem>::empty());
        assert(queue_items(t, g) == Seq::<SpecQueueItem>::empty());
    }
}

/// Items of evolved states correspond.
pub proof fn lemma_evolves_item(s: SpecAppState, t: SpecAppState, f: Seq<char>, c: Seq<char>)
    requires
        wf(s),
        evolves(s, t),
        unique_keys(t.channels),
    ensures
        has_item(t, f, c) == has_item(s, f, c),
        has_item(s, f, c) ==> item_evolves(item_of(s, f, c), item_of(t, f, c)),
{
    lemma_evolves_wf(s, t);
    if has_key(s.queues, f) {
        lemma_key_index(s.queues, f);
        let qi = key_index(s.queues, f);
        assert(t.queues[qi].file_id == s.queues[qi].file_id);
        let a = s.queues[qi].items;
        let b = t.queues[qi].items;
        assert(queue_items(s, f) == a);
        assert(queue_items(t, f) == b);
        lemma_items_evolve_keys(a, b, c);
        if has_key(a, c) {
            lemma_key_index(a, c);
            assert(item_evolves(a[key_index(a, c)], b[key_index(a, c)]));
        }
    }
}

/// Replacing the item of `c` by one into which the base state's item evolves
/// keeps the evolution.
pub proof fn lemma_put_item_evolves(
    s0: SpecAppState,
    m: SpecAppState,
    f: Seq<char>,
    c: Seq<char>,
    it: SpecQueueItem,
)
    requires
        wf(s0),
        evolves_within(s0, m, f),
        unique_keys(m.channels),
        has_item(s0, f, c) ==> item_evolves(item_of(s0, f, c), it) && it.client_id == c,
    ensures
        evolves_within(s0, put_item(m, f, c, it), f),
        put_item(m, f, c, it).channels == m.channels,
{
    lemma_evolves_item(s0, m, f, c);
    lemma_evolves_wf(s0, m);
    let t = put_item(m, f, c, it);
    if has_item(m, f, c) {
        let qi = key_index(m.queues, f);
        lemma_key_index(m.queues, f);
        lemma_key_index(s0.queues, f);
        let items = m.queues[qi].items;
        assert(queue_items(m, f) == items);
        let ii = key_index(items, c);
        lemma_key_index(items, c);
        assert(queue_items(s0, f) == s0.queues[qi].items);
        lemma_items_evolve_keys(s0.queues[qi].items, items, c);
        assert forall|i: int| 0 <= i < s0.queues.len() implies (#[trigger] t.queues[i]).file_id
            == s0.queues[i].file_id && items_evolve(s0.queues[i].items, t.queues[i].items) by {
            if i == qi {
                let a = s0.queues[i].items;
                let b = t.queues[i].items;
                assert forall|j: int| 0 <= j < a.len() implies item_evolves(#[trigger] a[j], b[j]) by {
                    if j != ii {
                        assert(item_evolves(a[j], items[j]));
                    }
                }
            } else {
                assert(t.queues[i] == m.queues[i]);
            }
        }
        assert forall|i: int| 0 <= i < s0.queues.len() && s0.queues[i].file_id != f implies #[trigger] t.queues[i] == s0.queues[i] by {
            assert(i != qi);
            assert(m.queues[i] == s0.queues[i]);
        }
    }
}

/// Marking a downloader as relaying keeps the evolution.
pub proof fn lemma_set_relaying_evolves(s0: SpecAppState, m: SpecAppState, f: Seq<char>, r: Seq<char>)
    requires
        evolves_within(s0, m, f),
    ensures
        evolves_within(s0, set_relaying(m, r, true), f),
        set_relaying(m, r, true).channels == m.channels,
{
    let t = set_relaying(m, r, true);
    if has_key(m.clients, r) {
        lemma_key_index(m.clients, r);
        let i = key_index(m.clients, r);
        assert forall|j: int| 0 <= j < s0.clients.len() implies (#[trigger] t.clients[j]).id == s0.clients[j].id
            && t.clients[j].completed_files == s0.clients[j].completed_files && (s0.clients[j].is_relaying
            ==> t.clients[j].is_relaying) by {
            assert(m.clients[j].id == s0.clients[j].id);
        }
    }
}

/// Inserting a channel or an event keeps the evolution.
pub proof fn lemma_channel_event_evolves(
    s0: SpecAppState,
    m: SpecAppState,
    f: Seq<char>,
    ch: crate::types::SpecChannel,
    e: crate::types::SpecSseEvent,
)
    requires
        evolves_within(s0, m, f),
        unique_keys(m.channels),
    ensures
        evolves_within(s0, put_channel(m, ch), f),
        evolves_within(s0, push_event(m, e), f),
        unique_keys(put_channel(m, ch).channels),
        push_event(m, e).channels == m.channels,
{
    lemma_upsert(m.channels, ch);
    let t = push_event(m, e);
    assert(t.outbox.take(s0.outbox.len() as int) =~= m.outbox.take(s0.outbox.len() as int));
}

/// Appending events keeps the evolution.
pub proof fn lemma_append_events_evolves(
    s0: SpecAppState,
    m: SpecAppState,
    f: Seq<char>,
    es: Seq<crate::types::SpecSseEvent>,
)
    requires
        evolves_within(s0, m, f),
    ensures
        evolves_within(s0, SpecAppState { outbox: m.outbox + es, ..m }, f),
{
    let t = SpecAppState { outbox: m.outbox + es, ..m };
    assert(t.outbox.take(s0.outbox.len() as int) =~= m.outbox.take(s0.outbox.len() as int));
}

/// Every downloader in `waiting(items)` has a waiting item.
pub proof fn lemma_waiting_queued(items: Seq<SpecQueueItem>, j: int)
    requires
        unique_keys(items),
        0 <= j < waiting(items).len(),
    ensures
        has_key(items, waiting(items)[j]),
        items[key_index(items, waiting(items)[j])].state == DownloadState::Queued,
    decreases items.len(),
{
    let w = waiting(items);
    let d = items.drop_last();
    assert(unique_keys(d)) by {
        assert forall|a: int, b: int| 0 <= a < d.len() && 0 <= b < d.len() && a != b implies #[trigger] d[a].key()
            != #[trigger] d[b].key() by {
            assert(d[a] == items[a] && d[b] == items[b]);
        }
    }
    if j < waiting(d).len() {
        lemma_waiting_queued(d, j);
        assert(w[j] == waiting(d)[j]);
        lemma_key_index(d, w[j]);
        let i = key_index(d, w[j]);
        assert(items[i] == d[i]);
        lemma_unique_index(items, i);
    } else {
        assert(items.last().state == DownloadState::Queued);
        assert(w[j] == items.last().client_id);
        lemma_unique_index(items, items.len() - 1);
    }
}

/// The waiting downloaders are distinct.
pub proof fn lemma_waiting_distinct(items: Seq<SpecQueueItem>)
    requires
        unique_keys(items),
    ensures
        waiting(items).no_duplicates(),
    decreases items.len(),
{
    let w = waiting(items);
    let d = items.drop_last();
    if items.len() > 0 {
        assert(unique_keys(d)) by {
            assert forall|a: int, b: int| 0 <= a < d.len() && 0 <= b < d.len() && a != b implies #[trigger] d[a].key()
                != #[trigger] d[b].key() by {
                assert(d[a] == items[a] && d[b] == items[b]);
            }
        }
        lemma_waiting_distinct(d);
        if items.last().state == DownloadState::Queued {
            assert forall|a: int| 0 <= a < waiting(d).len() implies waiting(d)[a] != items.last().client_id by {
                lemma_waiting_queued(d, a);
                lemma_key_index(d, waiting(d)[a]);
                let i = key_index(d, waiting(d)[a]);
                assert(items[i] == d[i]);
                assert(items[i].key() != items[items.len() - 1].key());
            }
        }
    }
}

/// The k-th pair of a plan serves the k-th target.
pub proof fn lemma_plan_targets(
    items: Seq<SpecQueueItem>,
    targets: Seq<Seq<char>>,
    pool: Seq<Seq<char>>,
    budget: nat,
)
    ensures
        relay_plan(items, targets, pool, budget).0.len() <= targets.len(),
        relay_plan(items, targets, pool, budget).0.len() <= budget,
        forall|k: int|
            0 <= k < relay_plan(items, targets, pool, budget).0.len() ==> (#[trigger] relay_plan(
                items,
                targets,
                pool,
                budget,
            ).0[k]).0 == targets[k],
        relay_plan(items, targets, pool, budget).1 matches Some(t) ==> targets[relay_plan(
            items,
            targets,
            pool,
            budget,
        ).0.len() as int] == t && relay_plan(items, targets, pool, budget).0.len() < targets.len(),
    decreases targets.len(),
{
    if targets.len() > 0 && budget > 0 {
        let t = targets[0];
        let pos = crate::dispatch::last_usable(pool, crate::dispatch::failed_of(items, t));
        if pos >= 0 {
            lemma_plan_targets(items, targets.drop_first(), pool.remove(pos), (budget - 1) as nat);
            let rest = relay_plan(items, targets.drop_first(), pool.remove(pos), (budget - 1) as nat);
            let p = relay_plan(items, targets, pool, budget);
            assert(p.0 == seq![(t, pool[pos])] + rest.0);
            assert forall|k: int| 0 <= k < p.0.len() implies (#[trigger] p.0[k]).0 == targets[k] by {
                if k > 0 {
                    assert(p.0[k] == rest.0[k - 1]);
                }
            }
        }
    }
}

/// Setting a downloader that waited in `s0` to downloading keeps the evolution.
pub proof fn lemma_start_evolves(s0: SpecAppState, m: SpecAppState, f: Seq<char>, t: Seq<char>)
    requires
        wf(s0),
        evolves_within(s0, m, f),
        unique_keys(m.channels),
        has_item(s0, f, t) ==> item_of(s0, f, t).state == DownloadState::Queued,
    ensures
        evolves_within(s0, set_item_state(m, f, t, DownloadState::Downloading), f),
        set_item_state(m, f, t, DownloadState::Downloading).channels == m.channels,
{
    lemma_evolves_item(s0, m, f, t);
    if has_item(m, f, t) {
        lemma_key_index(queue_items(m, f), t);
    }
    lemma_put_item_evolves(s0, m, f, t, SpecQueueItem { state: DownloadState::Downloading, ..item_of(m, f, t) });
}

pub proof fn lemma_apply_plan_evolves(
    s0: SpecAppState,
    s1: SpecAppState,
    f: Seq<char>,
    size: u64,
    pairs: Seq<(Seq<char>, Seq<char>)>,
    ids: Seq<Seq<char>>,
)
    requires
        wf(s0),
        evolves_within(s0, s1, f),
        unique_keys(s1.channels),
        forall|k: int|
            0 <= k < pairs.len() && has_item(s0, f, (#[trigger] pairs[k]).0) ==> item_of(s0, f, pairs[k].0).state
                == DownloadState::Queued,
    ensures
        evolves_within(s0, apply_plan(s1, f, size, pairs, ids), f),
        unique_keys(apply_plan(s1, f, size, pairs, ids).channels),
    decreases pairs.len(),
{
    if pairs.len() > 0 {
        let k = pairs.len() - 1;
        let d = pairs.drop_last();
        assert forall|j: int| 0 <= j < d.len() && has_item(s0, f, (#[trigger] d[j]).0) implies item_of(s0, f, d[j].0).state
            == DownloadState::Queued by {
            assert(d[j] == pairs[j]);
        }
        lemma_apply_plan_evolves(s0, s1, f, size, d, ids);
        let m = apply_plan(s1, f, size, d, ids);
        let (t, r) = pairs[k];
        lemma_start_evolves(s0, m, f, t);
        let m1 = set_item_state(m, f, t, DownloadState::Downloading);
        lemma_set_relaying_evolves(s0, m1, f, r);
        let m2 = set_relaying(m1, r, true);
        let ch = crate::types::SpecChannel {
            channel_id: ids[k],
            file_id: f,
            source: r,
            target: t,
            channel_type: crate::types::ChannelType::Webrtc,
        };
        lemma_channel_event_evolves(s0, m2, f, ch, crate::types::SpecSseEvent::FileRemoved(f));
        let m3 = put_channel(m2, ch);
        let e = crate::types::SpecSseEvent::RelayAssign(
            crate::types::SpecRelayAssign {
                file_id: f,
                source_client_id: r,
                target_client_id: t,
                file_size: size,
                channel_id: ids[k],
            },
        );
        lemma_channel_event_evolves(s0, m3, f, ch, e);
        assert(apply_plan(s1, f, size, pairs, ids) == push_event(m3, e));
    }
}

/// The waiting downloaders of `f` are queued in `s`.
pub proof fn lemma_waiting_items(s: SpecAppState, f: Seq<char>)
    requires
        wf(s),
    ensures
        forall|j: int|
            0 <= j < waiting(queue_items(s, f)).len() ==> has_item(s, f, #[trigger] waiting(queue_items(s, f))[j])
                && item_of(s, f, waiting(queue_items(s, f))[j]).state == DownloadState::Queued,
        unique_keys(queue_items(s, f)),
{
    let items = queue_items(s, f);
    lemma_key_index(s.queues, f);
    if has_key(s.queues, f) {
        assert(items == s.queues[key_index(s.queues, f)].items);
    } else {
        assert(items =~= Seq::<SpecQueueItem>::empty());
    }
    assert forall|j: int| 0 <= j < waiting(items).len() implies has_item(s, f, #[trigger] waiting(items)[j])
        && item_of(s, f, waiting(items)[j]).state == DownloadState::Queued by {
        lemma_waiting_queued(items, j);
    }
}

/// Dispatching a file evolves the state within that file and keeps it well formed.
pub proof fn lemma_dispatch_file_evolves(s: SpecAppState, f: Seq<char>, ids: Seq<Seq<char>>)
    requires
        wf(s),
    ensures
        evolves_within(s, dispatch_file_spec(s, f, ids), f),
        wf(dispatch_file_spec(s, f, ids)),
{
    lemma_evolves_refl(s, f);
    if has_key(s.files, f) && has_key(s.queues, f) {
        let size = s.files[key_index(s.files, f)].size;
        let w = waiting(queue_items(s, f));
        lemma_waiting_items(s, f);
        if w.len() > 0 {
            let http = !crate::dispatch::http_busy(s.channels, f);
            let kk: int = if http { 1 } else { 0 };
            let s1 = if http {
                serve_over_http(s, f, w[0], ids[0])
            } else {
                s
            };
            if http {
                assert(w[0] == waiting(queue_items(s, f))[0]);
                lemma_start_evolves(s, s, f, w[0]);
                let m1 = set_item_state(s, f, w[0], DownloadState::Downloading);
                let ch = crate::types::SpecChannel {
                    channel_id: ids[0],
                    file_id: f,
                    source: "server"@,
                    target: w[0],
                    channel_type: crate::types::ChannelType::Http,
                };
                lemma_channel_event_evolves(s, m1, f, ch, crate::types::SpecSseEvent::FileRemoved(f));
                let m2 = put_channel(m1, ch);
                let e = crate::types::SpecSseEvent::ScheduleUpdate(
                    crate::types::SpecScheduleEvent {
                        file_id: f,
                        client_id: w[0],
                        state: DownloadState::Downloading,
                        queue_position: None,
                    },
                );
                lemma_channel_event_evolves(s, m2, f, ch, e);
                assert(s1 == push_event(m2, e));
            }
            let rem = w.skip(kk);
            let result = dispatch_file_spec(s, f, ids);
            {
                let s2 = if rem.len() > 0 && crate::dispatch::webrtc_count(s1.channels) < crate::dispatch::MAX_CONCURRENT_WEBRTC {
                    let items1 = queue_items(s1, f);
                    let pool = crate::dispatch::relay_pool(s1.clients, f);
                    let budget = (crate::dispatch::MAX_CONCURRENT_WEBRTC - crate::dispatch::webrtc_count(s1.channels)) as nat;
                    let plan = relay_plan(items1, rem, pool, budget);
                    lemma_plan_targets(items1, rem, pool, budget);
                    assert forall|k: int|
                        0 <= k < plan.0.len() && has_item(s, f, (#[trigger] plan.0[k]).0) implies item_of(s, f, plan.0[k].0).state
                            == DownloadState::Queued by {
                        assert(plan.0[k].0 == rem[k]);
                        assert(rem[k] == w[k + kk]);
                        assert(w[k + kk] == waiting(queue_items(s, f))[k + kk]);
                    }
                    lemma_apply_plan_evolves(s, s1, f, size, plan.0, ids.skip(kk));
                    let sa = apply_plan(s1, f, size, plan.0, ids.skip(kk));
                    match plan.1 {
                        Some(t) => {
                            assert(t == rem[plan.0.len() as int]);
                            assert(t == waiting(queue_items(s, f))[plan.0.len() + kk]);
                            lemma_evolves_item(s, sa, f, t);
                            lemma_put_item_evolves(
                                s,
                                sa,
                                f,
                                t,
                                SpecQueueItem { failed_relays: Seq::empty(), ..item_of(sa, f, t) },
                            );
                        },
                        None => {},
                    }
                    match plan.1 {
                        Some(t) => clear_failed_relays(sa, f, t),
                        None => sa,
                    }
                } else {
                    s1
                };
                lemma_append_events_evolves(s, s2, f, position_events(f, queue_items(s2, f)));
            }
            lemma_evolves_wf(s, result);
        }
    }
}

/// Dispatching files in turn evolves the state and keeps it well formed.
pub proof fn lemma_dispatch_files_evolves(s: SpecAppState, fs: Seq<Seq<char>>, idss: Seq<Seq<Seq<char>>>)
    requires
        wf(s),
    ensures
        evolves(s, dispatch_files(s, fs, idss)),
        wf(dispatch_files(s, fs, idss)),
    decreases fs.len(),
{
    if fs.len() == 0 {
        lemma_evolves_refl(s, Seq::empty());
    } else {
        lemma_dispatch_files_evolves(s, fs.drop_last(), idss);
        let m = dispatch_files(s, fs.drop_last(), idss);
        lemma_dispatch_file_evolves(m, fs.last(), idss[fs.len() - 1]);
        lemma_evolves_trans_any(s, m, dispatch_files(s, fs, idss));
    }
}

/// Downloaders of evolved states correspond.
pub proof fn lemma_evolves_client(s: SpecAppState, t: SpecAppState, c: Seq<char>)
    requires
        wf(s),
        evolves(s, t),
    ensures
        has_key(t.clients, c) == has_key(s.clients, c),
        has_key(s.clients, c) ==> (lookup(t.clients, c) matches Some(x) && lookup(s.clients, c)
            matches Some(y) && x.id == y.id && x.completed_files == y.completed_files && (y.is_relaying
            ==> x.is_relaying)),
{
    if has_key(s.clients, c) {
        lemma_key_index(s.clients, c);
        let i = key_index(s.clients, c);
        assert(t.clients[i].id == s.clients[i].id);
        assert(unique_keys(t.clients)) by {
            assert forall|a: int, b: int|
                0 <= a < t.clients.len() && 0 <= b < t.clients.len() && a != b implies #[trigger] t.clients[a].key()
                != #[trigger] t.clients[b].key() by {
                assert(t.clients[a].id == s.clients[a].id);
                assert(t.clients[b].id == s.clients[b].id);
                assert(s.clients[a].key() != s.clients[b].key());
            }
        }
        lemma_unique_index(t.clients, i);
    }
    if has_key(t.clients, c) {
        let i = choose|i: int| 0 <= i < t.clients.len() && #[trigger] t.clients[i].key() == c;
        assert(t.clients[i].id == s.clients[i].id);
        assert(s.clients[i].key() == c);
    }
}

pub proof fn lemma_upsert_contains(chs: Seq<crate::types::SpecChannel>, x: crate::types::SpecChannel)
    ensures
        forall|i: int|
            0 <= i < upsert(chs, x).len() ==> #[trigger] upsert(chs, x)[i] == x || chs.contains(upsert(chs, x)[i]),
{
    lemma_key_index(chs, x.key());
    assert forall|i: int| 0 <= i < upsert(chs, x).len() implies #[trigger] upsert(chs, x)[i] == x || chs.contains(upsert(chs, x)[i]) by {
        if upsert(chs, x)[i] != x {
            assert(upsert(chs, x)[i] == chs[i]);
        }
    }
}

/// A channel that relaying a plan leaves is an earlier one or one of the plan.
pub proof fn lemma_apply_plan_channels(
    s1: SpecAppState,
    f: Seq<char>,
    size: u64,
    pairs: Seq<(Seq<char>, Seq<char>)>,
    ids: Seq<Seq<char>>,
)
    ensures
        forall|i: int|
            0 <= i < apply_plan(s1, f, size, pairs, ids).channels.len() ==> {
                let ch = #[trigger] apply_plan(s1, f, size, pairs, ids).channels[i];
                s1.channels.contains(ch) || (ch.file_id == f && ch.channel_type == crate::types::ChannelType::Webrtc
                    && exists|k: int| 0 <= k < pairs.len() && (#[trigger] pairs[k]).1 == ch.source && pairs[k].0 == ch.target)
            },
    decreases pairs.len(),
{
    if pairs.len() > 0 {
        let k = pairs.len() - 1;
        let d = pairs.drop_last();
        lemma_apply_plan_channels(s1, f, size, d, ids);
        let m = apply_plan(s1, f, size, d, ids);
        let ch = crate::types::SpecChannel {
            channel_id: ids[k],
            file_id: f,
            source: pairs[k].1,
            target: pairs[k].0,
            channel_type: crate::types::ChannelType::Webrtc,
        };
        let m2 = set_relaying(set_item_state(m, f, pairs[k].0, DownloadState::Downloading), pairs[k].1, true);
        assert(m2.channels == m.channels);
        lemma_upsert_contains(m.channels, ch);
        let r = apply_plan(s1, f, size, pairs, ids);
        assert(r.channels == upsert(m.channels, ch));
        assert forall|i: int| 0 <= i < r.channels.len() implies {
            let c = #[trigger] r.channels[i];
            s1.channels.contains(c) || (c.file_id == f && c.channel_type == crate::types::ChannelType::Webrtc
                && exists|k2: int| 0 <= k2 < pairs.len() && (#[trigger] pairs[k2]).1 == c.source && pairs[k2].0 == c.target)
        } by {
            let c = r.channels[i];
            if c == ch {
                assert(pairs[k].1 == c.source);
            } else {
                assert(m.channels.contains(c));
                let j = choose|j: int| 0 <= j < m.channels.len() && m.channels[j] == c;
                if !s1.channels.contains(c) {
                    let k2 = choose|k2: int| 0 <= k2 < d.len() && (#[trigger] d[k2]).1 == c.source && d[k2].0 == c.target;
                    assert(pairs[k2] == d[k2]);
                }
            }
        }
    }
}

} // verus!

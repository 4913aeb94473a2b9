//! The dispatcher: for each shared file, who downloads it next from the share
//! side, and which downloaders that already hold it relay it to whom.
use crate::ids::{new_id, uuid_text};
use crate::keyed::{has_key, key_index, lemma_key_index};
use crate::state::{
    clear_failed_relays, contains_text, find_file, find_queue, push_event, put_channel, queue_items,
    set_item_state, set_relaying, wf, AppState, SpecAppState,
};
use crate::types::{
    copy_texts, lemma_texts_push, texts, ChannelType, ConnectedClient, DownloadState, QueueItem,
    RelayAssignEvent, ScheduleEvent, SpecChannel, SpecClient, SpecQueueItem, SpecRelayAssign,
    SpecScheduleEvent, SpecSseEvent, SseEvent, TransferChannel,
};
use vstd::prelude::*;

verus! {

/// At most this many WebRTC transfers run at once, over all files: each keeps
/// a peer connection open in two browsers, and large files over many of them
/// exhaust the browsers' memory.
pub const MAX_CONCURRENT_WEBRTC: usize = 4;

/// The downloaders that wait for a file, in queue order.
pub open spec fn waiting(items: Seq<SpecQueueItem>) -> Seq<Seq<char>>
    decreases items.len(),
{
    if items.len() == 0 {
        Seq::empty()
    } else {
        let w = waiting(items.drop_last());
        if items.last().state == DownloadState::Queued {
            w.push(items.last().client_id)
        } else {
            w
        }
    }
}

/// The share side is sending file `f` to somebody.
pub open spec fn http_busy(chs: Seq<SpecChannel>, f: Seq<char>) -> bool {
    exists|i: int|
        0 <= i < chs.len() && (#[trigger] chs[i]).file_id == f && chs[i].channel_type
            == ChannelType::Http
}

/// The number of channels that satisfy `p`.
pub open spec fn count_channels(chs: Seq<SpecChannel>, p: spec_fn(SpecChannel) -> bool) -> nat
    decreases chs.len(),
{
    if chs.len() == 0 {
        0
    } else {
        count_channels(chs.drop_last(), p) + if p(chs.last()) {
            1nat
        } else {
            0nat
        }
    }
}

pub open spec fn is_webrtc() -> spec_fn(SpecChannel) -> bool {
    |ch: SpecChannel| ch.channel_type == ChannelType::Webrtc
}

/// The number of WebRTC transfers running, over all files.
pub open spec fn webrtc_count(chs: Seq<SpecChannel>) -> nat {
    count_channels(chs, is_webrtc())
}

/// The downloaders that hold file `f` and are not relaying, in order.
pub open spec fn relay_pool(clients: Seq<SpecClient>, f: Seq<char>) -> Seq<Seq<char>>
    decreases clients.len(),
{
    if clients.len() == 0 {
        Seq::empty()
    } else {
        let p = relay_pool(clients.drop_last(), f);
        let c = clients.last();
        if c.completed_files.contains(f) && !c.is_relaying {
            p.push(c.id)
        } else {
            p
        }
    }
}

/// The last position of `pool` whose relay is not in `failed`; -1 where there is none.
pub open spec fn last_usable(pool: Seq<Seq<char>>, failed: Seq<Seq<char>>) -> int
    decreases pool.len(),
{
    if pool.len() == 0 {
        -1
    } else if !failed.contains(pool.last()) {
        pool.len() - 1
    } else {
        last_usable(pool.drop_last(), failed)
    }
}

/// The relays that failed downloader `t`, as its item records them.
pub open spec fn failed_of(items: Seq<SpecQueueItem>, t: Seq<char>) -> Seq<Seq<char>> {
    if has_key(items, t) {
        items[key_index(items, t)].failed_relays
    } else {
        Seq::empty()
    }
}

/// Pairs (target, relay) for the waiting `targets`, in order: each target takes
/// the last relay of the pool that has not failed it, and that relay leaves the
/// pool, until `budget` pairs are made. A target for which every remaining relay
/// has failed ends the pairing and is returned second.
pub open spec fn relay_plan(
    items: Seq<SpecQueueItem>,
    targets: Seq<Seq<char>>,
    pool: Seq<Seq<char>>,
    budget: nat,
) -> (Seq<(Seq<char>, Seq<char>)>, Option<Seq<char>>)
    decreases targets.len(),
{
    if targets.len() == 0 || budget == 0 {
        (Seq::empty(), None)
    } else {
        let t = targets[0];
        let pos = last_usable(pool, failed_of(items, t));
        if pos < 0 {
            (Seq::empty(), Some(t))
        } else {
            let rest = relay_plan(items, targets.drop_first(), pool.remove(pos), (budget - 1) as nat);
            (seq![(t, pool[pos])] + rest.0, rest.1)
        }
    }
}

/// The share side starts sending file `f` to `t` over channel `cid`.
pub open spec fn serve_over_http(s: SpecAppState, f: Seq<char>, t: Seq<char>, cid: Seq<char>) -> SpecAppState {
    push_event(
        put_channel(
            set_item_state(s, f, t, DownloadState::Downloading),
            SpecChannel {
                channel_id: cid,
                file_id: f,
                source: "server"@,
                target: t,
                channel_type: ChannelType::Http,
            },
        ),
        SpecSseEvent::ScheduleUpdate(
            SpecScheduleEvent {
                file_id: f,
                client_id: t,
                state: DownloadState::Downloading,
                queue_position: None,
            },
        ),
    )
}

/// Downloader `r` is told to relay file `f` (of `size` bytes) to `t` over channel `cid`.
pub open spec fn assign_relay(
    s: SpecAppState,
    f: Seq<char>,
    size: u64,
    t: Seq<char>,
    r: Seq<char>,
    cid: Seq<char>,
) -> SpecAppState {
    push_event(
        put_channel(
            set_relaying(set_item_state(s, f, t, DownloadState::Downloading), r, true),
            SpecChannel {
                channel_id: cid,
                file_id: f,
                source: r,
                target: t,
                channel_type: ChannelType::Webrtc,
            },
        ),
        SpecSseEvent::RelayAssign(
            SpecRelayAssign {
                file_id: f,
                source_client_id: r,
                target_client_id: t,
                file_size: size,
                channel_id: cid,
            },
        ),
    )
}

/// Carry out the pairs in order, the k-th over channel `ids[k]`.
pub open spec fn apply_plan(
    s: SpecAppState,
    f: Seq<char>,
    size: u64,
    pairs: Seq<(Seq<char>, Seq<char>)>,
    ids: Seq<Seq<char>>,
) -> SpecAppState
    decreases pairs.len(),
{
    if pairs.len() == 0 {
        s
    } else {
        let k = pairs.len() - 1;
        assign_relay(apply_plan(s, f, size, pairs.drop_last(), ids), f, size, pairs[k].0, pairs[k].1, ids[k])
    }
}

/// One schedule update per downloader still waiting for file `f`, with its
/// place in the queue, counted from 1.
pub open spec fn position_events(f: Seq<char>, items: Seq<SpecQueueItem>) -> Seq<SpecSseEvent>
    decreases items.len(),
{
    if items.len() == 0 {
        Seq::empty()
    } else {
        let e = position_events(f, items.drop_last());
        if items.last().state == DownloadState::Queued {
            e.push(
                SpecSseEvent::ScheduleUpdate(
                    SpecScheduleEvent {
                        file_id: f,
                        client_id: items.last().client_id,
                        state: DownloadState::Queued,
                        queue_position: Some((e.len() + 1) as usize),
                    },
                ),
            )
        } else {
            e
        }
    }
}

/// Dispatch file `f`, the new channels taking the ids `ids` in order. Nothing
/// happens where `f` is not shared, has no queue or nobody waits for it.
/// Otherwise: where the share side sends `f` to nobody, the first waiting
/// downloader gets it from the share side. The other waiting downloaders are
/// paired with relays (`relay_plan`) where fewer than
/// `MAX_CONCURRENT_WEBRTC` WebRTC transfers run; where the limit is reached no
/// relay is assigned. Last, each downloader still waiting hears its place in
/// the queue.
pub open spec fn dispatch_file_spec(s: SpecAppState, f: Seq<char>, ids: Seq<Seq<char>>) -> SpecAppState {
    if !has_key(s.files, f) || !has_key(s.queues, f) {
        s
    } else {
        let size = s.files[key_index(s.files, f)].size;
        let w = waiting(queue_items(s, f));
        if w.len() == 0 {
            s
        } else {
            let http = !http_busy(s.channels, f);
            let s1 = if http {
                serve_over_http(s, f, w[0], ids[0])
            } else {
                s
            };
            let k: int = if http {
                1
            } else {
                0
            };
            let rem = w.skip(k);
            let s2 = if rem.len() > 0 && webrtc_count(s1.channels) < MAX_CONCURRENT_WEBRTC {
                let plan = relay_plan(
                    queue_items(s1, f),
                    rem,
                    relay_pool(s1.clients, f),
                    (MAX_CONCURRENT_WEBRTC - webrtc_count(s1.channels)) as nat,
                );
                let sa = apply_plan(s1, f, size, plan.0, ids.skip(k));
                match plan.1 {
                    Some(t) => clear_failed_relays(sa, f, t),
                    None => sa,
                }
            } else {
                s1
            };
            SpecAppState { outbox: s2.outbox + position_events(f, queue_items(s2, f)), ..s2 }
        }
    }
}

/// Dispatch the files `fs` in order, the i-th with the channel ids `idss[i]`.
pub open spec fn dispatch_files(s: SpecAppState, fs: Seq<Seq<char>>, idss: Seq<Seq<Seq<char>>>) -> SpecAppState
    decreases fs.len(),
{
    if fs.len() == 0 {
        s
    } else {
        dispatch_file_spec(dispatch_files(s, fs.drop_last(), idss), fs.last(), idss[fs.len() - 1])
    }
}

/// Every channel id of every list is the text of a random UUID.
pub open spec fn uuid_lists(idss: Seq<Seq<Seq<char>>>) -> bool {
    forall|i: int, j: int| 0 <= i < idss.len() && 0 <= j < idss[i].len() ==> uuid_text(#[trigger] idss[i][j])
}

pub open spec fn file_ids(s: SpecAppState) -> Seq<Seq<char>> {
    s.files.map_values(|f: crate::types::SpecFileInfo| f.id)
}

/// Dispatch every shared file, in the order they are held.
pub open spec fn dispatch_all_spec(s: SpecAppState, idss: Seq<Seq<Seq<char>>>) -> SpecAppState {
    dispatch_files(s, file_ids(s), idss)
}

/// The downloaders waiting in `items`, in order.
fn waiting_clients(items: &Vec<QueueItem>) -> (w: Vec<String>)
    ensures
        texts(w@) == waiting(items@.map_values(|it: QueueItem| it@)),
{
    let ghost v = items@.map_values(|it: QueueItem| it@);
    let mut w: Vec<String> = Vec::new();
    let mut i: usize = 0;
    while i < items.len()
        invariant
            v == items@.map_values(|it: QueueItem| it@),
            i <= items.len(),
            texts(w@) == waiting(v.take(i as int)),
        decreases items.len() - i,
    {
        assert(v.take(i as int + 1).drop_last() =~= v.take(i as int));
        if items[i].state == DownloadState::Queued {
            let ghost before = w@;
            w.push(items[i].client_id.clone());
            assert(texts(w@) =~= texts(before).push(v[i as int].client_id));
        }
        i += 1;
    }
    assert(v.take(i as int) =~= v);
    w
}

/// Whether the share side is sending file `f` to somebody.
fn http_active(chs: &Vec<TransferChannel>, f: &String) -> (b: bool)
    ensures
        b == http_busy(chs@.map_values(|c: TransferChannel| c@), f@),
{
    let ghost v = chs@.map_values(|c: TransferChannel| c@);
    let mut i: usize = 0;
    while i < chs.len()
        invariant
            v == chs@.map_values(|c: TransferChannel| c@),
            i <= chs.len(),
            forall|j: int|
                0 <= j < i ==> !((#[trigger] v[j]).file_id == f@ && v[j].channel_type
                    == ChannelType::Http),
        decreases chs.len() - i,
    {
        if chs[i].file_id == *f && chs[i].channel_type == ChannelType::Http {
            assert(v[i as int].file_id == f@);
            return true;
        }
        i += 1;
    }
    false
}

/// The number of WebRTC transfers running.
fn count_webrtc(chs: &Vec<TransferChannel>) -> (n: usize)
    ensures
        n == webrtc_count(chs@.map_values(|c: TransferChannel| c@)),
{
    let ghost v = chs@.map_values(|c: TransferChannel| c@);
    let mut n: usize = 0;
    let mut i: usize = 0;
    while i < chs.len()
        invariant
            v == chs@.map_values(|c: TransferChannel| c@),
            i <= chs.len(),
            n == webrtc_count(v.take(i as int)),
            n <= i,
        decreases chs.len() - i,
    {
        assert(v.take(i as int + 1).drop_last() =~= v.take(i as int));
        if chs[i].channel_type == ChannelType::Webrtc {
            n += 1;
        }
        i += 1;
    }
    assert(v.take(i as int) =~= v);
    n
}

/// The downloaders that hold file `f` and are not relaying, in order.
fn available_relays(clients: &Vec<ConnectedClient>, f: &String) -> (p: Vec<String>)
    ensures
        texts(p@) == relay_pool(clients@.map_values(|c: ConnectedClient| c@), f@),
{
    let ghost v = clients@.map_values(|c: ConnectedClient| c@);
    let mut p: Vec<String> = Vec::new();
    let mut i: usize = 0;
    while i < clients.len()
        invariant
            v == clients@.map_values(|c: ConnectedClient| c@),
            i <= clients.len(),
            texts(p@) == relay_pool(v.take(i as int), f@),
        decreases clients.len() - i,
    {
        assert(v.take(i as int + 1).drop_last() =~= v.take(i as int));
        if contains_text(&clients[i].completed_files, f) && !clients[i].is_relaying {
            let ghost before = p@;
            p.push(clients[i].id.clone());
            assert(texts(p@) =~= texts(before).push(v[i as int].id));
        }
        i += 1;
    }
    assert(v.take(i as int) =~= v);
    p
}

pub proof fn lemma_last_usable_range(pool: Seq<Seq<char>>, failed: Seq<Seq<char>>)
    ensures
        -1 <= last_usable(pool, failed) < pool.len(),
        last_usable(pool, failed) >= 0 ==> !failed.contains(pool[last_usable(pool, failed)]),
    decreases pool.len(),
{
    if pool.len() > 0 {
        lemma_last_usable_range(pool.drop_last(), failed);
    }
}

/// The last position of `pool` whose relay is not in `failed`.
fn find_usable(pool: &Vec<String>, failed: &Vec<String>) -> (r: Option<usize>)
    ensures
        match r {
            Some(i) => i as int == last_usable(texts(pool@), texts(failed@)),
            None => last_usable(texts(pool@), texts(failed@)) < 0,
        },
{
    let ghost v = texts(pool@);
    let ghost fl = texts(failed@);
    let mut j: usize = pool.len();
    assert(v.take(j as int) =~= v);
    while j > 0
        invariant
            v == texts(pool@),
            fl == texts(failed@),
            j <= pool.len(),
            last_usable(v, fl) == last_usable(v.take(j as int), fl),
        decreases j,
    {
        assert(v.take(j as int).drop_last() =~= v.take(j as int - 1));
        assert(v.take(j as int).last() == v[j - 1]);
        if !contains_text(failed, &pool[j - 1]) {
            return Some(j - 1);
        }
        j -= 1;
    }
    None
}

impl AppState {
    /// The relays recorded as failed for downloader `t` in the queue of file `f`.
    fn failed_relays_of(&self, f: &String, t: &String) -> (r: Vec<String>)
        requires
            wf(self@),
        ensures
            texts(r@) == failed_of(queue_items(self@, f@), t@),
    {
        match self.locate_item(f, t) {
            Some((qi, ii)) => {
                proof {
                    lemma_key_index(self@.queues, f@);
                    self.lemma_view_queues(qi as int);
                }
                copy_texts(&self.queues[qi].1.items[ii].failed_relays)
            },
            None => {
                let r: Vec<String> = Vec::new();
                assert(texts(r@) =~= Seq::<Seq<char>>::empty());
                proof {
                    if has_key(self@.queues, f@) {
                        lemma_key_index(self@.queues, f@);
                    }
                }
                r
            },
        }
    }
}

pub open spec fn pair_views(v: Seq<(String, String)>) -> Seq<(Seq<char>, Seq<char>)> {
    v.map_values(|p: (String, String)| (p.0@, p.1@))
}

pub open spec fn opt_text(o: Option<String>) -> Option<Seq<char>> {
    match o {
        Some(s) => Some(s@),
        None => None,
    }
}

/// `apply_plan` reads only the first `pairs.len()` ids.
pub proof fn lemma_apply_plan_ids(
    s: SpecAppState,
    f: Seq<char>,
    size: u64,
    pairs: Seq<(Seq<char>, Seq<char>)>,
    ids1: Seq<Seq<char>>,
    ids2: Seq<Seq<char>>,
)
    requires
        pairs.len() <= ids1.len(),
        pairs.len() <= ids2.len(),
        forall|k: int| 0 <= k < pairs.len() ==> ids1[k] == ids2[k],
    ensures
        apply_plan(s, f, size, pairs, ids1) == apply_plan(s, f, size, pairs, ids2),
    decreases pairs.len(),
{
    if pairs.len() > 0 {
        lemma_apply_plan_ids(s, f, size, pairs.drop_last(), ids1, ids2);
    }
}

/// `dispatch_files` reads only the first `fs.len()` id lists.
pub proof fn lemma_dispatch_files_ids(
    s: SpecAppState,
    fs: Seq<Seq<char>>,
    idss1: Seq<Seq<Seq<char>>>,
    idss2: Seq<Seq<Seq<char>>>,
)
    requires
        fs.len() <= idss1.len(),
        fs.len() <= idss2.len(),
        forall|k: int| 0 <= k < fs.len() ==> idss1[k] == idss2[k],
    ensures
        dispatch_files(s, fs, idss1) == dispatch_files(s, fs, idss2),
    decreases fs.len(),
{
    if fs.len() > 0 {
        lemma_dispatch_files_ids(s, fs.drop_last(), idss1, idss2);
    }
}

impl AppState {
    /// Pair the downloaders `w[k..]`, which wait for file `f`, with the relays
    /// of `pool`, making at most `budget` pairs.
    fn make_plan(&self, f: &String, w: &Vec<String>, k: usize, pool: Vec<String>, budget: usize) -> (r: (
        Vec<(String, String)>,
        Option<String>,
    ))
        requires
            wf(self@),
            k <= w.len(),
        ensures
            (pair_views(r.0@), opt_text(r.1)) == relay_plan(
                queue_items(self@, f@),
                texts(w@).skip(k as int),
                texts(pool@),
                budget as nat,
            ),
    {
        let ghost items = queue_items(self@, f@);
        let ghost total = relay_plan(items, texts(w@).skip(k as int), texts(pool@), budget as nat);
        let ghost pool0 = pool@;
        let mut rest_pool = pool;
        let mut pairs: Vec<(String, String)> = Vec::new();
        let mut used: usize = 0;
        let mut i: usize = k;
        assert(pair_views(pairs@) =~= Seq::<(Seq<char>, Seq<char>)>::empty());
        assert(pair_views(pairs@) + total.0 =~= total.0);
        loop
            invariant
                wf(self@),
                items == queue_items(self@, f@),
                total == relay_plan(items, texts(w@).skip(k as int), texts(pool0), budget as nat),
                pool0 == pool@,
                k <= i <= w.len(),
                used <= budget,
                total.0 == pair_views(pairs@) + relay_plan(
                    items,
                    texts(w@).skip(i as int),
                    texts(rest_pool@),
                    (budget - used) as nat,
                ).0,
                total.1 == relay_plan(
                    items,
                    texts(w@).skip(i as int),
                    texts(rest_pool@),
                    (budget - used) as nat,
                ).1,
            decreases w.len() - i,
        {
            if i >= w.len() || used >= budget {
                assert(texts(w@).skip(i as int).len() == 0 || budget - used == 0);
                assert(total.1 == None::<Seq<char>>);
                assert(total.0 =~= pair_views(pairs@));
                assert((pair_views(pairs@), opt_text(None)) == total);
                assert(total == relay_plan(queue_items(self@, f@), texts(w@).skip(k as int), texts(pool0), budget as nat));
                return (pairs, None);
            }
            let ghost ts = texts(w@).skip(i as int);
            let ghost t = ts[0];
            assert(t == w@[i as int]@);
            let failed = self.failed_relays_of(f, &w[i]);
            let ghost pos = last_usable(texts(rest_pool@), texts(failed@));
            proof {
                lemma_last_usable_range(texts(rest_pool@), texts(failed@));
            }
            match find_usable(&rest_pool, &failed) {
                None => {
                    assert(total.0 =~= pair_views(pairs@));
                    return (pairs, Some(w[i].clone()));
                },
                Some(p) => {
                    let ghost pv0 = texts(rest_pool@);
                    let ghost rest = relay_plan(items, ts.drop_first(), pv0.remove(pos), (budget - used - 1) as nat);
                    let ghost before = pairs@;
                    let r = rest_pool.remove(p);
                    assert(texts(rest_pool@) =~= pv0.remove(pos));
                    assert(ts.drop_first() =~= texts(w@).skip(i as int + 1));
                    let tt = w[i].clone();
                    pairs.push((tt, r));
                    assert(pair_views(pairs@) =~= pair_views(before).push((t, pv0[pos])));
                    assert(pair_views(before) + (seq![(t, pv0[pos])] + rest.0) =~= pair_views(pairs@) + rest.0);
                    used += 1;
                    i += 1;
                },
            }
        }
    }

    /// Carry out the pairs of `pairs` for file `f`, each over a fresh channel;
    /// the ids of the channels come back in order.
    fn apply_pairs(&mut self, f: &String, size: u64, pairs: &Vec<(String, String)>) -> (ids: Ghost<Seq<Seq<char>>>)
        requires
            wf(old(self)@),
        ensures
            ids@.len() == pairs.len(),
            forall|i: int| 0 <= i < ids@.len() ==> uuid_text(#[trigger] ids@[i]),
            final(self)@ == apply_plan(old(self)@, f@, size, pair_views(pairs@), ids@),
            wf(final(self)@),
    {
        let ghost s0 = self@;
        let ghost pv = pair_views(pairs@);
        let ghost mut used: Seq<Seq<char>> = Seq::empty();
        let mut j: usize = 0;
        assert(pv.take(0) =~= Seq::<(Seq<char>, Seq<char>)>::empty());
        while j < pairs.len()
            invariant
                wf(self@),
                pv == pair_views(pairs@),
                j <= pairs.len(),
                used.len() == j,
                forall|i: int| 0 <= i < used.len() ==> uuid_text(#[trigger] used[i]),
                self@ == apply_plan(s0, f@, size, pv.take(j as int), used),
            decreases pairs.len() - j,
        {
            let t = &pairs[j].0;
            let r = &pairs[j].1;
            let ghost before = self@;
            self.put_item_state(f, t, DownloadState::Downloading);
            self.put_relaying(r, true);
            let cid = new_id();
            let ghost cv = cid@;
            self.insert_channel(
                TransferChannel {
                    channel_id: cid.clone(),
                    file_id: f.clone(),
                    source: r.clone(),
                    target: t.clone(),
                    channel_type: ChannelType::Webrtc,
                },
            );
            self.broadcast(
                SseEvent::RelayAssign(
                    RelayAssignEvent {
                        file_id: f.clone(),
                        source_client_id: r.clone(),
                        target_client_id: t.clone(),
                        file_size: size,
                        channel_id: cid,
                    },
                ),
            );
            proof {
                let used2 = used.push(cv);
                assert(pv.take(j as int + 1).drop_last() =~= pv.take(j as int));
                assert(pv.take(j as int + 1)[j as int] == pv[j as int]);
                lemma_apply_plan_ids(s0, f@, size, pv.take(j as int), used, used2);
                assert(self@ == assign_relay(before, f@, size, pv[j as int].0, pv[j as int].1, cv));
                used = used2;
            }
            j += 1;
        }
        assert(pv.take(j as int) =~= pv);
        Ghost(used)
    }

    /// Tell each downloader still waiting for file `f` its place in the queue.
    fn announce_positions(&mut self, f: &String)
        requires
            wf(old(self)@),
        ensures
            final(self)@ == (SpecAppState {
                outbox: old(self)@.outbox + position_events(f@, queue_items(old(self)@, f@)),
                ..old(self)@
            }),
            wf(final(self)@),
    {
        let ghost s = self@;
        match find_queue(&self.queues, f) {
            None => {
                assert(queue_items(s, f@) =~= Seq::<SpecQueueItem>::empty());
                assert(self@ =~= SpecAppState {
                    outbox: s.outbox + position_events(f@, queue_items(s, f@)),
                    ..s
                });
            },
            Some(qi) => {
                proof {
                    lemma_key_index(s.queues, f@);
                    self.lemma_view_queues(qi as int);
                }
                let ghost items = queue_items(s, f@);
                let n = self.queues[qi].1.items.len();
                let mut j: usize = 0;
                let mut pos: usize = 0;
                assert(items.take(0) =~= Seq::<SpecQueueItem>::empty());
                assert(s.outbox + position_events(f@, items.take(0)) =~= s.outbox);
                assert(self@ =~= SpecAppState { outbox: s.outbox + position_events(f@, items.take(0)), ..s });
                while j < n
                    invariant
                        wf(self@),
                        qi < self.queues.len(),
                        n == self.queues@[qi as int].1.items.len(),
                        items == self.queues@[qi as int].1@,
                        j <= n,
                        pos == position_events(f@, items.take(j as int)).len(),
                        pos <= j,
                        self@ == (SpecAppState {
                            outbox: s.outbox + position_events(f@, items.take(j as int)),
                            ..s
                        }),
                    decreases n - j,
                {
                    let ghost it = items[j as int];
                    assert(items.take(j as int + 1).drop_last() =~= items.take(j as int));
                    assert(items.take(j as int + 1).last() == it);
                    let ghost prev = position_events(f@, items.take(j as int));
                    if self.queues[qi].1.items[j].state == DownloadState::Queued {
                        pos += 1;
                        let ev = ScheduleEvent {
                            file_id: f.clone(),
                            client_id: self.queues[qi].1.items[j].client_id.clone(),
                            state: DownloadState::Queued,
                            queue_position: Some(pos),
                        };
                        self.broadcast(SseEvent::ScheduleUpdate(ev));
                        assert(s.outbox + position_events(f@, items.take(j as int + 1)) =~= (s.outbox
                            + prev).push(SpecSseEvent::ScheduleUpdate(ev@)));
                        assert(self@ =~= SpecAppState {
                            outbox: s.outbox + position_events(f@, items.take(j as int + 1)),
                            ..s
                        });
                    }
                    j += 1;
                }
                assert(items.take(j as int) =~= items);
            },
        }
    }

    /// Dispatch file `file_id` (see `dispatch_file_spec`); the ids of the new
    /// channels come back in order.
    fn dispatch_file(&mut self, file_id: &String) -> (ids: Ghost<Seq<Seq<char>>>)
        requires
            wf(old(self)@),
        ensures
            final(self)@ == dispatch_file_spec(old(self)@, file_id@, ids@),
            forall|i: int| 0 <= i < ids@.len() ==> uuid_text(#[trigger] ids@[i]),
            wf(final(self)@),
    {
        let ghost s = self@;
        let fi = match find_file(&self.files, file_id) {
            Some(i) => i,
            None => {
                return Ghost(Seq::empty());
            },
        };
        let size = self.files[fi].size;
        let qi = match find_queue(&self.queues, file_id) {
            Some(q) => q,
            None => {
                return Ghost(Seq::empty());
            },
        };
        proof {
            lemma_key_index(s.files, file_id@);
            lemma_key_index(s.queues, file_id@);
            self.lemma_view_queues(qi as int);
        }
        let w = waiting_clients(&self.queues[qi].1.items);
        let ghost wv = texts(w@);
        assert(wv == waiting(queue_items(s, file_id@)));
        if w.len() == 0 {
            return Ghost(Seq::empty());
        }
        let http = !http_active(&self.channels, file_id);
        let ghost mut ids: Seq<Seq<char>> = Seq::empty();
        let mut k: usize = 0;
        if http {
            let target = &w[0];
            self.put_item_state(file_id, target, DownloadState::Downloading);
            let cid = new_id();
            let ghost cv = cid@;
            self.insert_channel(
                TransferChannel {
                    channel_id: cid,
                    file_id: file_id.clone(),
                    source: "server".to_owned(),
                    target: target.clone(),
                    channel_type: ChannelType::Http,
                },
            );
            self.broadcast(
                SseEvent::ScheduleUpdate(
                    ScheduleEvent {
                        file_id: file_id.clone(),
                        client_id: target.clone(),
                        state: DownloadState::Downloading,
                        queue_position: None,
                    },
                ),
            );
            proof {
                ids = seq![cv];
                assert(self@ == serve_over_http(s, file_id@, wv[0], ids[0]));
            }
            k = 1;
        }
        let ghost s1 = self@;
        assert(wv.skip(k as int).len() == w.len() - k);
        if k < w.len() {
            let active = count_webrtc(&self.channels);
            if active < MAX_CONCURRENT_WEBRTC {
                let slots = MAX_CONCURRENT_WEBRTC - active;
                let pool = available_relays(&self.clients, file_id);
                let (pairs, stuck) = self.make_plan(file_id, &w, k, pool, slots);
                let rids = self.apply_pairs(file_id, size, &pairs);
                proof {
                    let all = ids + rids@;
                    assert(all.skip(k as int) =~= rids@);
                    assert forall|i: int| 0 <= i < all.len() implies uuid_text(#[trigger] all[i]) by {
                        if i >= ids.len() {
                            assert(all[i] == rids@[i - ids.len()]);
                        }
                    }
                    ids = all;
                }
                match stuck {
                    Some(t) => {
                        self.reset_failed_relays(file_id, &t);
                    },
                    None => {},
                }
            }
        }
        self.announce_positions(file_id);
        Ghost(ids)
    }

    /// Dispatch every shared file, in the order the files are held (see
    /// `dispatch_file_spec`). The new channels take fresh random UUIDs as ids,
    /// of which nothing more is said.
    pub fn dispatch_all(&mut self)
        requires
            wf(old(self)@),
        ensures
            exists|idss: Seq<Seq<Seq<char>>>|
                final(self)@ == dispatch_all_spec(old(self)@, idss) && uuid_lists(idss),
            wf(final(self)@),
    {
        let ghost s = self@;
        let ghost fs = file_ids(s);
        let mut ids: Vec<String> = Vec::new();
        let mut i: usize = 0;
        while i < self.files.len()
            invariant
                self@ == s,
                fs == file_ids(s),
                i <= self.files.len(),
                texts(ids@) == fs.take(i as int),
            decreases self.files.len() - i,
        {
            let ghost before = ids@;
            let x = self.files[i].id.clone();
            ids.push(x);
            proof {
                lemma_texts_push(before, x);
                assert(fs.take(i as int + 1) =~= fs.take(i as int).push(x@));
            }
            i += 1;
        }
        assert(fs.take(i as int) =~= fs);
        let ghost mut idss: Seq<Seq<Seq<char>>> = Seq::empty();
        let mut j: usize = 0;
        assert(fs.take(0) =~= Seq::<Seq<char>>::empty());
        while j < ids.len()
            invariant
                wf(self@),
                texts(ids@) == fs,
                j <= ids.len(),
                idss.len() == j,
                uuid_lists(idss),
                self@ == dispatch_files(s, fs.take(j as int), idss),
            decreases ids.len() - j,
        {
            let g = self.dispatch_file(&ids[j]);
            proof {
                let idss2 = idss.push(g@);
                assert(fs.take(j as int + 1).drop_last() =~= fs.take(j as int));
                assert(fs.take(j as int + 1).last() == ids@[j as int]@);
                lemma_dispatch_files_ids(s, fs.take(j as int), idss, idss2);
                assert forall|a: int, b: int| 0 <= a < idss2.len() && 0 <= b < idss2[a].len() implies uuid_text(
                    #[trigger] idss2[a][b],
                ) by {
                    if a < idss.len() {
                        assert(idss2[a] == idss[a]);
                    }
                }
                idss = idss2;
            }
            j += 1;
        }
        assert(fs.take(j as int) =~= fs);
        assert(self@ == dispatch_all_spec(s, idss) && uuid_lists(idss));
    }
}

} // verus!

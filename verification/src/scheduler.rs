//! Requests, completions and failures reported by the downloaders, and
//! downloaders that leave; each ends by dispatching again.
use crate::dispatch::{dispatch_all_spec, pair_views, uuid_lists, waiting};
use crate::keyed::{
    has_key, lemma_key_index, lemma_remove_key, lemma_upsert, remove_key, unique_keys, upsert,
    Keyed,
};
use crate::state::{
    add_completed, add_failed_relay, drop_channels, find_client, find_queue, has_item, item_of,
    push_event, queue_items, set_item_state, set_relaying, wf, AppState, ChannelSel, SpecAppState,
    SpecChannelSel,
};
use crate::store::strip_client_items;
use crate::types::{
    texts, ChannelType, DownloadState, FileQueue, QueueItem, ScheduleEvent, SpecChannel, SpecQueue,
    SpecQueueItem, SpecScheduleEvent, SpecSseEvent, SseEvent,
};
use vstd::prelude::*;

verus! {

pub open spec fn update_event(f: Seq<char>, c: Seq<char>, st: DownloadState) -> SpecScheduleEvent {
    SpecScheduleEvent { file_id: f, client_id: c, state: st, queue_position: None }
}

/// Put downloader `c` at the end of the queue of file `f`, creating the queue
/// where there is none.
pub open spec fn enqueue(s: SpecAppState, f: Seq<char>, c: Seq<char>) -> SpecAppState {
    SpecAppState {
        queues: upsert(
            s.queues,
            SpecQueue {
                file_id: f,
                items: queue_items(s, f).push(
                    SpecQueueItem { client_id: c, state: DownloadState::Queued, failed_relays: Seq::empty() },
                ),
            },
        ),
        ..s
    }
}

/// The answer to a request of downloader `c` for file `f`: none where `f` is
/// not shared; the downloader's current state where it is already in the
/// queue; otherwise `Queued`.
pub open spec fn request_reply(s: SpecAppState, f: Seq<char>, c: Seq<char>) -> Option<SpecScheduleEvent> {
    if !has_key(s.files, f) {
        None
    } else if has_item(s, f, c) {
        Some(update_event(f, c, item_of(s, f, c).state))
    } else {
        Some(update_event(f, c, DownloadState::Queued))
    }
}

/// The state after downloader `c` requests file `f`: unchanged where `f` is not
/// shared or `c` is already in its queue; otherwise `c` joins the end of the
/// queue, this is announced, and every file is dispatched.
pub open spec fn spec_request_download(
    s: SpecAppState,
    f: Seq<char>,
    c: Seq<char>,
    idss: Seq<Seq<Seq<char>>>,
) -> SpecAppState {
    if !has_key(s.files, f) || has_item(s, f, c) {
        s
    } else {
        dispatch_all_spec(
            push_event(
                enqueue(s, f, c),
                SpecSseEvent::ScheduleUpdate(update_event(f, c, DownloadState::Queued)),
            ),
            idss,
        )
    }
}

/// Downloader `c` holds file `f` now: its item is completed, it becomes a
/// relay of `f`, this is announced, and the channels that brought it `f` close.
pub open spec fn complete_effect(s: SpecAppState, f: Seq<char>, c: Seq<char>) -> SpecAppState {
    drop_channels(
        push_event(
            add_completed(set_item_state(s, f, c, DownloadState::Completed), c, f),
            SpecSseEvent::ScheduleUpdate(update_event(f, c, DownloadState::Completed)),
        ),
        SpecChannelSel::ToTarget { file: f, target: c },
    )
}

pub open spec fn spec_mark_download_complete(
    s: SpecAppState,
    f: Seq<char>,
    c: Seq<char>,
    idss: Seq<Seq<Seq<char>>>,
) -> SpecAppState {
    dispatch_all_spec(complete_effect(s, f, c), idss)
}

/// Relay `src` finished sending file `f` to `tgt`: the relay is free again, its
/// channel closes, and it is announced as holding `f`.
pub open spec fn relay_done_effect(s: SpecAppState, f: Seq<char>, src: Seq<char>, tgt: Seq<char>) -> SpecAppState {
    push_event(
        drop_channels(
            set_relaying(s, src, false),
            SpecChannelSel::Pair { file: f, source: src, target: tgt },
        ),
        SpecSseEvent::ScheduleUpdate(update_event(f, src, DownloadState::Completed)),
    )
}

pub open spec fn spec_mark_relay_complete(
    s: SpecAppState,
    f: Seq<char>,
    src: Seq<char>,
    tgt: Seq<char>,
    idss: Seq<Seq<Seq<char>>>,
) -> SpecAppState {
    spec_mark_download_complete(relay_done_effect(s, f, src, tgt), f, tgt, idss)
}

/// The relay of the first WebRTC channel that brings file `f` to `c`, if any.
pub open spec fn relay_source_of(chs: Seq<SpecChannel>, f: Seq<char>, c: Seq<char>) -> Option<Seq<char>>
    decreases chs.len(),
{
    if chs.len() == 0 {
        None
    } else if chs[0].file_id == f && chs[0].target == c && chs[0].channel_type == ChannelType::Webrtc {
        Some(chs[0].source)
    } else {
        relay_source_of(chs.drop_first(), f, c)
    }
}

/// Whether a failure report of `c` for file `f` is handled: only while `c` is
/// downloading `f`.
pub open spec fn failure_applies(s: SpecAppState, f: Seq<char>, c: Seq<char>) -> bool {
    has_item(s, f, c) && item_of(s, f, c).state == DownloadState::Downloading
}

/// The transfer of file `f` to `c` failed. Unless `failure_applies`, nothing
/// changes. Otherwise the relay that was sending, if any, is free again, is
/// announced as holding `f`, and is recorded as failed for `c`; the channels
/// to `c` for `f` close; `c` is queued again and this is announced.
pub open spec fn spec_mark_transfer_failed(s: SpecAppState, f: Seq<char>, c: Seq<char>) -> SpecAppState {
    if !failure_applies(s, f, c) {
        s
    } else {
        let relay = relay_source_of(s.channels, f, c);
        let s1 = match relay {
            Some(r) => push_event(
                set_relaying(s, r, false),
                SpecSseEvent::ScheduleUpdate(update_event(f, r, DownloadState::Completed)),
            ),
            None => s,
        };
        let s2 = set_item_state(
            drop_channels(s1, SpecChannelSel::ToTarget { file: f, target: c }),
            f,
            c,
            DownloadState::Queued,
        );
        let s3 = match relay {
            Some(r) => add_failed_relay(s2, f, c, r),
            None => s2,
        };
        push_event(s3, SpecSseEvent::ScheduleUpdate(update_event(f, c, DownloadState::Queued)))
    }
}

/// (file, target) of each WebRTC channel that downloader `c` relays, in order.
pub open spec fn relayed_by(chs: Seq<SpecChannel>, c: Seq<char>) -> Seq<(Seq<char>, Seq<char>)>
    decreases chs.len(),
{
    if chs.len() == 0 {
        Seq::empty()
    } else {
        let r = relayed_by(chs.drop_last(), c);
        let ch = chs.last();
        if ch.source == c && ch.channel_type == ChannelType::Webrtc {
            r.push((ch.file_id, ch.target))
        } else {
            r
        }
    }
}

/// Queue each (file, target) of `ts` again.
pub open spec fn requeue(s: SpecAppState, ts: Seq<(Seq<char>, Seq<char>)>) -> SpecAppState
    decreases ts.len(),
{
    if ts.len() == 0 {
        s
    } else {
        set_item_state(requeue(s, ts.drop_last()), ts.last().0, ts.last().1, DownloadState::Queued)
    }
}

/// The relay of each WebRTC channel that brings a file to downloader `c`, in order.
pub open spec fn relays_to(chs: Seq<SpecChannel>, c: Seq<char>) -> Seq<Seq<char>>
    decreases chs.len(),
{
    if chs.len() == 0 {
        Seq::empty()
    } else {
        let r = relays_to(chs.drop_last(), c);
        let ch = chs.last();
        if ch.target == c && ch.channel_type == ChannelType::Webrtc {
            r.push(ch.source)
        } else {
            r
        }
    }
}

/// Mark each downloader of `rs` as no longer relaying.
pub open spec fn release(s: SpecAppState, rs: Seq<Seq<char>>) -> SpecAppState
    decreases rs.len(),
{
    if rs.len() == 0 {
        s
    } else {
        set_relaying(release(s, rs.drop_last()), rs.last(), false)
    }
}

/// Downloader `c` left: it leaves every queue, the downloaders it was relaying
/// to are queued again, the relays that were sending to it are free again,
/// every channel from or to it closes, and it is forgotten.
pub open spec fn disconnect_effect(s: SpecAppState, c: Seq<char>) -> SpecAppState {
    let s1 = requeue(strip_client_items(s, c), relayed_by(s.channels, c));
    let s2 = release(s1, relays_to(s.channels, c));
    let s3 = drop_channels(s2, SpecChannelSel::Touching { client: c });
    SpecAppState { clients: remove_key(s3.clients, c), ..s3 }
}

pub open spec fn spec_disconnect_client(s: SpecAppState, c: Seq<char>, idss: Seq<Seq<Seq<char>>>) -> SpecAppState {
    dispatch_all_spec(disconnect_effect(s, c), idss)
}

/// The relay of the first WebRTC channel that brings file `f` to `c`, if any.
fn find_relay_source(chs: &Vec<crate::types::TransferChannel>, f: &String, c: &String) -> (r: Option<String>)
    ensures
        crate::dispatch::opt_text(r) == relay_source_of(
            chs@.map_values(|ch: crate::types::TransferChannel| ch@),
            f@,
            c@,
        ),
{
    let ghost v = chs@.map_values(|ch: crate::types::TransferChannel| ch@);
    let mut i: usize = 0;
    assert(v.skip(0) =~= v);
    while i < chs.len()
        invariant
            v == chs@.map_values(|ch: crate::types::TransferChannel| ch@),
            i <= chs.len(),
            relay_source_of(v, f@, c@) == relay_source_of(v.skip(i as int), f@, c@),
        decreases chs.len() - i,
    {
        assert(v.skip(i as int).drop_first() =~= v.skip(i as int + 1));
        assert(v.skip(i as int)[0] == v[i as int]);
        if chs[i].file_id == *f && chs[i].target == *c && chs[i].channel_type == ChannelType::Webrtc {
            return Some(chs[i].source.clone());
        }
        i += 1;
    }
    assert(v.skip(i as int).len() == 0);
    None
}

/// (file, target) of each WebRTC channel that downloader `c` relays, in order.
fn relayed_pairs(chs: &Vec<crate::types::TransferChannel>, c: &String) -> (r: Vec<(String, String)>)
    ensures
        pair_views(r@) == relayed_by(chs@.map_values(|ch: crate::types::TransferChannel| ch@), c@),
{
    let ghost v = chs@.map_values(|ch: crate::types::TransferChannel| ch@);
    let mut r: Vec<(String, String)> = Vec::new();
    let mut i: usize = 0;
    assert(pair_views(r@) =~= relayed_by(v.take(0), c@));
    while i < chs.len()
        invariant
            v == chs@.map_values(|ch: crate::types::TransferChannel| ch@),
            i <= chs.len(),
            pair_views(r@) == relayed_by(v.take(i as int), c@),
        decreases chs.len() - i,
    {
        assert(v.take(i as int + 1).drop_last() =~= v.take(i as int));
        if chs[i].source == *c && chs[i].channel_type == ChannelType::Webrtc {
            let ghost before = r@;
            r.push((chs[i].file_id.clone(), chs[i].target.clone()));
            assert(pair_views(r@) =~= pair_views(before).push((v[i as int].file_id, v[i as int].target)));
        }
        i += 1;
    }
    assert(v.take(i as int) =~= v);
    r
}

/// The relay of each WebRTC channel that brings a file to downloader `c`, in order.
fn relays_into(chs: &Vec<crate::types::TransferChannel>, c: &String) -> (r: Vec<String>)
    ensures
        texts(r@) == relays_to(chs@.map_values(|ch: crate::types::TransferChannel| ch@), c@),
{
    let ghost v = chs@.map_values(|ch: crate::types::TransferChannel| ch@);
    let mut r: Vec<String> = Vec::new();
    let mut i: usize = 0;
    assert(texts(r@) =~= relays_to(v.take(0), c@));
    while i < chs.len()
        invariant
            v == chs@.map_values(|ch: crate::types::TransferChannel| ch@),
            i <= chs.len(),
            texts(r@) == relays_to(v.take(i as int), c@),
        decreases chs.len() - i,
    {
        assert(v.take(i as int + 1).drop_last() =~= v.take(i as int));
        if chs[i].target == *c && chs[i].channel_type == ChannelType::Webrtc {
            let ghost before = r@;
            r.push(chs[i].source.clone());
            assert(texts(r@) =~= texts(before).push(v[i as int].source));
        }
        i += 1;
    }
    assert(v.take(i as int) =~= v);
    r
}

impl AppState {
    /// Put downloader `c` at the end of the queue of file `f`.
    fn enqueue_client(&mut self, f: &String, c: &String)
        requires
            wf(old(self)@),
            has_key(old(self)@.files, f@),
            !has_item(old(self)@, f@, c@),
        ensures
            final(self)@ == enqueue(old(self)@, f@, c@),
            wf(final(self)@),
    {
        let ghost s = self@;
        let item = QueueItem { client_id: c.clone(), state: DownloadState::Queued, failed_relays: Vec::new() };
        let ghost itv = item@;
        assert(itv == SpecQueueItem { client_id: c@, state: DownloadState::Queued, failed_relays: Seq::empty() }) by {
            assert(texts(item.failed_relays@) =~= Seq::<Seq<char>>::empty());
        }
        let ghost nq = SpecQueue { file_id: f@, items: queue_items(s, f@).push(itv) };
        proof {
            lemma_upsert(s.queues, nq);
            lemma_key_index(s.queues, f@);
        }
        match find_queue(&self.queues, f) {
            Some(qi) => {
                proof {
                    self.lemma_view_queues(qi as int);
                }
                self.queues[qi].1.items.push(item);
                proof {
                    self.lemma_view_queues(qi as int);
                    assert(self.queues@[qi as int].1@ =~= nq.items);
                    assert(self@.queues =~= upsert(s.queues, nq));
                }
            },
            None => {
                let mut q = FileQueue::new();
                q.items.push(item);
                assert(q@ =~= nq.items);
                self.queues.push((f.clone(), q));
                proof {
                    assert(self@.queues =~= upsert(s.queues, nq));
                }
            },
        }
        proof {
            let t = enqueue(s, f@, c@);
            assert(self@ =~= t);
            let items = queue_items(s, f@);
            assert(!has_key(items, c@));
            assert(unique_keys(nq.items)) by {
                if has_key(s.queues, f@) {
                    assert(unique_keys(s.queues[crate::keyed::key_index(s.queues, f@)].items));
                }
                assert forall|i: int, j: int|
                    0 <= i < nq.items.len() && 0 <= j < nq.items.len() && i != j implies #[trigger] nq.items[i].key()
                    != #[trigger] nq.items[j].key() by {
                    if i == items.len() {
                        assert(items[j].key() == nq.items[j].key());
                    } else if j == items.len() {
                        assert(items[i].key() == nq.items[i].key());
                    } else {
                        assert(items[i] == nq.items[i] && items[j] == nq.items[j]);
                    }
                }
            }
            assert forall|i: int| 0 <= i < t.queues.len() implies has_key(t.files, (#[trigger] t.queues[i]).file_id) by {
                let k = t.queues[i].file_id;
                assert(t.queues[i].key() == k);
                assert(has_key(t.queues, k));
                if k != f@ {
                    assert(has_key(s.queues, k));
                    let j = choose|j: int| 0 <= j < s.queues.len() && #[trigger] s.queues[j].key() == k;
                    assert(has_key(s.files, s.queues[j].file_id));
                }
            }
            assert forall|i: int| 0 <= i < t.queues.len() implies unique_keys(#[trigger] t.queues[i].items) by {
                if t.queues[i].file_id != f@ {
                    crate::keyed::lemma_unique_index(t.queues, i);
                    assert(crate::keyed::lookup(t.queues, t.queues[i].file_id) == crate::keyed::lookup(s.queues, t.queues[i].file_id));
                    crate::keyed::lemma_key_index(s.queues, t.queues[i].file_id);
                } else {
                    crate::keyed::lemma_unique_index(t.queues, i);
                }
            }
        }
    }

    /// Downloader `client_id` asks for file `file_id`. Where the file is not
    /// shared the answer is `None` and nothing changes; where the downloader
    /// is already in the file's queue the answer is its current state and
    /// nothing changes. Otherwise it joins the end of the queue, this is
    /// announced, every file is dispatched, and the answer is `Queued` (what
    /// it was queued as, whatever the dispatch then did).
    pub fn request_download(&mut self, file_id: &str, client_id: &str) -> (r: Option<ScheduleEvent>)
        requires
            wf(old(self)@),
        ensures
            match r {
                Some(e) => request_reply(old(self)@, file_id@, client_id@) == Some(e@),
                None => request_reply(old(self)@, file_id@, client_id@) is None,
            },
            exists|idss: Seq<Seq<Seq<char>>>|
                final(self)@ == spec_request_download(old(self)@, file_id@, client_id@, idss) && uuid_lists(idss),
            wf(final(self)@),
    {
        let ghost s = self@;
        let f = file_id.to_owned();
        let c = client_id.to_owned();
        match crate::state::find_file(&self.files, &f) {
            None => {
                assert(self@ == spec_request_download(s, f@, c@, Seq::empty()));
                assert(uuid_lists(Seq::<Seq<Seq<char>>>::empty()));
                return None;
            },
            Some(_) => {},
        }
        match self.locate_item(&f, &c) {
            Some((qi, ii)) => {
                proof {
                    crate::keyed::lemma_key_index(s.queues, f@);
                    self.lemma_view_queues(qi as int);
                }
                let st = self.queues[qi].1.items[ii].state;
                assert(self@ == spec_request_download(s, f@, c@, Seq::empty()));
                assert(uuid_lists(Seq::<Seq<Seq<char>>>::empty()));
                return Some(ScheduleEvent { file_id: f, client_id: c, state: st, queue_position: None });
            },
            None => {},
        }
        self.enqueue_client(&f, &c);
        let event = ScheduleEvent {
            file_id: f.clone(),
            client_id: c.clone(),
            state: DownloadState::Queued,
            queue_position: None,
        };
        self.broadcast(SseEvent::ScheduleUpdate(event.duplicate()));
        let ghost s2 = self@;
        self.dispatch_all();
        proof {
            let idss = choose|idss: Seq<Seq<Seq<char>>>| self@ == dispatch_all_spec(s2, idss) && uuid_lists(idss);
            assert(self@ == spec_request_download(s, f@, c@, idss));
        }
        Some(event)
    }

    fn complete(&mut self, f: &String, c: &String)
        requires
            wf(old(self)@),
        ensures
            final(self)@ == complete_effect(old(self)@, f@, c@),
            wf(final(self)@),
    {
        self.put_item_state(f, c, DownloadState::Completed);
        self.put_completed(c, f);
        self.broadcast(
            SseEvent::ScheduleUpdate(
                ScheduleEvent {
                    file_id: f.clone(),
                    client_id: c.clone(),
                    state: DownloadState::Completed,
                    queue_position: None,
                },
            ),
        );
        self.close_channels(&ChannelSel::ToTarget { file: f.clone(), target: c.clone() });
    }

    /// Downloader `client_id` finished downloading file `file_id` (from the
    /// share side or from a relay): its item is completed, it can relay the
    /// file from now on, this is announced, the channels that brought it the
    /// file close, and every file is dispatched.
    pub fn mark_download_complete(&mut self, file_id: &str, client_id: &str)
        requires
            wf(old(self)@),
        ensures
            exists|idss: Seq<Seq<Seq<char>>>|
                final(self)@ == spec_mark_download_complete(old(self)@, file_id@, client_id@, idss) && uuid_lists(idss),
            wf(final(self)@),
    {
        let ghost s = self@;
        let f = file_id.to_owned();
        let c = client_id.to_owned();
        self.complete(&f, &c);
        let ghost s2 = self@;
        self.dispatch_all();
        proof {
            let idss = choose|idss: Seq<Seq<Seq<char>>>| self@ == dispatch_all_spec(s2, idss) && uuid_lists(idss);
            assert(self@ == spec_mark_download_complete(s, f@, c@, idss));
        }
    }

    /// Relay `source_client_id` finished sending file `file_id` to
    /// `target_client_id`: the relay is free again, its channel closes, the
    /// relay is announced as holding the file, and then the target completes
    /// as in `mark_download_complete`.
    pub fn mark_relay_complete(&mut self, file_id: &str, source_client_id: &str, target_client_id: &str)
        requires
            wf(old(self)@),
        ensures
            exists|idss: Seq<Seq<Seq<char>>>|
                final(self)@ == spec_mark_relay_complete(
                    old(self)@,
                    file_id@,
                    source_client_id@,
                    target_client_id@,
                    idss,
                ) && uuid_lists(idss),
            wf(final(self)@),
    {
        let ghost s = self@;
        let f = file_id.to_owned();
        let src = source_client_id.to_owned();
        let tgt = target_client_id.to_owned();
        self.put_relaying(&src, false);
        self.close_channels(&ChannelSel::Pair { file: f.clone(), source: src.clone(), target: tgt.clone() });
        self.broadcast(
            SseEvent::ScheduleUpdate(
                ScheduleEvent {
                    file_id: f.clone(),
                    client_id: src.clone(),
                    state: DownloadState::Completed,
                    queue_position: None,
                },
            ),
        );
        let ghost s1 = self@;
        assert(s1 == relay_done_effect(s, f@, src@, tgt@));
        self.mark_download_complete(file_id, target_client_id);
        proof {
            let idss = choose|idss: Seq<Seq<Seq<char>>>|
                self@ == spec_mark_download_complete(s1, f@, tgt@, idss) && uuid_lists(idss);
            assert(self@ == spec_mark_relay_complete(s, f@, src@, tgt@, idss));
        }
    }

    /// The transfer of file `file_id` to downloader `client_id` failed. The
    /// report is handled only while the downloader is downloading the file
    /// (the sender and the receiver may both report one failure); otherwise
    /// nothing changes and `false` comes back. When handled: the relay that was
    /// sending, if any, is free again, is announced as holding the file and is
    /// recorded as failed for this downloader; the channels that brought it the
    /// file close; the downloader is queued again and this is announced; and
    /// `true` comes back: the caller dispatches again after a pause, so that a
    /// failed transfer is not retried at once.
    pub fn mark_transfer_failed(&mut self, file_id: &str, client_id: &str) -> (retry: bool)
        requires
            wf(old(self)@),
        ensures
            retry == failure_applies(old(self)@, file_id@, client_id@),
            final(self)@ == spec_mark_transfer_failed(old(self)@, file_id@, client_id@),
            wf(final(self)@),
    {
        let ghost s = self@;
        let f = file_id.to_owned();
        let c = client_id.to_owned();
        let applies = match self.locate_item(&f, &c) {
            Some((qi, ii)) => {
                proof {
                    crate::keyed::lemma_key_index(s.queues, f@);
                    self.lemma_view_queues(qi as int);
                }
                self.queues[qi].1.items[ii].state == DownloadState::Downloading
            },
            None => false,
        };
        if !applies {
            return false;
        }
        let relay = find_relay_source(&self.channels, &f, &c);
        match &relay {
            Some(r) => {
                self.put_relaying(r, false);
                self.broadcast(
                    SseEvent::ScheduleUpdate(
                        ScheduleEvent {
                            file_id: f.clone(),
                            client_id: r.clone(),
                            state: DownloadState::Completed,
                            queue_position: None,
                        },
                    ),
                );
            },
            None => {},
        }
        self.close_channels(&ChannelSel::ToTarget { file: f.clone(), target: c.clone() });
        self.put_item_state(&f, &c, DownloadState::Queued);
        match &relay {
            Some(r) => {
                self.put_failed_relay(&f, &c, r);
            },
            None => {},
        }
        self.broadcast(
            SseEvent::ScheduleUpdate(
                ScheduleEvent {
                    file_id: f,
                    client_id: c,
                    state: DownloadState::Queued,
                    queue_position: None,
                },
            ),
        );
        true
    }

    /// Downloader `client_id` left: it leaves every queue; the downloaders it
    /// was relaying to are queued again; the relays that were sending to it
    /// are free again; every channel from or to it closes; it is forgotten;
    /// and every file is dispatched.
    pub fn disconnect_client(&mut self, client_id: &str)
        requires
            wf(old(self)@),
        ensures
            exists|idss: Seq<Seq<Seq<char>>>|
                final(self)@ == spec_disconnect_client(old(self)@, client_id@, idss) && uuid_lists(idss),
            wf(final(self)@),
    {
        let ghost s = self@;
        let c = client_id.to_owned();
        self.strip_client(&c);
        let ghost s1 = self@;
        let targets = relayed_pairs(&self.channels, &c);
        let ghost tv = pair_views(targets@);
        assert(tv == relayed_by(s.channels, c@));
        let mut j: usize = 0;
        assert(tv.take(0) =~= Seq::<(Seq<char>, Seq<char>)>::empty());
        while j < targets.len()
            invariant
                wf(self@),
                tv == pair_views(targets@),
                j <= targets.len(),
                self@ == requeue(s1, tv.take(j as int)),
            decreases targets.len() - j,
        {
            assert(tv.take(j as int + 1).drop_last() =~= tv.take(j as int));
            assert(tv.take(j as int + 1).last() == tv[j as int]);
            self.put_item_state(&targets[j].0, &targets[j].1, DownloadState::Queued);
            j += 1;
        }
        assert(tv.take(j as int) =~= tv);
        let ghost s1b = self@;
        proof {
            crate::laws::lemma_requeue(s1, tv);
        }
        let relays = relays_into(&self.channels, &c);
        let ghost rv = texts(relays@);
        assert(rv == relays_to(s.channels, c@));
        let mut k: usize = 0;
        assert(rv.take(0) =~= Seq::<Seq<char>>::empty());
        while k < relays.len()
            invariant
                wf(self@),
                rv == texts(relays@),
                k <= relays.len(),
                self@ == release(s1b, rv.take(k as int)),
            decreases relays.len() - k,
        {
            assert(rv.take(k as int + 1).drop_last() =~= rv.take(k as int));
            assert(rv.take(k as int + 1).last() == relays@[k as int]@);
            self.put_relaying(&relays[k], false);
            k += 1;
        }
        assert(rv.take(k as int) =~= rv);
        self.close_channels(&ChannelSel::Touching { client: c.clone() });
        let ghost s2 = self@;
        proof {
            lemma_key_index(s2.clients, c@);
            lemma_remove_key(s2.clients, c@);
        }
        match find_client(&self.clients, &c) {
            Some(i) => {
                self.clients.remove(i);
            },
            None => {},
        }
        assert(self@.clients =~= remove_key(s2.clients, c@));
        assert(self@ =~= disconnect_effect(s, c@));
        let ghost s3 = self@;
        self.dispatch_all();
        proof {
            let idss = choose|idss: Seq<Seq<Seq<char>>>| self@ == dispatch_all_spec(s3, idss) && uuid_lists(idss);
            assert(self@ == spec_disconnect_client(s, c@, idss));
        }
    }
}

/// The schedule of each downloader in the queue `items` of file `f`, in queue
/// order: its state and, for a waiting one, its place among the waiting ones,
/// counted from 1.
pub open spec fn queue_schedule(f: Seq<char>, items: Seq<SpecQueueItem>) -> Seq<SpecScheduleEvent>
    decreases items.len(),
{
    if items.len() == 0 {
        Seq::empty()
    } else {
        let it = items.last();
        queue_schedule(f, items.drop_last()).push(
            SpecScheduleEvent {
                file_id: f,
                client_id: it.client_id,
                state: it.state,
                queue_position: if it.state == DownloadState::Queued {
                    Some((waiting(items.drop_last()).len() + 1) as usize)
                } else {
                    None
                },
            },
        )
    }
}

/// The schedule of every downloader in every queue, queue after queue.
pub open spec fn schedules(queues: Seq<SpecQueue>) -> Seq<SpecScheduleEvent>
    decreases queues.len(),
{
    if queues.len() == 0 {
        Seq::empty()
    } else {
        schedules(queues.drop_last()) + queue_schedule(queues.last().file_id, queues.last().items)
    }
}

impl AppState {
    /// The schedule of every downloader in every queue (see `schedules`), as
    /// sent to a downloader that connects.
    pub fn list_schedules(&self) -> (r: Vec<ScheduleEvent>)
        ensures
            r@.map_values(|e: ScheduleEvent| e@) == schedules(self@.queues),
    {
        let ghost qs = self@.queues;
        let mut r: Vec<ScheduleEvent> = Vec::new();
        let mut i: usize = 0;
        assert(r@.map_values(|e: ScheduleEvent| e@) =~= schedules(qs.take(0)));
        while i < self.queues.len()
            invariant
                qs == self@.queues,
                i <= self.queues.len(),
                r@.map_values(|e: ScheduleEvent| e@) == schedules(qs.take(i as int)),
            decreases self.queues.len() - i,
        {
            proof {
                self.lemma_view_queues(i as int);
            }
            let f = &self.queues[i].0;
            let items = &self.queues[i].1.items;
            let ghost iv = qs[i as int].items;
            let ghost base = r@.map_values(|e: ScheduleEvent| e@);
            let mut j: usize = 0;
            let mut pos: usize = 0;
            assert(base + queue_schedule(f@, iv.take(0)) =~= base);
            while j < items.len()
                invariant
                    iv == items@.map_values(|it: QueueItem| it@),
                    j <= items.len(),
                    pos == waiting(iv.take(j as int)).len(),
                    pos <= j,
                    r@.map_values(|e: ScheduleEvent| e@) == base + queue_schedule(f@, iv.take(j as int)),
                decreases items.len() - j,
            {
                let ghost pre = iv.take(j as int);
                assert(iv.take(j as int + 1).drop_last() =~= pre);
                assert(iv.take(j as int + 1).last() == iv[j as int]);
                let ghost before = r@;
                let st = items[j].state;
                let qp = if st == DownloadState::Queued {
                    pos += 1;
                    Some(pos)
                } else {
                    None
                };
                let ev = ScheduleEvent {
                    file_id: f.clone(),
                    client_id: items[j].client_id.clone(),
                    state: st,
                    queue_position: qp,
                };
                r.push(ev);
                assert(r@.map_values(|e: ScheduleEvent| e@) =~= before.map_values(|e: ScheduleEvent| e@).push(ev@));
                assert(base + queue_schedule(f@, iv.take(j as int + 1)) =~= (base + queue_schedule(f@, pre)).push(ev@));
                j += 1;
            }
            assert(iv.take(j as int) =~= iv);
            assert(qs.take(i as int + 1).drop_last() =~= qs.take(i as int));
            assert(qs.take(i as int + 1).last() == qs[i as int]);
            i += 1;
        }
        assert(qs.take(i as int) =~= qs);
        r
    }
}

} // verus!

//! Properties of the service that span operations.
use crate::dispatch::{
    apply_plan, dispatch_all_spec, dispatch_file_spec, dispatch_files, failed_of, file_ids,
    last_usable, lemma_last_usable_range, position_events, relay_plan, relay_pool, waiting,
    webrtc_count,
};
use crate::frame::{
    client_ids, lemma_dispatch_file_evolves, lemma_dispatch_files_evolves, lemma_evolves_client,
    lemma_evolves_members,
    lemma_evolves_item, lemma_evolves_wf,
};
use crate::keyed::{
    has_key, key_index, lemma_key_index, lemma_remove_key, lemma_upsert, lookup, remove_key,
    unique_keys, upsert, Keyed,
};
use crate::scheduler::{
    complete_effect, disconnect_effect, enqueue, failure_applies, relay_done_effect,
    relay_source_of, relayed_by, relays_to, release, request_reply, requeue, spec_disconnect_client,
    spec_mark_download_complete, spec_mark_transfer_failed, spec_request_download, update_event,
};
use crate::state::{
    add_completed, drop_channels, has_item, item_of, lemma_add_completed, lemma_drop_channels,
    push_event, queue_items, set_item_state, wf, SpecAppState, SpecChannelSel,
};
use crate::store::{
    other_client, spec_add_file, spec_register_client, spec_remove_file, strip_client_items,
};
use crate::types::{
    ChannelType, DownloadState, SpecChannel, SpecClient, SpecFileInfo, SpecQueue, SpecQueueItem,
    SpecScheduleEvent, SpecSseEvent,
};
use vstd::prelude::*;

verus! {

/// A shared file can be read back under its id, and sharing it leaves every
/// other file as it was.
pub proof fn law_get_after_add(s: SpecAppState, file: SpecFileInfo, other: Seq<char>)
    requires
        wf(s),
        other != file.id,
    ensures
        lookup(spec_add_file(s, file).files, file.id) == Some(file),
        lookup(spec_add_file(s, file).files, other) == lookup(s.files, other),
        spec_add_file(s, file).outbox == s.outbox.push(SpecSseEvent::FileAdded(file)),
{
    lemma_upsert(s.files, file);
}

/// A removed file is gone, with its queue, and every other file stays; a
/// removal is announced exactly when the file was shared.
pub proof fn law_remove_file(s: SpecAppState, id: Seq<char>, other: Seq<char>)
    requires
        wf(s),
        other != id,
    ensures
        lookup(spec_remove_file(s, id).files, id) is None,
        lookup(spec_remove_file(s, id).queues, id) is None,
        lookup(spec_remove_file(s, id).files, other) == lookup(s.files, other),
        has_key(s.files, id) ==> spec_remove_file(s, id).outbox == s.outbox.push(
            SpecSseEvent::FileRemoved(id),
        ),
        !has_key(s.files, id) ==> spec_remove_file(s, id) == s,
{
    lemma_remove_key(s.files, id);
    lemma_remove_key(s.queues, id);
}

/// A newly connected downloader holds no file and relays nothing.
pub proof fn law_register_client(s: SpecAppState, id: Seq<char>)
    requires
        wf(s),
    ensures
        lookup(spec_register_client(s, id).clients, id) matches Some(c) && c.completed_files.len()
            == 0 && !c.is_relaying,
{
    lemma_upsert(s.clients, crate::types::SpecClient { id, completed_files: Seq::empty(), is_relaying: false });
}

/// A request for a file that is not shared is refused and changes nothing.
pub proof fn law_request_unknown_file(
    s: SpecAppState,
    f: Seq<char>,
    c: Seq<char>,
    idss: Seq<Seq<Seq<char>>>,
)
    requires
        !has_key(s.files, f),
    ensures
        request_reply(s, f, c) is None,
        spec_request_download(s, f, c, idss) == s,
{
}

/// Asking again for a file one is already queued for changes nothing and
/// answers with one's current state.
pub proof fn law_request_again(s: SpecAppState, f: Seq<char>, c: Seq<char>, idss: Seq<Seq<Seq<char>>>)
    requires
        has_key(s.files, f),
        has_item(s, f, c),
    ensures
        spec_request_download(s, f, c, idss) == s,
        request_reply(s, f, c) == Some(update_event(f, c, item_of(s, f, c).state)),
{
}

/// A failure report for a downloader that is not downloading the file changes
/// nothing (so a failure reported by both ends is handled once).
pub proof fn law_failure_ignored(s: SpecAppState, f: Seq<char>, c: Seq<char>)
    requires
        !failure_applies(s, f, c),
    ensures
        spec_mark_transfer_failed(s, f, c) == s,
{
}

/// A dispatch changes no shared file and no downloader's id or held files,
/// frees no relay, keeps every queue's members in their order, leaves every
/// item that is not waiting exactly as it was, moves a waiting item at most to
/// downloading, and only appends events.
pub proof fn law_dispatch_frame(s: SpecAppState, idss: Seq<Seq<Seq<char>>>, f: Seq<char>, c: Seq<char>)
    requires
        wf(s),
    ensures
        wf(dispatch_all_spec(s, idss)),
        dispatch_all_spec(s, idss).files == s.files,
        has_item(dispatch_all_spec(s, idss), f, c) == has_item(s, f, c),
        has_item(s, f, c) && item_of(s, f, c).state != DownloadState::Queued ==> item_of(
            dispatch_all_spec(s, idss),
            f,
            c,
        ) == item_of(s, f, c),
        has_item(s, f, c) && item_of(s, f, c).state == DownloadState::Queued ==> (item_of(
            dispatch_all_spec(s, idss),
            f,
            c,
        ).state == DownloadState::Queued || item_of(dispatch_all_spec(s, idss), f, c).state
            == DownloadState::Downloading),
        has_key(dispatch_all_spec(s, idss).clients, c) == has_key(s.clients, c),
        has_key(s.clients, c) ==> (lookup(dispatch_all_spec(s, idss).clients, c) matches Some(x) && lookup(s.clients, c)
            matches Some(y) && x.completed_files == y.completed_files && (y.is_relaying ==> x.is_relaying)),
        s.outbox.len() <= dispatch_all_spec(s, idss).outbox.len(),
        dispatch_all_spec(s, idss).outbox.take(s.outbox.len() as int) == s.outbox,
        forall|g: Seq<char>| #[trigger] client_ids(queue_items(dispatch_all_spec(s, idss), g)) == client_ids(queue_items(s, g)),
{
    lemma_dispatch_files_evolves(s, file_ids(s), idss);
    let t = dispatch_all_spec(s, idss);
    lemma_evolves_item(s, t, f, c);
    lemma_evolves_client(s, t, c);
    assert forall|g: Seq<char>| #[trigger] client_ids(queue_items(t, g)) == client_ids(queue_items(s, g)) by {
        lemma_evolves_members(s, t, g);
    }
}

/// Each file has a queue of its own: dispatching one file leaves the queue of
/// every other file as it was.
pub proof fn law_queues_independent(s: SpecAppState, f: Seq<char>, ids: Seq<Seq<char>>, g: Seq<char>)
    requires
        wf(s),
        g != f,
    ensures
        queue_items(dispatch_file_spec(s, f, ids), g) == queue_items(s, g),
{
    lemma_dispatch_file_evolves(s, f, ids);
    let t = dispatch_file_spec(s, f, ids);
    lemma_evolves_wf(s, t);
    if has_key(s.queues, g) {
        lemma_key_index(s.queues, g);
        let i = key_index(s.queues, g);
        assert(t.queues[i] == s.queues[i]);
    }
}

/// Queueing a downloader for a shared file appends its item to that file's
/// queue, leaves the other queues as they were and keeps the state well formed.
pub proof fn lemma_enqueue(s: SpecAppState, f: Seq<char>, c: Seq<char>)
    requires
        wf(s),
        has_key(s.files, f),
        !has_item(s, f, c),
    ensures
        wf(enqueue(s, f, c)),
        queue_items(enqueue(s, f, c), f) == queue_items(s, f).push(
            SpecQueueItem { client_id: c, state: DownloadState::Queued, failed_relays: Seq::empty() },
        ),
        forall|g: Seq<char>| g != f ==> #[trigger] queue_items(enqueue(s, f, c), g) == queue_items(s, g),
        has_item(enqueue(s, f, c), f, c),
{
    let e = enqueue(s, f, c);
    let it = SpecQueueItem { client_id: c, state: DownloadState::Queued, failed_relays: Seq::empty() };
    let nq = SpecQueue { file_id: f, items: queue_items(s, f).push(it) };
    lemma_upsert(s.queues, nq);
    lemma_key_index(s.queues, f);
    assert(lookup(e.queues, f) == Some(nq));
    assert(queue_items(e, f) == nq.items);
    lemma_key_index(e.queues, f);
    assert(nq.items[queue_items(s, f).len() as int].key() == c);
    crate::keyed::lemma_key_index(nq.items, c);
    // the enqueued state is well formed
    assert(wf(e)) by {
        assert forall|i: int| 0 <= i < e.queues.len() implies unique_keys(#[trigger] e.queues[i].items) by {
            let k = e.queues[i].file_id;
            crate::keyed::lemma_unique_index(e.queues, i);
            if k != f {
                crate::keyed::lemma_key_index(s.queues, k);
                assert(unique_keys(s.queues[key_index(s.queues, k)].items));
            } else {
                let items = queue_items(s, f);
                if has_key(s.queues, f) {
                    assert(unique_keys(s.queues[key_index(s.queues, f)].items));
                }
                assert forall|a: int, b: int|
                    0 <= a < nq.items.len() && 0 <= b < nq.items.len() && a != b implies #[trigger] nq.items[a].key()
                    != #[trigger] nq.items[b].key() by {
                    if a == items.len() {
                        assert(items[b].key() == nq.items[b].key());
                    } else if b == items.len() {
                        assert(items[a].key() == nq.items[a].key());
                    } else {
                        assert(items[a] == nq.items[a] && items[b] == nq.items[b]);
                    }
                }
            }
        }
        assert forall|i: int| 0 <= i < e.queues.len() implies has_key(e.files, (#[trigger] e.queues[i]).file_id) by {
            let k = e.queues[i].file_id;
            assert(e.queues[i].key() == k);
            assert(has_key(e.queues, k));
            if k != f {
                assert(has_key(s.queues, k));
                let j = choose|j: int| 0 <= j < s.queues.len() && #[trigger] s.queues[j].key() == k;
                assert(has_key(s.files, s.queues[j].file_id));
            }
        }
    }
    assert(has_item(e, f, c));
    assert forall|g: Seq<char>| g != f implies #[trigger] queue_items(e, g) == queue_items(s, g) by {
        assert(lookup(e.queues, g) == lookup(s.queues, g));
    }
}

/// A request for a shared file leaves the downloader in that file's queue,
/// waiting or already downloading.
pub proof fn law_request_enqueues(s: SpecAppState, f: Seq<char>, c: Seq<char>, idss: Seq<Seq<Seq<char>>>)
    requires
        wf(s),
        has_key(s.files, f),
        !has_item(s, f, c),
    ensures
        has_item(spec_request_download(s, f, c, idss), f, c),
        item_of(spec_request_download(s, f, c, idss), f, c).state == DownloadState::Queued || item_of(
            spec_request_download(s, f, c, idss),
            f,
            c,
        ).state == DownloadState::Downloading,
{
    let e = enqueue(s, f, c);
    let it = SpecQueueItem { client_id: c, state: DownloadState::Queued, failed_relays: Seq::empty() };
    lemma_enqueue(s, f, c);
    let items = queue_items(e, f);
    lemma_key_index(items, c);
    assert(items[queue_items(s, f).len() as int].key() == c);
    crate::keyed::lemma_unique_index(items, queue_items(s, f).len() as int);
    assert(item_of(e, f, c) == it);
    let p = push_event(e, SpecSseEvent::ScheduleUpdate(update_event(f, c, DownloadState::Queued)));
    law_dispatch_frame(p, idss, f, c);
}

/// A request for a shared file from a downloader not yet in its queue puts the
/// downloader at the end of that queue, behind the others in their old order,
/// also after the dispatch that follows; every other queue keeps its
/// downloaders in their order; the answer is `Queued`; and the first new event
/// announces the downloader as queued.
pub proof fn law_request_appends(
    s: SpecAppState,
    f: Seq<char>,
    c: Seq<char>,
    idss: Seq<Seq<Seq<char>>>,
    g: Seq<char>,
)
    requires
        wf(s),
        has_key(s.files, f),
        !has_item(s, f, c),
    ensures
        request_reply(s, f, c) == Some(update_event(f, c, DownloadState::Queued)),
        client_ids(queue_items(spec_request_download(s, f, c, idss), f)) == client_ids(queue_items(s, f)).push(c),
        g != f ==> client_ids(queue_items(spec_request_download(s, f, c, idss), g)) == client_ids(queue_items(s, g)),
        spec_request_download(s, f, c, idss).outbox.len() > s.outbox.len(),
        spec_request_download(s, f, c, idss).outbox[s.outbox.len() as int] == SpecSseEvent::ScheduleUpdate(
            update_event(f, c, DownloadState::Queued),
        ),
{
    let e = enqueue(s, f, c);
    let it = SpecQueueItem { client_id: c, state: DownloadState::Queued, failed_relays: Seq::empty() };
    lemma_enqueue(s, f, c);
    let ev = SpecSseEvent::ScheduleUpdate(update_event(f, c, DownloadState::Queued));
    let p = push_event(e, ev);
    assert(wf(p));
    law_dispatch_frame(p, idss, f, c);
    let r = spec_request_download(s, f, c, idss);
    assert(r == dispatch_all_spec(p, idss));
    assert(client_ids(queue_items(p, f)) == client_ids(queue_items(s, f).push(it)));
    assert(client_ids(queue_items(s, f).push(it)) =~= client_ids(queue_items(s, f)).push(c));
    if g != f {
        assert(queue_items(p, g) == queue_items(s, g));
    }
    assert(r.outbox.take(p.outbox.len() as int) == p.outbox);
    assert(r.outbox[s.outbox.len() as int] == r.outbox.take(p.outbox.len() as int)[s.outbox.len() as int]);
}

/// A downloader that completes a file keeps it as completed, and, where it is
/// connected, holds the file and can relay it from then on; the dispatch that
/// follows does not undo either.
pub proof fn law_complete_registers_relay(s: SpecAppState, f: Seq<char>, c: Seq<char>, idss: Seq<Seq<Seq<char>>>)
    requires
        wf(s),
    ensures
        has_item(s, f, c) ==> item_of(spec_mark_download_complete(s, f, c, idss), f, c).state == DownloadState::Completed,
        has_key(s.clients, c) ==> (lookup(spec_mark_download_complete(s, f, c, idss).clients, c) matches Some(x)
            && x.completed_files.contains(f)),
{
    let m1 = set_item_state(s, f, c, DownloadState::Completed);
    crate::state::lemma_put_item(s, f, c, SpecQueueItem { state: DownloadState::Completed, ..item_of(s, f, c) });
    if has_item(s, f, c) {
        lemma_key_index(queue_items(s, f), c);
    }
    let m2 = add_completed(m1, c, f);
    lemma_add_completed(m1, c, f);
    let m3 = push_event(m2, SpecSseEvent::ScheduleUpdate(update_event(f, c, DownloadState::Completed)));
    let m4 = drop_channels(m3, SpecChannelSel::ToTarget { file: f, target: c });
    lemma_drop_channels(m3, SpecChannelSel::ToTarget { file: f, target: c });
    assert(m4 == complete_effect(s, f, c));
    assert(has_item(m1, f, c) == has_item(s, f, c));
    assert(m4.queues == m1.queues);
    assert(queue_items(m4, f) == queue_items(m1, f));
    assert(has_item(m4, f, c) == has_item(m1, f, c));
    assert(item_of(m4, f, c) == item_of(m1, f, c));
    law_dispatch_frame(m4, idss, f, c);
}

/// The downloaders still waiting for a file hear their places in queue order,
/// numbered from 1.
pub proof fn law_queue_positions(f: Seq<char>, items: Seq<SpecQueueItem>)
    ensures
        position_events(f, items).len() == waiting(items).len(),
        forall|k: int|
            0 <= k < waiting(items).len() ==> #[trigger] position_events(f, items)[k] == SpecSseEvent::ScheduleUpdate(
                SpecScheduleEvent {
                    file_id: f,
                    client_id: waiting(items)[k],
                    state: DownloadState::Queued,
                    queue_position: Some((k + 1) as usize),
                },
            ),
    decreases items.len(),
{
    if items.len() > 0 {
        law_queue_positions(f, items.drop_last());
    }
}

/// Each downloader in the relay pool of file `f` is connected, holds `f` and is
/// not relaying; none appears twice.
pub proof fn law_relay_pool(clients: Seq<SpecClient>, f: Seq<char>)
    requires
        unique_keys(clients),
    ensures
        relay_pool(clients, f).no_duplicates(),
        forall|j: int|
            0 <= j < relay_pool(clients, f).len() ==> (lookup(clients, #[trigger] relay_pool(clients, f)[j]) matches Some(
                c,
            ) && c.completed_files.contains(f) && !c.is_relaying),
    decreases clients.len(),
{
    if clients.len() > 0 {
        let d = clients.drop_last();
        assert(unique_keys(d)) by {
            assert forall|a: int, b: int| 0 <= a < d.len() && 0 <= b < d.len() && a != b implies #[trigger] d[a].key()
                != #[trigger] d[b].key() by {
                assert(d[a] == clients[a] && d[b] == clients[b]);
            }
        }
        law_relay_pool(d, f);
        let p = relay_pool(d, f);
        assert forall|j: int| 0 <= j < p.len() implies (lookup(clients, #[trigger] p[j]) matches Some(c)
            && c.completed_files.contains(f) && !c.is_relaying) && p[j] != clients.last().id by {
            lemma_key_index(d, p[j]);
            let i = key_index(d, p[j]);
            assert(clients[i] == d[i]);
            crate::keyed::lemma_unique_index(clients, i);
            assert(clients[i].key() != clients[clients.len() - 1].key());
        }
        let c = clients.last();
        if c.completed_files.contains(f) && !c.is_relaying {
            crate::keyed::lemma_unique_index(clients, clients.len() - 1);
            let q = relay_pool(clients, f);
            assert(q == p.push(c.id));
            assert forall|j: int| 0 <= j < q.len() implies (lookup(clients, #[trigger] q[j]) matches Some(x)
                && x.completed_files.contains(f) && !x.is_relaying) by {
                if j < p.len() {
                    assert(q[j] == p[j]);
                }
            }
        }
    }
}

/// A relay plan uses relays of the pool only, never one that failed the
/// downloader it serves, serves the targets in order, makes at most `budget`
/// pairs, and gives no relay two transfers.
pub proof fn law_relay_plan_sound(
    items: Seq<SpecQueueItem>,
    targets: Seq<Seq<char>>,
    pool: Seq<Seq<char>>,
    budget: nat,
)
    requires
        pool.no_duplicates(),
    ensures
        relay_plan(items, targets, pool, budget).0.len() <= budget,
        forall|k: int|
            0 <= k < relay_plan(items, targets, pool, budget).0.len() ==> {
                let pr = #[trigger] relay_plan(items, targets, pool, budget).0[k];
                &&& pr.0 == targets[k]
                &&& pool.contains(pr.1)
                &&& !failed_of(items, pr.0).contains(pr.1)
            },
        forall|k: int, l: int|
            0 <= k < l < relay_plan(items, targets, pool, budget).0.len() ==> (#[trigger] relay_plan(
                items,
                targets,
                pool,
                budget,
            ).0[k]).1 != (#[trigger] relay_plan(items, targets, pool, budget).0[l]).1,
    decreases targets.len(),
{
    crate::frame::lemma_plan_targets(items, targets, pool, budget);
    if targets.len() > 0 && budget > 0 {
        let t = targets[0];
        let fl = failed_of(items, t);
        let pos = last_usable(pool, fl);
        lemma_last_usable_range(pool, fl);
        if pos >= 0 {
            let rp = pool.remove(pos);
            pool.remove_ensures(pos);
            assert(rp.no_duplicates()) by {
                assert forall|a: int, b: int| 0 <= a < rp.len() && 0 <= b < rp.len() && a != b implies rp[a] != rp[b] by {
                    let a2 = if a < pos { a } else { a + 1 };
                    let b2 = if b < pos { b } else { b + 1 };
                    assert(rp[a] == pool[a2] && rp[b] == pool[b2]);
                }
            }
            assert forall|x: Seq<char>| rp.contains(x) implies pool.contains(x) && x != pool[pos] by {
                let a = choose|a: int| 0 <= a < rp.len() && rp[a] == x;
                let a2 = if a < pos { a } else { a + 1 };
                assert(rp[a] == pool[a2]);
            }
            law_relay_plan_sound(items, targets.drop_first(), rp, (budget - 1) as nat);
            let rest = relay_plan(items, targets.drop_first(), rp, (budget - 1) as nat);
            let plan = relay_plan(items, targets, pool, budget);
            assert(plan.0 == seq![(t, pool[pos])] + rest.0);
            assert forall|k: int| 0 <= k < plan.0.len() implies {
                let pr = #[trigger] plan.0[k];
                &&& pr.0 == targets[k]
                &&& pool.contains(pr.1)
                &&& !failed_of(items, pr.0).contains(pr.1)
            } by {
                if k > 0 {
                    assert(plan.0[k] == rest.0[k - 1]);
                    assert(rp.contains(rest.0[k - 1].1));
                }
            }
            assert forall|k: int, l: int| 0 <= k < l < plan.0.len() implies (#[trigger] plan.0[k]).1 != (#[trigger] plan.0[l]).1 by {
                assert(plan.0[l] == rest.0[l - 1]);
                assert(rp.contains(rest.0[l - 1].1));
                if k > 0 {
                    assert(plan.0[k] == rest.0[k - 1]);
                }
            }
        }
    }
}

/// Every transfer that a dispatch of file `f` starts brings `f` to a downloader
/// that was waiting for it, either from the share side over HTTPS or over
/// WebRTC from a connected downloader that holds `f` and was not relaying.
pub proof fn law_dispatch_new_channels(s: SpecAppState, f: Seq<char>, ids: Seq<Seq<char>>)
    requires
        wf(s),
    ensures
        forall|i: int|
            0 <= i < dispatch_file_spec(s, f, ids).channels.len() ==> {
                let ch = #[trigger] dispatch_file_spec(s, f, ids).channels[i];
                s.channels.contains(ch) || (ch.file_id == f && waiting(queue_items(s, f)).contains(ch.target) && (
                (ch.source == "server"@ && ch.channel_type == ChannelType::Http) || (relay_pool(s.clients, f).contains(
                    ch.source,
                ) && ch.channel_type == ChannelType::Webrtc)))
            },
{
    let result = dispatch_file_spec(s, f, ids);
    let w = waiting(queue_items(s, f));
    let pool = relay_pool(s.clients, f);
    if has_key(s.files, f) && has_key(s.queues, f) && w.len() > 0 {
        let size = s.files[key_index(s.files, f)].size;
        let http = !crate::dispatch::http_busy(s.channels, f);
        let kk: int = if http { 1 } else { 0 };
        let hch = SpecChannel {
            channel_id: ids[0],
            file_id: f,
            source: "server"@,
            target: w[0],
            channel_type: ChannelType::Http,
        };
        let s1 = if http {
            crate::dispatch::serve_over_http(s, f, w[0], ids[0])
        } else {
            s
        };
        assert(s1.clients == s.clients);
        // every channel of s1 is one of s or the new HTTPS one
        assert forall|i: int| 0 <= i < s1.channels.len() implies s.channels.contains(#[trigger] s1.channels[i]) || s1.channels[i] == hch by {
            if http {
                assert(s1.channels == upsert(s.channels, hch));
                crate::frame::lemma_upsert_contains(s.channels, hch);
            } else {
                assert(s.channels[i] == s1.channels[i]);
            }
        }
        let rem = w.skip(kk);
        let good = |ch: SpecChannel|
            s.channels.contains(ch) || (ch.file_id == f && w.contains(ch.target) && ((ch.source == "server"@
                && ch.channel_type == ChannelType::Http) || (pool.contains(ch.source) && ch.channel_type
                == ChannelType::Webrtc)));
        assert forall|i: int| 0 <= i < s1.channels.len() implies #[trigger] good(s1.channels[i]) by {
            if s1.channels[i] == hch && !s.channels.contains(hch) {
                assert(http);
                assert(w.contains(w[0]));
            }
        }
        {
            let s2 = if rem.len() > 0 && webrtc_count(s1.channels) < crate::dispatch::MAX_CONCURRENT_WEBRTC {
                let items1 = queue_items(s1, f);
                let budget = (crate::dispatch::MAX_CONCURRENT_WEBRTC - webrtc_count(s1.channels)) as nat;
                let plan = relay_plan(items1, rem, pool, budget);
                law_relay_pool(s.clients, f);
                law_relay_plan_sound(items1, rem, pool, budget);
                crate::frame::lemma_plan_targets(items1, rem, pool, budget);
                crate::frame::lemma_apply_plan_channels(s1, f, size, plan.0, ids.skip(kk));
                let sa = apply_plan(s1, f, size, plan.0, ids.skip(kk));
                assert forall|i: int| 0 <= i < sa.channels.len() implies #[trigger] good(sa.channels[i]) by {
                    let ch = sa.channels[i];
                    if s1.channels.contains(ch) {
                        let j = choose|j: int| 0 <= j < s1.channels.len() && s1.channels[j] == ch;
                        assert(good(s1.channels[j]));
                    } else {
                        let k = choose|k: int| 0 <= k < plan.0.len() && (#[trigger] plan.0[k]).1 == ch.source && plan.0[k].0 == ch.target;
                        assert(plan.0[k].0 == rem[k]);
                        assert(rem[k] == w[k + kk]);
                        assert(w.contains(ch.target));
                        assert(pool.contains(ch.source));
                    }
                }
                match plan.1 {
                    Some(t) => {
                        assert(crate::state::clear_failed_relays(sa, f, t).channels == sa.channels);
                    },
                    None => {},
                }
                match plan.1 {
                    Some(t) => crate::state::clear_failed_relays(sa, f, t),
                    None => sa,
                }
            } else {
                s1
            };
            assert(result.channels == s2.channels);
            assert forall|i: int| 0 <= i < s2.channels.len() implies #[trigger] good(s2.channels[i]) by {}
        }
        assert forall|i: int| 0 <= i < result.channels.len() implies #[trigger] good(result.channels[i]) by {}
        assert forall|i: int| 0 <= i < result.channels.len() implies {
            let ch = #[trigger] result.channels[i];
            s.channels.contains(ch) || (ch.file_id == f && w.contains(ch.target) && ((ch.source == "server"@
                && ch.channel_type == ChannelType::Http) || (pool.contains(ch.source) && ch.channel_type
                == ChannelType::Webrtc)))
        } by {
            assert(good(result.channels[i]));
        }
    } else {
        assert(result == s);
        assert forall|i: int| 0 <= i < result.channels.len() implies s.channels.contains(#[trigger] result.channels[i]) by {
            assert(s.channels[i] == result.channels[i]);
        }
    }
}

/// Downloader `c` is connected nowhere: not a downloader, in no queue, at no
/// end of a channel.
pub open spec fn absent(s: SpecAppState, c: Seq<char>) -> bool {
    &&& !has_key(s.clients, c)
    &&& forall|g: Seq<char>| !#[trigger] has_item(s, g, c)
    &&& forall|i: int| 0 <= i < s.channels.len() ==> (#[trigger] s.channels[i]).source != c && s.channels[i].target != c
}

pub proof fn lemma_dispatch_file_absent(s: SpecAppState, f: Seq<char>, ids: Seq<Seq<char>>, c: Seq<char>)
    requires
        wf(s),
        absent(s, c),
        c != "server"@,
    ensures
        absent(dispatch_file_spec(s, f, ids), c),
{
    let t = dispatch_file_spec(s, f, ids);
    lemma_dispatch_file_evolves(s, f, ids);
    lemma_evolves_client(s, t, c);
    assert forall|g: Seq<char>| !#[trigger] has_item(t, g, c) by {
        lemma_evolves_item(s, t, g, c);
    }
    law_dispatch_new_channels(s, f, ids);
    crate::frame::lemma_waiting_items(s, f);
    law_relay_pool(s.clients, f);
    let w = waiting(queue_items(s, f));
    let pool = relay_pool(s.clients, f);
    assert forall|i: int| 0 <= i < t.channels.len() implies (#[trigger] t.channels[i]).source != c && t.channels[i].target != c by {
        let ch = t.channels[i];
        if s.channels.contains(ch) {
            let j = choose|j: int| 0 <= j < s.channels.len() && s.channels[j] == ch;
            assert(s.channels[j].source != c);
        } else {
            let a = choose|a: int| 0 <= a < w.len() && w[a] == ch.target;
            assert(has_item(s, f, w[a]));
            if ch.channel_type == ChannelType::Webrtc {
                let b = choose|b: int| 0 <= b < pool.len() && pool[b] == ch.source;
                assert(lookup(s.clients, pool[b]) is Some);
                if ch.source == c {
                    lemma_key_index(s.clients, c);
                }
            }
        }
    }
}

pub proof fn lemma_dispatch_files_absent(s: SpecAppState, fs: Seq<Seq<char>>, idss: Seq<Seq<Seq<char>>>, c: Seq<char>)
    requires
        wf(s),
        absent(s, c),
        c != "server"@,
    ensures
        absent(dispatch_files(s, fs, idss), c),
    decreases fs.len(),
{
    if fs.len() > 0 {
        lemma_dispatch_files_absent(s, fs.drop_last(), idss, c);
        let m = dispatch_files(s, fs.drop_last(), idss);
        lemma_dispatch_files_evolves(s, fs.drop_last(), idss);
        lemma_dispatch_file_absent(m, fs.last(), idss[fs.len() - 1], c);
    }
}

/// Taking a downloader out of every queue keeps the state well formed and
/// leaves it in no queue.
pub proof fn lemma_strip_client(s: SpecAppState, c: Seq<char>)
    requires
        wf(s),
    ensures
        wf(strip_client_items(s, c)),
        forall|g: Seq<char>| !#[trigger] has_item(strip_client_items(s, c), g, c),
{
    let t = strip_client_items(s, c);
    assert forall|i: int| 0 <= i < t.queues.len() implies unique_keys(#[trigger] t.queues[i].items) by {
        crate::keyed::lemma_filter_unique(s.queues[i].items, other_client(c));
    }
    assert forall|i: int, j: int|
        0 <= i < t.queues.len() && 0 <= j < t.queues.len() && i != j implies #[trigger] t.queues[i].key()
        != #[trigger] t.queues[j].key() by {
        assert(t.queues[i].key() == s.queues[i].key());
        assert(t.queues[j].key() == s.queues[j].key());
    }
    assert forall|i: int| 0 <= i < t.queues.len() implies has_key(t.files, (#[trigger] t.queues[i]).file_id) by {
        assert(t.queues[i].file_id == s.queues[i].file_id);
        assert(has_key(s.files, s.queues[i].file_id));
    }
    assert forall|g: Seq<char>| !#[trigger] has_item(t, g, c) by {
        if has_key(t.queues, g) {
            lemma_key_index(t.queues, g);
            let i = key_index(t.queues, g);
            let items = s.queues[i].items;
            let kept = items.filter(other_client(c));
            assert(queue_items(t, g) == kept);
            if has_key(kept, c) {
                let j = choose|j: int| 0 <= j < kept.len() && #[trigger] kept[j].key() == c;
                items.lemma_filter_pred(other_client(c), j);
            }
        }
    }
}

pub proof fn lemma_requeue(s: SpecAppState, ts: Seq<(Seq<char>, Seq<char>)>)
    requires
        wf(s),
    ensures
        wf(requeue(s, ts)),
        requeue(s, ts).clients == s.clients,
        requeue(s, ts).channels == s.channels,
        forall|g: Seq<char>, d: Seq<char>| #[trigger] has_item(requeue(s, ts), g, d) == has_item(s, g, d),
    decreases ts.len(),
{
    if ts.len() > 0 {
        lemma_requeue(s, ts.drop_last());
        let m = requeue(s, ts.drop_last());
        let (g, d) = ts.last();
        crate::state::lemma_put_item(m, g, d, SpecQueueItem { state: DownloadState::Queued, ..item_of(m, g, d) });
        if has_item(m, g, d) {
            lemma_key_index(queue_items(m, g), d);
        }
    }
}

/// Freeing relays touches nothing but the relay flags.
pub proof fn lemma_release_frame(s: SpecAppState, rs: Seq<Seq<char>>)
    ensures
        release(s, rs).queues == s.queues,
        release(s, rs).files == s.files,
        release(s, rs).channels == s.channels,
        release(s, rs).outbox == s.outbox,
    decreases rs.len(),
{
    if rs.len() > 0 {
        lemma_release_frame(s, rs.drop_last());
    }
}

/// Freeing relays keeps the state well formed and the same downloaders
/// connected, and each connected one of them is no longer relaying.
pub proof fn lemma_release(s: SpecAppState, rs: Seq<Seq<char>>)
    requires
        wf(s),
    ensures
        wf(release(s, rs)),
        forall|d: Seq<char>| #[trigger] has_key(release(s, rs).clients, d) == has_key(s.clients, d),
        forall|d: Seq<char>| !rs.contains(d) ==> #[trigger] lookup(release(s, rs).clients, d) == lookup(s.clients, d),
        forall|k: int|
            0 <= k < rs.len() && has_key(s.clients, rs[k]) ==> (lookup(release(s, rs).clients, #[trigger] rs[k]) matches Some(
                x,
            ) && !x.is_relaying),
    decreases rs.len(),
{
    if rs.len() > 0 {
        lemma_release(s, rs.drop_last());
        let m = release(s, rs.drop_last());
        let r = rs.last();
        crate::state::lemma_set_relaying(m, r, false);
        assert forall|d: Seq<char>| !rs.contains(d) implies #[trigger] lookup(release(s, rs).clients, d) == lookup(s.clients, d) by {
            assert(d != r);
            if rs.drop_last().contains(d) {
                let j = choose|j: int| 0 <= j < rs.drop_last().len() && rs.drop_last()[j] == d;
                assert(rs[j] == d);
            }
        }
        assert forall|k: int|
            0 <= k < rs.len() && has_key(s.clients, rs[k]) implies (lookup(release(s, rs).clients, #[trigger] rs[k]) matches Some(
                x,
            ) && !x.is_relaying) by {
            if rs[k] != r {
                assert(rs.drop_last()[k] == rs[k]);
            }
        }
    }
}

/// A downloader that left is forgotten everywhere: it is no longer connected,
/// it is in no queue, and no channel leads from or to it, even after the
/// dispatch that follows. (This needs its id to differ from "server", the
/// source named by transfers from the share side.)
pub proof fn law_disconnect_forgets(s: SpecAppState, c: Seq<char>, idss: Seq<Seq<Seq<char>>>)
    requires
        wf(s),
        c != "server"@,
    ensures
        absent(spec_disconnect_client(s, c, idss), c),
        !has_key(spec_disconnect_client(s, c, idss).clients, c),
{
    let s1 = strip_client_items(s, c);
    lemma_strip_client(s, c);
    let s2r = requeue(s1, relayed_by(s.channels, c));
    lemma_requeue(s1, relayed_by(s.channels, c));
    let s2 = release(s2r, relays_to(s.channels, c));
    lemma_release(s2r, relays_to(s.channels, c));
    lemma_release_frame(s2r, relays_to(s.channels, c));
    let sel = SpecChannelSel::Touching { client: c };
    let s3 = drop_channels(s2, sel);
    lemma_drop_channels(s2, sel);
    let s4 = SpecAppState { clients: remove_key(s3.clients, c), ..s3 };
    lemma_remove_key(s3.clients, c);
    assert(s4 == disconnect_effect(s, c));
    assert(wf(s4)) by {
        assert forall|i: int| 0 <= i < s4.queues.len() implies has_key(s4.files, (#[trigger] s4.queues[i]).file_id) by {
            assert(s4.queues[i] == s3.queues[i]);
        }
    }
    assert forall|g: Seq<char>| !#[trigger] has_item(s4, g, c) by {
        assert(has_item(s2r, g, c) == has_item(s1, g, c));
        assert(queue_items(s4, g) == queue_items(s2r, g));
    }
    assert forall|i: int| 0 <= i < s4.channels.len() implies (#[trigger] s4.channels[i]).source != c && s4.channels[i].target != c by {
        assert(!crate::state::selected(sel, s3.channels[i]));
    }
    lemma_dispatch_files_absent(s4, file_ids(s4), idss, c);
}

pub proof fn lemma_upsert_keeps(chs: Seq<SpecChannel>, x: SpecChannel, y: SpecChannel)
    requires
        chs.contains(y),
        y.key() != x.key(),
    ensures
        upsert(chs, x).contains(y),
{
    lemma_key_index(chs, x.key());
    let j = choose|j: int| 0 <= j < chs.len() && chs[j] == y;
    assert(upsert(chs, x)[j] == y);
}

pub proof fn lemma_apply_plan_keeps(
    s1: SpecAppState,
    f: Seq<char>,
    size: u64,
    pairs: Seq<(Seq<char>, Seq<char>)>,
    ids: Seq<Seq<char>>,
    y: SpecChannel,
)
    requires
        s1.channels.contains(y),
        forall|k: int| 0 <= k < pairs.len() ==> #[trigger] ids[k] != y.channel_id,
    ensures
        apply_plan(s1, f, size, pairs, ids).channels.contains(y),
    decreases pairs.len(),
{
    if pairs.len() > 0 {
        let k = pairs.len() - 1;
        lemma_apply_plan_keeps(s1, f, size, pairs.drop_last(), ids, y);
        let m = apply_plan(s1, f, size, pairs.drop_last(), ids);
        let ch = SpecChannel {
            channel_id: ids[k],
            file_id: f,
            source: pairs[k].1,
            target: pairs[k].0,
            channel_type: ChannelType::Webrtc,
        };
        let m2 = crate::state::set_relaying(set_item_state(m, f, pairs[k].0, DownloadState::Downloading), pairs[k].1, true);
        assert(m2.channels == m.channels);
        lemma_upsert_keeps(m.channels, ch, y);
    }
}

/// A dispatch closes no channel: every channel open before it is still open
/// afterwards, where no new channel takes the id of that channel (the new
/// channels take the ids `ids` in order, at most one per waiting downloader).
pub proof fn law_dispatch_keeps_channels(s: SpecAppState, f: Seq<char>, ids: Seq<Seq<char>>, y: SpecChannel)
    requires
        wf(s),
        s.channels.contains(y),
        ids.len() >= waiting(queue_items(s, f)).len(),
        forall|k: int| 0 <= k < ids.len() ==> #[trigger] ids[k] != y.channel_id,
    ensures
        dispatch_file_spec(s, f, ids).channels.contains(y),
{
    let result = dispatch_file_spec(s, f, ids);
    let w = waiting(queue_items(s, f));
    if has_key(s.files, f) && has_key(s.queues, f) && w.len() > 0 {
        let size = s.files[key_index(s.files, f)].size;
        let http = !crate::dispatch::http_busy(s.channels, f);
        let kk: int = if http { 1 } else { 0 };
        let hch = SpecChannel {
            channel_id: ids[0],
            file_id: f,
            source: "server"@,
            target: w[0],
            channel_type: ChannelType::Http,
        };
        let s1 = if http {
            crate::dispatch::serve_over_http(s, f, w[0], ids[0])
        } else {
            s
        };
        if http {
            let m1 = set_item_state(s, f, w[0], DownloadState::Downloading);
            assert(m1.channels == s.channels);
            assert(s1.channels == upsert(s.channels, hch));
            lemma_upsert_keeps(s.channels, hch, y);
        }
        assert(s1.channels.contains(y));
        let rem = w.skip(kk);
        let s2 = if rem.len() > 0 && webrtc_count(s1.channels) < crate::dispatch::MAX_CONCURRENT_WEBRTC {
            let items1 = queue_items(s1, f);
            let pool = relay_pool(s1.clients, f);
            let budget = (crate::dispatch::MAX_CONCURRENT_WEBRTC - webrtc_count(s1.channels)) as nat;
            let plan = relay_plan(items1, rem, pool, budget);
            crate::frame::lemma_plan_targets(items1, rem, pool, budget);
            assert forall|k: int| 0 <= k < plan.0.len() implies #[trigger] ids.skip(kk)[k] != y.channel_id by {
                assert(ids.skip(kk)[k] == ids[k + kk]);
            }
            lemma_apply_plan_keeps(s1, f, size, plan.0, ids.skip(kk), y);
            let sa = apply_plan(s1, f, size, plan.0, ids.skip(kk));
            match plan.1 {
                Some(t) => {
                    assert(crate::state::clear_failed_relays(sa, f, t).channels == sa.channels);
                },
                None => {},
            }
            match plan.1 {
                Some(t) => crate::state::clear_failed_relays(sa, f, t),
                None => sa,
            }
        } else {
            s1
        };
        assert(result.channels == s2.channels);
    } else {
        assert(result == s);
    }
}

/// First come, first served: where the share side sends file `f` to nobody,
/// dispatching `f` gives it to the first waiting downloader, which starts
/// downloading; the first new event announces this; and, where the new
/// channels' ids differ from each other, the share side's transfer to it is
/// among the channels afterwards.
pub proof fn law_head_served_first(s: SpecAppState, f: Seq<char>, ids: Seq<Seq<char>>)
    requires
        wf(s),
        has_key(s.files, f),
        waiting(queue_items(s, f)).len() > 0,
        !crate::dispatch::http_busy(s.channels, f),
    ensures
        item_of(dispatch_file_spec(s, f, ids), f, waiting(queue_items(s, f))[0]).state == DownloadState::Downloading,
        dispatch_file_spec(s, f, ids).outbox.len() > s.outbox.len(),
        dispatch_file_spec(s, f, ids).outbox[s.outbox.len() as int] == SpecSseEvent::ScheduleUpdate(
            update_event(f, waiting(queue_items(s, f))[0], DownloadState::Downloading),
        ),
        ids.no_duplicates() && ids.len() >= waiting(queue_items(s, f)).len() ==> dispatch_file_spec(s, f, ids).channels.contains(
            SpecChannel {
                channel_id: ids[0],
                file_id: f,
                source: "server"@,
                target: waiting(queue_items(s, f))[0],
                channel_type: ChannelType::Http,
            },
        ),
{
    let w = waiting(queue_items(s, f));
    let w0 = w[0];
    crate::frame::lemma_waiting_items(s, f);
    assert(has_item(s, f, w[0]));
    crate::frame::lemma_waiting_distinct(queue_items(s, f));
    if !has_key(s.queues, f) {
        assert(queue_items(s, f) =~= Seq::<SpecQueueItem>::empty());
    }
    let result = dispatch_file_spec(s, f, ids);
    let size = s.files[key_index(s.files, f)].size;
    let hch = SpecChannel { channel_id: ids[0], file_id: f, source: "server"@, target: w0, channel_type: ChannelType::Http };
    // serving the head
    crate::frame::lemma_evolves_refl(s, f);
    crate::frame::lemma_start_evolves(s, s, f, w0);
    let m1 = set_item_state(s, f, w0, DownloadState::Downloading);
    crate::state::lemma_put_item(s, f, w0, SpecQueueItem { state: DownloadState::Downloading, ..item_of(s, f, w0) });
    lemma_key_index(queue_items(s, f), w0);
    assert(item_of(m1, f, w0).state == DownloadState::Downloading);
    let e = SpecSseEvent::ScheduleUpdate(update_event(f, w0, DownloadState::Downloading));
    crate::frame::lemma_channel_event_evolves(s, m1, f, hch, e);
    let m2 = crate::state::put_channel(m1, hch);
    crate::frame::lemma_channel_event_evolves(s, m2, f, hch, e);
    let s1 = push_event(m2, e);
    assert(s1 == crate::dispatch::serve_over_http(s, f, w0, ids[0]));
    lemma_evolves_wf(s, s1);
    assert(queue_items(s1, f) == queue_items(m1, f));
    assert(item_of(s1, f, w0) == item_of(m1, f, w0));
    assert(has_item(s, f, w[0]));
    assert(has_item(m1, f, w0));
    assert(has_item(s1, f, w0));
    lemma_upsert(m1.channels, hch);
    assert(s1.channels.contains(hch)) by {
        let t = upsert(m1.channels, hch);
        let j = key_index(t, hch.key());
        lemma_key_index(t, hch.key());
        assert(t[j] == hch);
    }
    // the rest of the dispatch leaves the head as it is
    crate::frame::lemma_evolves_refl(s1, f);
    let rem = w.skip(1);
    assert forall|j: int| 0 <= j < rem.len() implies has_item(s1, f, #[trigger] rem[j]) && item_of(s1, f, rem[j]).state == DownloadState::Queued by {
        assert(rem[j] == w[j + 1]);
        assert(w[j + 1] != w[0]);
        assert(has_item(s, f, w[j + 1]));
    }
    {
        let s2 = if rem.len() > 0 && webrtc_count(s1.channels) < crate::dispatch::MAX_CONCURRENT_WEBRTC {
            let items1 = queue_items(s1, f);
            let pool = relay_pool(s1.clients, f);
            let budget = (crate::dispatch::MAX_CONCURRENT_WEBRTC - webrtc_count(s1.channels)) as nat;
            let plan = relay_plan(items1, rem, pool, budget);
            crate::frame::lemma_plan_targets(items1, rem, pool, budget);
            assert forall|k: int|
                0 <= k < plan.0.len() && has_item(s1, f, (#[trigger] plan.0[k]).0) implies item_of(s1, f, plan.0[k].0).state
                    == DownloadState::Queued by {
                assert(plan.0[k].0 == rem[k]);
            }
            crate::frame::lemma_apply_plan_evolves(s1, s1, f, size, plan.0, ids.skip(1));
            let sa = apply_plan(s1, f, size, plan.0, ids.skip(1));
            if ids.no_duplicates() && ids.len() >= w.len() {
                assert forall|k: int| 0 <= k < plan.0.len() implies #[trigger] ids.skip(1)[k] != hch.channel_id by {
                    assert(ids.skip(1)[k] == ids[k + 1]);
                }
                lemma_apply_plan_keeps(s1, f, size, plan.0, ids.skip(1), hch);
            }
            match plan.1 {
                Some(t) => {
                    assert(t == rem[plan.0.len() as int]);
                    crate::frame::lemma_evolves_item(s1, sa, f, t);
                    crate::frame::lemma_put_item_evolves(
                        s1,
                        sa,
                        f,
                        t,
                        SpecQueueItem { failed_relays: Seq::empty(), ..item_of(sa, f, t) },
                    );
                },
                None => {},
            }
            match plan.1 {
                Some(t) => crate::state::clear_failed_relays(sa, f, t),
                None => sa,
            }
        } else {
            s1
        };
        crate::frame::lemma_append_events_evolves(s1, s2, f, position_events(f, queue_items(s2, f)));
        assert(result == (SpecAppState { outbox: s2.outbox + position_events(f, queue_items(s2, f)), ..s2 }));
        assert(result.outbox.take(s1.outbox.len() as int) == s1.outbox);
        assert(result.outbox[s.outbox.len() as int] == result.outbox.take(s1.outbox.len() as int)[s.outbox.len() as int]);
        assert(result.channels == s2.channels);
    }
    crate::frame::lemma_evolves_item(s1, result, f, w0);
}

/// A handled failure puts the downloader back in the queue, closes every
/// channel that brought it the file, frees the relay that was sending (if any)
/// and records it as failed for this downloader, so that the same pair is not
/// tried again at once; the last event announces the downloader as queued.
pub proof fn law_failure_requeues(s: SpecAppState, f: Seq<char>, c: Seq<char>)
    requires
        wf(s),
        failure_applies(s, f, c),
    ensures
        wf(spec_mark_transfer_failed(s, f, c)),
        has_item(spec_mark_transfer_failed(s, f, c), f, c),
        item_of(spec_mark_transfer_failed(s, f, c), f, c).state == DownloadState::Queued,
        forall|i: int|
            0 <= i < spec_mark_transfer_failed(s, f, c).channels.len() ==> !((#[trigger] spec_mark_transfer_failed(
                s,
                f,
                c,
            ).channels[i]).file_id == f && spec_mark_transfer_failed(s, f, c).channels[i].target == c),
        relay_source_of(s.channels, f, c) matches Some(r) ==> item_of(spec_mark_transfer_failed(s, f, c), f, c).failed_relays.contains(r),
        relay_source_of(s.channels, f, c) matches Some(r) ==> (has_key(s.clients, r) ==> (lookup(
            spec_mark_transfer_failed(s, f, c).clients,
            r,
        ) matches Some(x) && !x.is_relaying)),
        spec_mark_transfer_failed(s, f, c).outbox.last() == SpecSseEvent::ScheduleUpdate(update_event(f, c, DownloadState::Queued)),
{
    let relay = relay_source_of(s.channels, f, c);
    let s1 = match relay {
        Some(r) => push_event(
            crate::state::set_relaying(s, r, false),
            SpecSseEvent::ScheduleUpdate(update_event(f, r, DownloadState::Completed)),
        ),
        None => s,
    };
    match relay {
        Some(r) => {
            crate::state::lemma_set_relaying(s, r, false);
        },
        None => {},
    }
    assert(wf(s1));
    assert(has_item(s1, f, c) && item_of(s1, f, c) == item_of(s, f, c)) by {
        assert(s1.queues == s.queues);
        assert(queue_items(s1, f) == queue_items(s, f));
    }
    let sel = SpecChannelSel::ToTarget { file: f, target: c };
    let d = drop_channels(s1, sel);
    lemma_drop_channels(s1, sel);
    assert(queue_items(d, f) == queue_items(s1, f));
    let it = SpecQueueItem { state: DownloadState::Queued, ..item_of(d, f, c) };
    let s2 = set_item_state(d, f, c, DownloadState::Queued);
    lemma_key_index(queue_items(d, f), c);
    crate::state::lemma_put_item(d, f, c, it);
    assert(item_of(s2, f, c) == it);
    assert(has_item(d, f, c));
    assert(has_item(s2, f, c));
    let s3 = match relay {
        Some(r) => crate::state::add_failed_relay(s2, f, c, r),
        None => s2,
    };
    match relay {
        Some(r) => {
            let it2 = item_of(s2, f, c);
            if !it2.failed_relays.contains(r) {
                lemma_key_index(queue_items(s2, f), c);
                let it3 = SpecQueueItem { failed_relays: it2.failed_relays.push(r), ..it2 };
                crate::state::lemma_put_item(s2, f, c, it3);
                assert(it3.failed_relays[it2.failed_relays.len() as int] == r);
            }
        },
        None => {},
    }
    assert(s3.channels == d.channels);
    assert(s3.clients == s1.clients);
    assert(has_item(s3, f, c));
    assert(item_of(s3, f, c).state == DownloadState::Queued);
}

/// Removing a downloader forgets it and takes it out of every queue.
pub proof fn law_remove_client(s: SpecAppState, c: Seq<char>, g: Seq<char>)
    requires
        wf(s),
    ensures
        !has_key(crate::store::spec_remove_client(s, c).clients, c),
        !has_item(crate::store::spec_remove_client(s, c), g, c),
{
    lemma_remove_key(s.clients, c);
    let m = SpecAppState { clients: remove_key(s.clients, c), ..s };
    assert(wf(m)) by {
        assert forall|i: int| 0 <= i < m.queues.len() implies has_key(m.files, (#[trigger] m.queues[i]).file_id) by {
            assert(m.queues[i] == s.queues[i]);
        }
    }
    lemma_strip_client(m, c);
}

/// A relay that reports its transfer done is free again, its channel is
/// closed, and it is announced as holding the file; the target then completes
/// as in `law_complete_registers_relay`.
pub proof fn law_relay_done_frees(s: SpecAppState, f: Seq<char>, src: Seq<char>, tgt: Seq<char>)
    requires
        wf(s),
    ensures
        wf(relay_done_effect(s, f, src, tgt)),
        has_key(s.clients, src) ==> (lookup(relay_done_effect(s, f, src, tgt).clients, src) matches Some(x)
            && !x.is_relaying),
        forall|i: int|
            0 <= i < relay_done_effect(s, f, src, tgt).channels.len() ==> !({
                let ch = #[trigger] relay_done_effect(s, f, src, tgt).channels[i];
                ch.file_id == f && ch.source == src && ch.target == tgt
            }),
        relay_done_effect(s, f, src, tgt).outbox == s.outbox.push(
            SpecSseEvent::ScheduleUpdate(update_event(f, src, DownloadState::Completed)),
        ),
{
    crate::state::lemma_set_relaying(s, src, false);
    let m = crate::state::set_relaying(s, src, false);
    lemma_drop_channels(m, SpecChannelSel::Pair { file: f, source: src, target: tgt });
}

pub proof fn lemma_requeue_queued(s: SpecAppState, ts: Seq<(Seq<char>, Seq<char>)>, k: int)
    requires
        wf(s),
        0 <= k < ts.len(),
        has_item(s, ts[k].0, ts[k].1),
    ensures
        item_of(requeue(s, ts), ts[k].0, ts[k].1).state == DownloadState::Queued,
    decreases ts.len(),
{
    lemma_requeue(s, ts.drop_last());
    let m = requeue(s, ts.drop_last());
    let (g, d) = ts.last();
    let it = SpecQueueItem { state: DownloadState::Queued, ..item_of(m, g, d) };
    if has_item(m, g, d) {
        lemma_key_index(queue_items(m, g), d);
    }
    crate::state::lemma_put_item(m, g, d, it);
    if k == ts.len() - 1 {
        assert(has_item(m, g, d));
    } else {
        assert(ts.drop_last()[k] == ts[k]);
        lemma_requeue_queued(s, ts.drop_last(), k);
        assert(has_item(m, ts[k].0, ts[k].1));
    }
}

/// When a downloader leaves, each downloader it was relaying a file to is
/// queued for that file again (and the dispatch that follows may serve it
/// anew).
pub proof fn law_disconnect_requeues_targets(s: SpecAppState, c: Seq<char>, k: int)
    requires
        wf(s),
        0 <= k < relayed_by(s.channels, c).len(),
        has_item(s, relayed_by(s.channels, c)[k].0, relayed_by(s.channels, c)[k].1),
        relayed_by(s.channels, c)[k].1 != c,
    ensures
        has_item(disconnect_effect(s, c), relayed_by(s.channels, c)[k].0, relayed_by(s.channels, c)[k].1),
        item_of(disconnect_effect(s, c), relayed_by(s.channels, c)[k].0, relayed_by(s.channels, c)[k].1).state
            == DownloadState::Queued,
{
    let ts = relayed_by(s.channels, c);
    let (g, t) = ts[k];
    let s1 = strip_client_items(s, c);
    lemma_strip_client(s, c);
    // the target stays in its queue when c leaves the queues
    assert(has_item(s1, g, t)) by {
        lemma_key_index(s.queues, g);
        let qi = key_index(s.queues, g);
        assert(s1.queues[qi] == crate::store::strip_queue(s.queues[qi], c));
        assert(s1.queues[qi].key() == g);
        crate::keyed::lemma_unique_index(s1.queues, qi);
        let items = s.queues[qi].items;
        assert(queue_items(s, g) == items);
        lemma_key_index(items, t);
        let j = key_index(items, t);
        let kept = items.filter(other_client(c));
        items.lemma_filter_contains(other_client(c), j);
        let a = choose|a: int| 0 <= a < kept.len() && kept[a] == items[j];
        assert(kept[a].key() == t);
        assert(queue_items(s1, g) == kept);
    }
    lemma_requeue_queued(s1, ts, k);
    let s2 = requeue(s1, ts);
    lemma_requeue(s1, ts);
    lemma_release_frame(s2, relays_to(s.channels, c));
    let e = disconnect_effect(s, c);
    assert(has_item(s2, g, t));
    assert(e.queues == s2.queues);
    assert(queue_items(e, g) == queue_items(s2, g));
    assert(has_item(e, g, t));
}

/// When a downloader leaves, each connected downloader that was relaying a
/// file to it is free again: it stays connected and is no longer marked as
/// relaying (so the dispatch that follows may give it another target); where
/// it was sending to the leaving downloader only, no channel leaves from it.
pub proof fn law_disconnect_frees_relays(s: SpecAppState, c: Seq<char>, k: int)
    requires
        wf(s),
        0 <= k < relays_to(s.channels, c).len(),
        has_key(s.clients, relays_to(s.channels, c)[k]),
        relays_to(s.channels, c)[k] != c,
    ensures
        lookup(disconnect_effect(s, c).clients, relays_to(s.channels, c)[k]) matches Some(x) && !x.is_relaying,
        (forall|i: int|
            0 <= i < s.channels.len() && (#[trigger] s.channels[i]).source == relays_to(s.channels, c)[k]
                ==> s.channels[i].target == c) ==> forall|i: int|
            0 <= i < disconnect_effect(s, c).channels.len() ==> (#[trigger] disconnect_effect(s, c).channels[i]).source
                != relays_to(s.channels, c)[k],
{
    let rs = relays_to(s.channels, c);
    let r = rs[k];
    let s1 = strip_client_items(s, c);
    lemma_strip_client(s, c);
    assert(s1.clients == s.clients);
    let s2r = requeue(s1, relayed_by(s.channels, c));
    lemma_requeue(s1, relayed_by(s.channels, c));
    let s2 = release(s2r, rs);
    lemma_release(s2r, rs);
    let sel = SpecChannelSel::Touching { client: c };
    let s3 = drop_channels(s2, sel);
    assert(s3.clients == s2.clients);
    lemma_drop_channels(s2, sel);
    lemma_remove_key(s3.clients, c);
    assert(disconnect_effect(s, c).clients == remove_key(s3.clients, c));
    lemma_release_frame(s2r, rs);
    assert(s2.channels == s.channels);
    let e = disconnect_effect(s, c);
    assert(e.channels == s.channels.filter(crate::state::keep_channel(sel)));
    if forall|i: int| 0 <= i < s.channels.len() && (#[trigger] s.channels[i]).source == r ==> s.channels[i].target == c {
        assert forall|i: int| 0 <= i < e.channels.len() implies (#[trigger] e.channels[i]).source != r by {
            let ch = e.channels[i];
            s.channels.lemma_filter_pred(crate::state::keep_channel(sel), i);
            assert(e.channels.contains(ch));
            s.channels.lemma_filter_contains_rev(crate::state::keep_channel(sel), ch);
            let j = choose|j: int| 0 <= j < s.channels.len() && s.channels[j] == ch;
            assert(ch.target != c);
        }
    }
}

/// Removing a file that was just shared under a fresh id finds it shared and
/// gives back the shared files and the queues as they were; the two events
/// stay announced. A second removal of it finds nothing and changes nothing.
pub proof fn law_remove_undoes_add(s: SpecAppState, file: SpecFileInfo)
    requires
        wf(s),
        !has_key(s.files, file.id),
    ensures
        has_key(spec_add_file(s, file).files, file.id),
        !has_key(spec_remove_file(spec_add_file(s, file), file.id).files, file.id),
        spec_remove_file(spec_remove_file(spec_add_file(s, file), file.id), file.id) == spec_remove_file(
            spec_add_file(s, file),
            file.id,
        ),
        spec_remove_file(spec_add_file(s, file), file.id).files == s.files,
        spec_remove_file(spec_add_file(s, file), file.id).queues == s.queues,
        spec_remove_file(spec_add_file(s, file), file.id).outbox == s.outbox.push(
            SpecSseEvent::FileAdded(file),
        ).push(SpecSseEvent::FileRemoved(file.id)),
{
    let a = spec_add_file(s, file);
    lemma_upsert(s.files, file);
    assert(a.files == s.files.push(file));
    assert(has_key(a.files, file.id));
    crate::keyed::lemma_unique_index(a.files, s.files.len() as int);
    assert(remove_key(a.files, file.id) =~= s.files);
    assert(!has_key(s.queues, file.id)) by {
        if has_key(s.queues, file.id) {
            let i = choose|i: int| 0 <= i < s.queues.len() && #[trigger] s.queues[i].key() == file.id;
            assert(has_key(s.files, s.queues[i].file_id));
        }
    }
    assert(remove_key(a.queues, file.id) == s.queues);
}

/// Removing a downloader that was just connected under a fresh id gives back
/// the downloaders as they were.
pub proof fn law_remove_undoes_register(s: SpecAppState, id: Seq<char>)
    requires
        wf(s),
        !has_key(s.clients, id),
    ensures
        crate::store::spec_remove_client(spec_register_client(s, id), id).clients == s.clients,
{
    let c = SpecClient { id, completed_files: Seq::empty(), is_relaying: false };
    let a = spec_register_client(s, id);
    lemma_upsert(s.clients, c);
    assert(a.clients == s.clients.push(c));
    crate::keyed::lemma_unique_index(a.clients, s.clients.len() as int);
    assert(remove_key(a.clients, id) =~= s.clients);
}

pub open spec fn min3(a: int, b: int, c: int) -> int {
    if a <= b && a <= c {
        a
    } else if b <= c {
        b
    } else {
        c
    }
}

/// Copies multiply: where no waiting downloader has a failed relay on record,
/// a plan pairs as many of them as there are idle holders and room under the
/// budget, and a waiting downloader is left over only where the holders run out.
pub proof fn law_relay_plan_maximal(
    items: Seq<SpecQueueItem>,
    targets: Seq<Seq<char>>,
    pool: Seq<Seq<char>>,
    budget: nat,
)
    requires
        forall|k: int| 0 <= k < targets.len() ==> failed_of(items, #[trigger] targets[k]).len() == 0,
    ensures
        relay_plan(items, targets, pool, budget).0.len() == min3(
            targets.len() as int,
            pool.len() as int,
            budget as int,
        ),
        relay_plan(items, targets, pool, budget).1 is Some ==> pool.len() < targets.len() && pool.len()
            < budget,
    decreases targets.len(),
{
    if targets.len() > 0 && budget > 0 {
        let t = targets[0];
        let fl = failed_of(items, t);
        assert(fl.len() == 0);
        if pool.len() > 0 {
            assert(!fl.contains(pool.last()));
            let pos = pool.len() - 1;
            assert(last_usable(pool, fl) == pos);
            assert forall|k: int| 0 <= k < targets.drop_first().len() implies failed_of(
                items,
                #[trigger] targets.drop_first()[k],
            ).len() == 0 by {
                assert(targets.drop_first()[k] == targets[k + 1]);
            }
            law_relay_plan_maximal(items, targets.drop_first(), pool.remove(pos), (budget - 1) as nat);
        }
    }
}

} // verus!

//! Shared files and connected downloaders.
use crate::ids::{new_id, uuid_text};
use crate::keyed::{
    has_key, key_index, lemma_filter_unique, lemma_key_index, lemma_remove_key, lemma_upsert,
    lookup, remove_key, unique_keys, upsert, Keyed,
};
use crate::state::{
    add_completed, find_client, find_file, find_queue, push_event, wf, AppState, SpecAppState,
};
use crate::types::{
    texts, FileInfo, QueueItem, SpecClient, SpecFileInfo, SpecQueue, SpecQueueItem, SpecSseEvent,
    SseEvent,
};
use vstd::prelude::*;

verus! {

/// The state of a freshly started share side.
pub open spec fn spec_new(port: u16) -> SpecAppState {
    SpecAppState {
        files: Seq::empty(),
        clients: Seq::empty(),
        queues: Seq::empty(),
        channels: Seq::empty(),
        outbox: Seq::empty(),
        port,
    }
}

/// Share `file` and announce it.
pub open spec fn spec_add_file(s: SpecAppState, file: SpecFileInfo) -> SpecAppState {
    push_event(
        SpecAppState { files: upsert(s.files, file), ..s },
        SpecSseEvent::FileAdded(file),
    )
}

/// Stop sharing file `id`, drop its queue and announce it; nothing where it is
/// not shared.
pub open spec fn spec_remove_file(s: SpecAppState, id: Seq<char>) -> SpecAppState {
    if has_key(s.files, id) {
        push_event(
            SpecAppState { files: remove_key(s.files, id), queues: remove_key(s.queues, id), ..s },
            SpecSseEvent::FileRemoved(id),
        )
    } else {
        s
    }
}

/// Connect downloader `id`, with no file completed and no relay running.
pub open spec fn spec_register_client(s: SpecAppState, id: Seq<char>) -> SpecAppState {
    SpecAppState {
        clients: upsert(
            s.clients,
            SpecClient { id, completed_files: Seq::empty(), is_relaying: false },
        ),
        ..s
    }
}

pub open spec fn other_client(c: Seq<char>) -> spec_fn(SpecQueueItem) -> bool {
    |it: SpecQueueItem| it.client_id != c
}

pub open spec fn strip_queue(q: SpecQueue, c: Seq<char>) -> SpecQueue {
    SpecQueue { file_id: q.file_id, items: q.items.filter(other_client(c)) }
}

/// Take downloader `c` out of every queue.
pub open spec fn strip_client_items(s: SpecAppState, c: Seq<char>) -> SpecAppState {
    SpecAppState { queues: s.queues.map_values(|q: SpecQueue| strip_queue(q, c)), ..s }
}

/// Forget downloader `c` and take it out of every queue.
pub open spec fn spec_remove_client(s: SpecAppState, c: Seq<char>) -> SpecAppState {
    strip_client_items(SpecAppState { clients: remove_key(s.clients, c), ..s }, c)
}

proof fn lemma_remove_file_wf(s: SpecAppState, id: Seq<char>)
    requires
        wf(s),
    ensures
        wf(SpecAppState { files: remove_key(s.files, id), queues: remove_key(s.queues, id), ..s }),
{
    let t = SpecAppState { files: remove_key(s.files, id), queues: remove_key(s.queues, id), ..s };
    lemma_key_index(s.queues, id);
    lemma_remove_key(s.files, id);
    lemma_remove_key(s.queues, id);
    let r = key_index(s.queues, id);
    if has_key(s.queues, id) {
        s.queues.remove_ensures(r);
    }
    assert forall|i: int| 0 <= i < t.queues.len() implies unique_keys(t.queues[i].items) && has_key(t.files, (#[trigger] t.queues[i]).file_id) by {
        let j = if !has_key(s.queues, id) || i < r { i } else { i + 1 };
        assert(t.queues[i] == s.queues[j]);
        let k = t.queues[i].file_id;
        assert(t.queues[i].key() == k);
        assert(has_key(t.queues, k));
        assert(has_key(s.files, k));
    }
}

/// The items of `items` whose downloader is not `c`, in order.
fn items_without(items: &Vec<QueueItem>, c: &String) -> (r: Vec<QueueItem>)
    ensures
        r@.map_values(|it: QueueItem| it@) == items@.map_values(|it: QueueItem| it@).filter(
            other_client(c@),
        ),
{
    let ghost v = items@.map_values(|it: QueueItem| it@);
    let ghost p = other_client(c@);
    let mut kept: Vec<QueueItem> = Vec::new();
    let mut i: usize = 0;
    while i < items.len()
        invariant
            v == items@.map_values(|it: QueueItem| it@),
            p == other_client(c@),
            i <= items.len(),
            kept@.map_values(|it: QueueItem| it@) == v.take(i as int).filter(p),
        decreases items.len() - i,
    {
        let ghost it = v[i as int];
        assert(v.take(i as int + 1).filter(p) == (if p(it) {
            v.take(i as int).filter(p).push(it)
        } else {
            v.take(i as int).filter(p)
        })) by {
            reveal(Seq::filter);
            assert(v.take(i as int + 1).drop_last() =~= v.take(i as int));
        }
        if items[i].client_id != *c {
            let d = items[i].duplicate();
            let ghost before = kept@;
            kept.push(d);
            assert(kept@.map_values(|it: QueueItem| it@) =~= before.map_values(|it: QueueItem| it@).push(it));
        }
        i += 1;
    }
    assert(v.take(i as int) =~= v);
    kept
}

impl AppState {
    /// A share side with nothing shared and nobody connected, serving on `port`.
    pub fn new(port: u16) -> (r: AppState)
        ensures
            r@ == spec_new(port),
            wf(r@),
    {
        let r = AppState {
            files: Vec::new(),
            clients: Vec::new(),
            queues: Vec::new(),
            channels: Vec::new(),
            outbox: Vec::new(),
            port,
        };
        assert(r@ =~= spec_new(port));
        r
    }

    /// Share a file under a fresh id and announce it. Where the fresh id is
    /// already taken, the new file replaces the one that had it.
    pub fn add_file(&mut self, name: String, size: u64, path: String) -> (file: FileInfo)
        requires
            wf(old(self)@),
        ensures
            uuid_text(file@.id),
            file@.name == name@,
            file@.size == size,
            file@.path == path@,
            final(self)@ == spec_add_file(old(self)@, file@),
            wf(final(self)@),
    {
        let id = new_id();
        self.add_file_with_id(id, name, size, path)
    }

    /// Share a file under the id `id` and announce it.
    pub fn add_file_with_id(&mut self, id: String, name: String, size: u64, path: String) -> (file: FileInfo)
        requires
            wf(old(self)@),
        ensures
            file@ == (SpecFileInfo { id: id@, name: name@, size, path: path@ }),
            final(self)@ == spec_add_file(old(self)@, file@),
            wf(final(self)@),
    {
        let ghost s = self@;
        let file = FileInfo { id, name, size, path };
        let ghost fv = file@;
        proof {
            lemma_upsert(s.files, fv);
        }
        match find_file(&self.files, &file.id) {
            Some(i) => {
                self.files.set(i, file.duplicate());
            },
            None => {
                self.files.push(file.duplicate());
            },
        }
        assert(self@.files =~= upsert(s.files, fv));
        self.broadcast(SseEvent::FileAdded(file.duplicate()));
        proof {
            assert(self@ =~= spec_add_file(s, fv));
        }
        file
    }

    /// Stop sharing file `id`: drop it and its queue and announce it. Returns
    /// whether it was shared.
    pub fn remove_file(&mut self, id: &str) -> (removed: bool)
        requires
            wf(old(self)@),
        ensures
            removed == has_key(old(self)@.files, id@),
            final(self)@ == spec_remove_file(old(self)@, id@),
            wf(final(self)@),
    {
        let ghost s = self@;
        let key = id.to_owned();
        proof {
            lemma_key_index(s.files, id@);
            lemma_key_index(s.queues, id@);
            lemma_remove_key(s.files, id@);
            lemma_remove_key(s.queues, id@);
        }
        match find_file(&self.files, &key) {
            None => false,
            Some(i) => {
                self.files.remove(i);
                assert(self@.files =~= remove_key(s.files, id@));
                match find_queue(&self.queues, &key) {
                    Some(qi) => {
                        self.queues.remove(qi);
                    },
                    None => {},
                }
                assert(self@.queues =~= remove_key(s.queues, id@));
                proof {
                    lemma_remove_file_wf(s, id@);
                    assert(self@ =~= SpecAppState { files: remove_key(s.files, id@), queues: remove_key(s.queues, id@), ..s });
                }
                self.broadcast(SseEvent::FileRemoved(key));
                true
            },
        }
    }

    /// The shared files.
    pub fn list_files(&self) -> (r: Vec<FileInfo>)
        ensures
            r@.map_values(|f: FileInfo| f@) == self@.files,
    {
        let mut r: Vec<FileInfo> = Vec::new();
        let mut i: usize = 0;
        while i < self.files.len()
            invariant
                i <= self.files.len(),
                r@.len() == i,
                r@.map_values(|f: FileInfo| f@) == self@.files.take(i as int),
            decreases self.files.len() - i,
        {
            let ghost before = r@;
            let d = self.files[i].duplicate();
            r.push(d);
            assert(r@.map_values(|f: FileInfo| f@) =~= self@.files.take(i as int + 1)) by {
                assert(before.map_values(|f: FileInfo| f@) =~= self@.files.take(i as int));
                assert forall|j: int| 0 <= j < i + 1 implies r@.map_values(|f: FileInfo| f@)[j] == #[trigger] self@.files.take(i as int + 1)[j] by {
                    if j < i {
                        assert(r@[j] == before[j]);
                        assert(before.map_values(|f: FileInfo| f@)[j] == self@.files.take(i as int)[j]);
                    }
                }
            }
            i += 1;
        }
        assert(self@.files.take(i as int) =~= self@.files);
        r
    }

    /// The shared file with id `id`, if any.
    pub fn get_file(&self, id: &str) -> (r: Option<FileInfo>)
        requires
            wf(self@),
        ensures
            match r {
                Some(f) => lookup(self@.files, id@) == Some(f@),
                None => lookup(self@.files, id@) is None,
            },
    {
        let key = id.to_owned();
        match find_file(&self.files, &key) {
            Some(i) => Some(self.files[i].duplicate()),
            None => None,
        }
    }

    /// Connect a downloader under a fresh id and return the id. Where the fresh
    /// id is already taken, the new downloader replaces the one that had it.
    pub fn register_client(&mut self) -> (id: String)
        requires
            wf(old(self)@),
        ensures
            uuid_text(id@),
            final(self)@ == spec_register_client(old(self)@, id@),
            wf(final(self)@),
    {
        let id = new_id();
        self.register_client_with_id(id.clone());
        id
    }

    /// Connect downloader `id`.
    pub fn register_client_with_id(&mut self, id: String)
        requires
            wf(old(self)@),
        ensures
            final(self)@ == spec_register_client(old(self)@, id@),
            wf(final(self)@),
    {
        let ghost s = self@;
        let client = crate::types::ConnectedClient { id, completed_files: Vec::new(), is_relaying: false };
        let ghost cv = client@;
        assert(cv == SpecClient { id: cv.id, completed_files: Seq::empty(), is_relaying: false }) by {
            assert(texts(client.completed_files@) =~= Seq::<Seq<char>>::empty());
        }
        proof {
            lemma_upsert(s.clients, cv);
        }
        match find_client(&self.clients, &client.id) {
            Some(i) => {
                self.clients.set(i, client);
            },
            None => {
                self.clients.push(client);
            },
        }
        proof {
            assert(self@.clients =~= upsert(s.clients, cv));
            assert(self@ =~= spec_register_client(s, cv.id));
        }
    }

    /// Take downloader `c` out of every queue.
    pub(crate) fn strip_client(&mut self, c: &String)
        requires
            wf(old(self)@),
        ensures
            final(self)@ == strip_client_items(old(self)@, c@),
            wf(final(self)@),
    {
        let ghost s = self@;
        let mut qi: usize = 0;
        while qi < self.queues.len()
            invariant
                wf(s),
                qi <= self.queues.len(),
                self.queues.len() == s.queues.len(),
                self@.files == s.files,
                self@.clients == s.clients,
                self@.channels == s.channels,
                self@.outbox == s.outbox,
                self@.port == s.port,
                forall|j: int| 0 <= j < qi ==> #[trigger] self@.queues[j] == strip_queue(s.queues[j], c@),
                forall|j: int| qi <= j < s.queues.len() ==> #[trigger] self@.queues[j] == s.queues[j],
            decreases self.queues.len() - qi,
        {
            proof {
                self.lemma_view_queues(qi as int);
            }
            let kept = items_without(&self.queues[qi].1.items, c);
            let ghost prev = self.queues@;
            let ghost pv = self@;
            self.queues[qi].1.items = kept;
            proof {
                self.lemma_view_queues(qi as int);
                assert forall|j: int| 0 <= j < self.queues.len() && j != qi implies self.queues@[j] == prev[j] by {}
                assert forall|j: int| 0 <= j < self.queues.len() && j != qi implies #[trigger] self@.queues[j] == pv.queues[j] by {
                    assert(self.queues@[j] == prev[j]);
                }
                assert(self@.queues[qi as int] == strip_queue(s.queues[qi as int], c@));
            }
            qi += 1;
        }
        proof {
            let t = strip_client_items(s, c@);
            assert(self@.queues =~= t.queues);
            assert(self@ =~= t);
            assert forall|i: int| 0 <= i < t.queues.len() implies unique_keys(#[trigger] t.queues[i].items) by {
                lemma_filter_unique(s.queues[i].items, other_client(c@));
            }
            assert forall|i: int, j: int|
                0 <= i < t.queues.len() && 0 <= j < t.queues.len() && i != j implies #[trigger] t.queues[i].key()
                != #[trigger] t.queues[j].key() by {
                assert(t.queues[i].key() == s.queues[i].key());
                assert(t.queues[j].key() == s.queues[j].key());
            }
        }
    }

    /// Forget downloader `client_id` and take it out of every queue.
    pub fn remove_client(&mut self, client_id: &str)
        requires
            wf(old(self)@),
        ensures
            final(self)@ == spec_remove_client(old(self)@, client_id@),
            wf(final(self)@),
    {
        let ghost s = self@;
        let key = client_id.to_owned();
        proof {
            lemma_key_index(s.clients, client_id@);
            lemma_remove_key(s.clients, client_id@);
        }
        match find_client(&self.clients, &key) {
            Some(i) => {
                self.clients.remove(i);
            },
            None => {},
        }
        assert(self@.clients =~= remove_key(s.clients, client_id@));
        assert(self@ =~= SpecAppState { clients: remove_key(s.clients, client_id@), ..s });
        self.strip_client(&key);
    }

    /// Record that downloader `client_id` holds file `file_id` and can relay it.
    pub fn register_relay(&mut self, client_id: &str, file_id: &str)
        requires
            wf(old(self)@),
        ensures
            final(self)@ == add_completed(old(self)@, client_id@, file_id@),
            wf(final(self)@),
    {
        let c = client_id.to_owned();
        let f = file_id.to_owned();
        self.put_completed(&c, &f);
    }

    /// Hand over the events decided so far, oldest first, and forget them.
    pub fn take_events(&mut self) -> (events: Vec<SseEvent>)
        requires
            wf(old(self)@),
        ensures
            events@.map_values(|e: SseEvent| e@) == old(self)@.outbox,
            final(self)@ == (SpecAppState { outbox: Seq::empty(), ..old(self)@ }),
            wf(final(self)@),
    {
        let ghost s = self@;
        let mut events: Vec<SseEvent> = Vec::new();
        std::mem::swap(&mut events, &mut self.outbox);
        proof {
            assert(self@.outbox =~= Seq::<SpecSseEvent>::empty());
            assert(self@ =~= SpecAppState { outbox: Seq::empty(), ..s });
        }
        events
    }
}

} // verus!

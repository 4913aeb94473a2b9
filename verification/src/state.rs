//! The share side's state: shared files, connected downloaders, one queue per
//! file, open transfer channels, and the events not yet pushed to downloaders.
use crate::keyed::{
    has_key, key_index, lemma_filter_unique, lemma_key_index, lemma_unique_index,
    lemma_update_same_key, lemma_upsert, lookup, unique_keys, upsert, Keyed,
};
use crate::types::{
    texts, ConnectedClient, DownloadState, FileInfo, FileQueue, QueueItem, SpecChannel, SpecClient,
    SpecFileInfo, SpecQueue, SpecQueueItem, SpecSseEvent, SseEvent, TransferChannel,
};
use vstd::prelude::*;

verus! {

/// The whole state of the share side.
pub struct AppState {
    pub files: Vec<FileInfo>,
    pub clients: Vec<ConnectedClient>,
    /// file id and that file's download queue
    pub queues: Vec<(String, FileQueue)>,
    pub channels: Vec<TransferChannel>,
    /// events decided but not yet pushed to the downloaders, oldest first
    pub outbox: Vec<SseEvent>,
    pub port: u16,
}

#[verifier::ext_equal]
pub struct SpecAppState {
    pub files: Seq<SpecFileInfo>,
    pub clients: Seq<SpecClient>,
    pub queues: Seq<SpecQueue>,
    pub channels: Seq<SpecChannel>,
    pub outbox: Seq<SpecSseEvent>,
    pub port: u16,
}

pub open spec fn queue_view(e: (String, FileQueue)) -> SpecQueue {
    SpecQueue { file_id: e.0@, items: e.1@ }
}

impl View for AppState {
    type V = SpecAppState;

    open spec fn view(&self) -> SpecAppState {
        SpecAppState {
            files: self.files@.map_values(|f: FileInfo| f@),
            clients: self.clients@.map_values(|c: ConnectedClient| c@),
            queues: self.queues@.map_values(|e: (String, FileQueue)| queue_view(e)),
            channels: self.channels@.map_values(|c: TransferChannel| c@),
            outbox: self.outbox@.map_values(|e: SseEvent| e@),
            port: self.port,
        }
    }
}

/// Each file, downloader, queue and channel is held once under its id, each
/// queue holds each downloader at most once, and only shared files have a queue.
pub open spec fn wf(s: SpecAppState) -> bool {
    &&& unique_keys(s.files)
    &&& unique_keys(s.clients)
    &&& unique_keys(s.queues)
    &&& unique_keys(s.channels)
    &&& forall|i: int| 0 <= i < s.queues.len() ==> unique_keys(#[trigger] s.queues[i].items)
    &&& forall|i: int| 0 <= i < s.queues.len() ==> has_key(s.files, (#[trigger] s.queues[i]).file_id)
}

/// The items of the queue of file `f`; none where the file has no queue.
pub open spec fn queue_items(s: SpecAppState, f: Seq<char>) -> Seq<SpecQueueItem> {
    match lookup(s.queues, f) {
        Some(q) => q.items,
        None => Seq::empty(),
    }
}

/// Downloader `c` has an item in the queue of file `f`.
pub open spec fn has_item(s: SpecAppState, f: Seq<char>, c: Seq<char>) -> bool {
    has_key(s.queues, f) && has_key(queue_items(s, f), c)
}

/// The item of downloader `c` in the queue of file `f` (meaningful where `has_item`).
pub open spec fn item_of(s: SpecAppState, f: Seq<char>, c: Seq<char>) -> SpecQueueItem {
    queue_items(s, f)[key_index(queue_items(s, f), c)]
}

/// Replace the item of `c` in the queue of `f` by `it`, where there is such an item.
pub open spec fn put_item(s: SpecAppState, f: Seq<char>, c: Seq<char>, it: SpecQueueItem) -> SpecAppState {
    if has_item(s, f, c) {
        let qi = key_index(s.queues, f);
        let items = s.queues[qi].items;
        SpecAppState {
            queues: s.queues.update(
                qi,
                SpecQueue { file_id: f, items: items.update(key_index(items, c), it) },
            ),
            ..s
        }
    } else {
        s
    }
}

/// Set the state of `c` in the queue of `f`, where it is queued for `f`.
pub open spec fn set_item_state(s: SpecAppState, f: Seq<char>, c: Seq<char>, st: DownloadState) -> SpecAppState {
    put_item(s, f, c, SpecQueueItem { state: st, ..item_of(s, f, c) })
}

/// Record that relay `r` failed to deliver `f` to `c`, unless already recorded.
pub open spec fn add_failed_relay(s: SpecAppState, f: Seq<char>, c: Seq<char>, r: Seq<char>) -> SpecAppState {
    let it = item_of(s, f, c);
    if it.failed_relays.contains(r) {
        s
    } else {
        put_item(s, f, c, SpecQueueItem { failed_relays: it.failed_relays.push(r), ..it })
    }
}

/// Forget the failed relays recorded for `c` in the queue of `f`.
pub open spec fn clear_failed_relays(s: SpecAppState, f: Seq<char>, c: Seq<char>) -> SpecAppState {
    put_item(s, f, c, SpecQueueItem { failed_relays: Seq::empty(), ..item_of(s, f, c) })
}

/// Set whether downloader `c` is relaying, where it is connected.
pub open spec fn set_relaying(s: SpecAppState, c: Seq<char>, b: bool) -> SpecAppState {
    if has_key(s.clients, c) {
        let i = key_index(s.clients, c);
        SpecAppState {
            clients: s.clients.update(i, SpecClient { is_relaying: b, ..s.clients[i] }),
            ..s
        }
    } else {
        s
    }
}

/// Record that downloader `c` holds file `f`, where it is connected and it was
/// not recorded yet.
pub open spec fn add_completed(s: SpecAppState, c: Seq<char>, f: Seq<char>) -> SpecAppState {
    if has_key(s.clients, c) && !s.clients[key_index(s.clients, c)].completed_files.contains(f) {
        let i = key_index(s.clients, c);
        SpecAppState {
            clients: s.clients.update(
                i,
                SpecClient { completed_files: s.clients[i].completed_files.push(f), ..s.clients[i] },
            ),
            ..s
        }
    } else {
        s
    }
}

pub open spec fn push_event(s: SpecAppState, e: SpecSseEvent) -> SpecAppState {
    SpecAppState { outbox: s.outbox.push(e), ..s }
}

pub open spec fn put_channel(s: SpecAppState, ch: SpecChannel) -> SpecAppState {
    SpecAppState { channels: upsert(s.channels, ch), ..s }
}

/// Which channels a clean-up closes.
pub enum ChannelSel {
    /// the channels that bring `file` to `target`
    ToTarget { file: String, target: String },
    /// the channel from `source` to `target` for `file`
    Pair { file: String, source: String, target: String },
    /// every channel from or to `client`
    Touching { client: String },
}

pub enum SpecChannelSel {
    ToTarget { file: Seq<char>, target: Seq<char> },
    Pair { file: Seq<char>, source: Seq<char>, target: Seq<char> },
    Touching { client: Seq<char> },
}

impl View for ChannelSel {
    type V = SpecChannelSel;

    open spec fn view(&self) -> SpecChannelSel {
        match self {
            ChannelSel::ToTarget { file, target } => SpecChannelSel::ToTarget {
                file: file@,
                target: target@,
            },
            ChannelSel::Pair { file, source, target } => SpecChannelSel::Pair {
                file: file@,
                source: source@,
                target: target@,
            },
            ChannelSel::Touching { client } => SpecChannelSel::Touching { client: client@ },
        }
    }
}

pub open spec fn selected(sel: SpecChannelSel, ch: SpecChannel) -> bool {
    match sel {
        SpecChannelSel::ToTarget { file, target } => ch.file_id == file && ch.target == target,
        SpecChannelSel::Pair { file, source, target } => ch.file_id == file && ch.source == source
            && ch.target == target,
        SpecChannelSel::Touching { client } => ch.source == client || ch.target == client,
    }
}

pub open spec fn keep_channel(sel: SpecChannelSel) -> spec_fn(SpecChannel) -> bool {
    |ch: SpecChannel| !selected(sel, ch)
}

/// Close the channels that `sel` selects.
pub open spec fn drop_channels(s: SpecAppState, sel: SpecChannelSel) -> SpecAppState {
    SpecAppState { channels: s.channels.filter(keep_channel(sel)), ..s }
}

/// `r` is where key `k` stands in `s`, or `None` where it stands nowhere.
pub open spec fn found<T: Keyed>(s: Seq<T>, k: Seq<char>, r: Option<usize>) -> bool {
    match r {
        Some(i) => has_key(s, k) && i as int == key_index(s, k),
        None => !has_key(s, k),
    }
}

pub proof fn lemma_found_first<T: Keyed>(s: Seq<T>, k: Seq<char>, i: usize)
    requires
        unique_keys(s),
        i < s.len(),
        s[i as int].key() == k,
    ensures
        found(s, k, Some(i)),
{
    lemma_unique_index(s, i as int);
}

pub(crate) fn find_file(files: &Vec<FileInfo>, id: &String) -> (r: Option<usize>)
    requires
        unique_keys(files@.map_values(|f: FileInfo| f@)),
    ensures
        found(files@.map_values(|f: FileInfo| f@), id@, r),
{
    let ghost v = files@.map_values(|f: FileInfo| f@);
    let mut i: usize = 0;
    while i < files.len()
        invariant
            v == files@.map_values(|f: FileInfo| f@),
            unique_keys(v),
            i <= files.len(),
            forall|j: int| 0 <= j < i ==> (#[trigger] v[j]).key() != id@,
        decreases files.len() - i,
    {
        if files[i].id == *id {
            proof {
                lemma_found_first(v, id@, i);
            }
            return Some(i);
        }
        i += 1;
    }
    None
}

pub(crate) fn find_client(clients: &Vec<ConnectedClient>, id: &String) -> (r: Option<usize>)
    requires
        unique_keys(clients@.map_values(|c: ConnectedClient| c@)),
    ensures
        found(clients@.map_values(|c: ConnectedClient| c@), id@, r),
{
    let ghost v = clients@.map_values(|c: ConnectedClient| c@);
    let mut i: usize = 0;
    while i < clients.len()
        invariant
            v == clients@.map_values(|c: ConnectedClient| c@),
            unique_keys(v),
            i <= clients.len(),
            forall|j: int| 0 <= j < i ==> (#[trigger] v[j]).key() != id@,
        decreases clients.len() - i,
    {
        if clients[i].id == *id {
            proof {
                lemma_found_first(v, id@, i);
            }
            return Some(i);
        }
        i += 1;
    }
    None
}

pub(crate) fn find_queue(queues: &Vec<(String, FileQueue)>, id: &String) -> (r: Option<usize>)
    requires
        unique_keys(queues@.map_values(|e: (String, FileQueue)| queue_view(e))),
    ensures
        found(queues@.map_values(|e: (String, FileQueue)| queue_view(e)), id@, r),
{
    let ghost v = queues@.map_values(|e: (String, FileQueue)| queue_view(e));
    let mut i: usize = 0;
    while i < queues.len()
        invariant
            v == queues@.map_values(|e: (String, FileQueue)| queue_view(e)),
            unique_keys(v),
            i <= queues.len(),
            forall|j: int| 0 <= j < i ==> (#[trigger] v[j]).key() != id@,
        decreases queues.len() - i,
    {
        if queues[i].0 == *id {
            proof {
                lemma_found_first(v, id@, i);
            }
            return Some(i);
        }
        i += 1;
    }
    None
}

pub(crate) fn find_channel(channels: &Vec<TransferChannel>, id: &String) -> (r: Option<usize>)
    requires
        unique_keys(channels@.map_values(|c: TransferChannel| c@)),
    ensures
        found(channels@.map_values(|c: TransferChannel| c@), id@, r),
{
    let ghost v = channels@.map_values(|c: TransferChannel| c@);
    let mut i: usize = 0;
    while i < channels.len()
        invariant
            v == channels@.map_values(|c: TransferChannel| c@),
            unique_keys(v),
            i <= channels.len(),
            forall|j: int| 0 <= j < i ==> (#[trigger] v[j]).key() != id@,
        decreases channels.len() - i,
    {
        if channels[i].channel_id == *id {
            proof {
                lemma_found_first(v, id@, i);
            }
            return Some(i);
        }
        i += 1;
    }
    None
}

pub(crate) fn find_item(items: &Vec<QueueItem>, id: &String) -> (r: Option<usize>)
    requires
        unique_keys(items@.map_values(|it: QueueItem| it@)),
    ensures
        found(items@.map_values(|it: QueueItem| it@), id@, r),
{
    let ghost v = items@.map_values(|it: QueueItem| it@);
    let mut i: usize = 0;
    while i < items.len()
        invariant
            v == items@.map_values(|it: QueueItem| it@),
            unique_keys(v),
            i <= items.len(),
            forall|j: int| 0 <= j < i ==> (#[trigger] v[j]).key() != id@,
        decreases items.len() - i,
    {
        if items[i].client_id == *id {
            proof {
                lemma_found_first(v, id@, i);
            }
            return Some(i);
        }
        i += 1;
    }
    None
}

/// Whether the texts `v` hold `x`.
pub fn contains_text(v: &Vec<String>, x: &String) -> (r: bool)
    ensures
        r == texts(v@).contains(x@),
{
    let mut i: usize = 0;
    while i < v.len()
        invariant
            i <= v.len(),
            forall|j: int| 0 <= j < i ==> (#[trigger] texts(v@)[j]) != x@,
        decreases v.len() - i,
    {
        if v[i] == *x {
            assert(texts(v@)[i as int] == x@);
            return true;
        }
        i += 1;
    }
    false
}

impl AppState {
    /// Where downloader `c` stands in the queue of file `f`.
    pub(crate) fn locate_item(&self, f: &String, c: &String) -> (r: Option<(usize, usize)>)
        requires
            wf(self@),
        ensures
            match r {
                Some((qi, ii)) => {
                    &&& has_item(self@, f@, c@)
                    &&& qi as int == key_index(self@.queues, f@)
                    &&& ii as int == key_index(queue_items(self@, f@), c@)
                    &&& qi < self.queues.len()
                    &&& ii < self.queues@[qi as int].1.items.len()
                },
                None => !has_item(self@, f@, c@),
            },
    {
        match find_queue(&self.queues, f) {
            None => None,
            Some(qi) => {
                proof {
                    lemma_key_index(self@.queues, f@);
                    assert(self@.queues[qi as int].items == self.queues@[qi as int].1@);
                }
                match find_item(&self.queues[qi].1.items, c) {
                    None => None,
                    Some(ii) => Some((qi, ii)),
                }
            },
        }
    }
}


/// Replacing an item by one of the same downloader keeps the state well formed
/// and the queues' and items' keys where they were.
pub proof fn lemma_put_item(s: SpecAppState, f: Seq<char>, c: Seq<char>, it: SpecQueueItem)
    requires
        wf(s),
        has_item(s, f, c) ==> it.client_id == c,
    ensures
        wf(put_item(s, f, c, it)),
        put_item(s, f, c, it).files == s.files,
        put_item(s, f, c, it).clients == s.clients,
        put_item(s, f, c, it).channels == s.channels,
        put_item(s, f, c, it).outbox == s.outbox,
        forall|g: Seq<char>, d: Seq<char>|
            #[trigger] has_item(put_item(s, f, c, it), g, d) == has_item(s, g, d),
        has_item(s, f, c) ==> item_of(put_item(s, f, c, it), f, c) == it,
        forall|g: Seq<char>, d: Seq<char>|
            has_item(s, g, d) && !(g == f && d == c) ==> #[trigger] item_of(put_item(s, f, c, it), g, d)
                == item_of(s, g, d),
        forall|g: Seq<char>| g != f ==> #[trigger] queue_items(put_item(s, f, c, it), g) == queue_items(s, g),
{
    if has_item(s, f, c) {
        let qi = key_index(s.queues, f);
        lemma_key_index(s.queues, f);
        let items = s.queues[qi].items;
        assert(queue_items(s, f) == items);
        let ii = key_index(items, c);
        lemma_key_index(items, c);
        let nitems = items.update(ii, it);
        let nq = SpecQueue { file_id: f, items: nitems };
        let t = put_item(s, f, c, it);
        lemma_update_same_key(items, ii, it);
        lemma_update_same_key(s.queues, qi, nq);
        assert forall|i: int| 0 <= i < t.queues.len() implies unique_keys(#[trigger] t.queues[i].items) by {
            if i != qi {
                assert(t.queues[i] == s.queues[i]);
            }
        }
        assert forall|g: Seq<char>| #[trigger] queue_items(t, g) == (if g == f { nitems } else { queue_items(s, g) }) by {
            lemma_key_index(s.queues, g);
            if has_key(s.queues, g) {
                lemma_unique_index(t.queues, key_index(s.queues, g));
            }
        }
        assert(queue_items(t, f) == nitems);
        assert forall|g: Seq<char>, d: Seq<char>|
            #[trigger] has_item(t, g, d) == has_item(s, g, d) by {
            assert(queue_items(t, g) == (if g == f { nitems } else { queue_items(s, g) }));
        }
        assert forall|g: Seq<char>, d: Seq<char>|
            has_item(s, g, d) && !(g == f && d == c) implies #[trigger] item_of(t, g, d) == item_of(s, g, d) by {
            assert(queue_items(t, g) == (if g == f { nitems } else { queue_items(s, g) }));
            if g == f {
                lemma_key_index(items, d);
            }
        }
    }
}

/// Recording a held file keeps the state well formed, and the downloader then
/// holds the file.
pub proof fn lemma_add_completed(s: SpecAppState, c: Seq<char>, f: Seq<char>)
    requires
        wf(s),
    ensures
        wf(add_completed(s, c, f)),
        add_completed(s, c, f).queues == s.queues,
        add_completed(s, c, f).files == s.files,
        add_completed(s, c, f).channels == s.channels,
        forall|d: Seq<char>| #[trigger] has_key(add_completed(s, c, f).clients, d) == has_key(s.clients, d),
        has_key(s.clients, c) ==> (lookup(add_completed(s, c, f).clients, c) matches Some(cl)
            && cl.completed_files.contains(f)),
{
    lemma_key_index(s.clients, c);
    if has_key(s.clients, c) {
        let i = key_index(s.clients, c);
        let cl = s.clients[i];
        let x = if cl.completed_files.contains(f) { cl } else { SpecClient { completed_files: cl.completed_files.push(f), ..cl } };
        lemma_update_same_key(s.clients, i, x);
        let t = add_completed(s, c, f);
        assert(t.clients == s.clients.update(i, x));
        lemma_unique_index(t.clients, i);
        if !cl.completed_files.contains(f) {
            assert(x.completed_files[cl.completed_files.len() as int] == f);
        }
    }
}

/// Changing whether a downloader relays keeps the state well formed.
pub proof fn lemma_set_relaying(s: SpecAppState, c: Seq<char>, b: bool)
    requires
        wf(s),
    ensures
        wf(set_relaying(s, c, b)),
        set_relaying(s, c, b).queues == s.queues,
        set_relaying(s, c, b).files == s.files,
        set_relaying(s, c, b).channels == s.channels,
        forall|d: Seq<char>| #[trigger] has_key(set_relaying(s, c, b).clients, d) == has_key(s.clients, d),
        has_key(s.clients, c) ==> (lookup(set_relaying(s, c, b).clients, c) matches Some(cl) && cl.is_relaying == b),
        forall|d: Seq<char>| d != c ==> #[trigger] lookup(set_relaying(s, c, b).clients, d) == lookup(s.clients, d),
{
    lemma_key_index(s.clients, c);
    if has_key(s.clients, c) {
        let i = key_index(s.clients, c);
        lemma_update_same_key(s.clients, i, SpecClient { is_relaying: b, ..s.clients[i] });
        lemma_unique_index(set_relaying(s, c, b).clients, i);
        assert forall|d: Seq<char>| d != c implies #[trigger] lookup(set_relaying(s, c, b).clients, d) == lookup(s.clients, d) by {
            lemma_key_index(s.clients, d);
        }
    }
}

/// Closing channels keeps the state well formed.
pub proof fn lemma_drop_channels(s: SpecAppState, sel: SpecChannelSel)
    requires
        wf(s),
    ensures
        wf(drop_channels(s, sel)),
        forall|i: int| 0 <= i < drop_channels(s, sel).channels.len() ==> !selected(sel, #[trigger] drop_channels(s, sel).channels[i]),
{
    lemma_filter_unique(s.channels, keep_channel(sel));
    assert forall|i: int| 0 <= i < drop_channels(s, sel).channels.len() implies !selected(sel, #[trigger] drop_channels(s, sel).channels[i]) by {
        s.channels.lemma_filter_pred(keep_channel(sel), i);
    }
}

impl AppState {
    pub(crate) proof fn lemma_view_queues(&self, qi: int)
        requires
            0 <= qi < self.queues.len(),
        ensures
            self@.queues[qi] == queue_view(self.queues@[qi]),
            self@.queues[qi].items == self.queues@[qi].1@,
            self@.queues[qi].file_id == self.queues@[qi].0@,
    {
    }

    /// Set the state of downloader `c` in the queue of file `f`.
    pub(crate) fn put_item_state(&mut self, f: &String, c: &String, st: DownloadState)
        requires
            wf(old(self)@),
        ensures
            final(self)@ == set_item_state(old(self)@, f@, c@, st),
            wf(final(self)@),
    {
        let ghost s = self@;
        match self.locate_item(f, c) {
            None => {},
            Some((qi, ii)) => {
                proof {
                    lemma_key_index(s.queues, f@);
                    self.lemma_view_queues(qi as int);
                    lemma_put_item(s, f@, c@, SpecQueueItem { state: st, ..item_of(s, f@, c@) });
                }
                let ghost old_items = self.queues@[qi as int].1.items@;
                self.queues[qi].1.items[ii].state = st;
                proof {
                    let t = set_item_state(s, f@, c@, st);
                    let new_items = self.queues@[qi as int].1.items@;
                    assert(new_items.len() == old_items.len());
                    assert(self.queues@[qi as int].1@ =~= t.queues[qi as int].items);
                    assert(self@.queues[qi as int] == t.queues[qi as int]);
                    assert(self@.queues =~= t.queues);
                    assert(self@ =~= t);
                }
            },
        }
    }

    /// Record that relay `r` failed to deliver file `f` to downloader `c`.
    pub(crate) fn put_failed_relay(&mut self, f: &String, c: &String, r: &String)
        requires
            wf(old(self)@),
        ensures
            final(self)@ == add_failed_relay(old(self)@, f@, c@, r@),
            wf(final(self)@),
    {
        let ghost s = self@;
        match self.locate_item(f, c) {
            None => {},
            Some((qi, ii)) => {
                proof {
                    lemma_key_index(s.queues, f@);
                    self.lemma_view_queues(qi as int);
                }
                if !contains_text(&self.queues[qi].1.items[ii].failed_relays, r) {
                    proof {
                        let it = item_of(s, f@, c@);
                        lemma_put_item(s, f@, c@, SpecQueueItem { failed_relays: it.failed_relays.push(r@), ..it });
                    }
                    let ghost old_items = self.queues@[qi as int].1.items@;
                    let ghost old_failed = old_items[ii as int].failed_relays@;
                    self.queues[qi].1.items[ii].failed_relays.push(r.clone());
                    proof {
                        let t = add_failed_relay(s, f@, c@, r@);
                        let new_items = self.queues@[qi as int].1.items@;
                        assert(texts(new_items[ii as int].failed_relays@) =~= texts(old_failed).push(r@));
                        assert(self.queues@[qi as int].1@ =~= t.queues[qi as int].items);
                        assert(self@.queues =~= t.queues);
                        assert(self@ =~= t);
                    }
                }
            },
        }
    }

    /// Forget the failed relays recorded for downloader `c` in the queue of file `f`.
    pub(crate) fn reset_failed_relays(&mut self, f: &String, c: &String)
        requires
            wf(old(self)@),
        ensures
            final(self)@ == clear_failed_relays(old(self)@, f@, c@),
            wf(final(self)@),
    {
        let ghost s = self@;
        match self.locate_item(f, c) {
            None => {},
            Some((qi, ii)) => {
                proof {
                    lemma_key_index(s.queues, f@);
                    self.lemma_view_queues(qi as int);
                    lemma_put_item(s, f@, c@, SpecQueueItem { failed_relays: Seq::empty(), ..item_of(s, f@, c@) });
                }
                self.queues[qi].1.items[ii].failed_relays = Vec::new();
                proof {
                    let t = clear_failed_relays(s, f@, c@);
                    let new_items = self.queues@[qi as int].1.items@;
                    assert(texts(new_items[ii as int].failed_relays@) =~= Seq::<Seq<char>>::empty());
                    assert(self.queues@[qi as int].1@ =~= t.queues[qi as int].items);
                    assert(self@.queues =~= t.queues);
                    assert(self@ =~= t);
                }
            },
        }
    }

    /// Set whether downloader `c` is relaying.
    pub(crate) fn put_relaying(&mut self, c: &String, b: bool)
        requires
            wf(old(self)@),
        ensures
            final(self)@ == set_relaying(old(self)@, c@, b),
            wf(final(self)@),
    {
        let ghost s = self@;
        match find_client(&self.clients, c) {
            None => {},
            Some(i) => {
                proof {
                    lemma_key_index(s.clients, c@);
                    lemma_update_same_key(s.clients, i as int, SpecClient { is_relaying: b, ..s.clients[i as int] });
                }
                self.clients[i].is_relaying = b;
                proof {
                    let t = set_relaying(s, c@, b);
                    assert(self@.clients =~= t.clients);
                    assert(self@ =~= t);
                }
            },
        }
    }

    /// Record that downloader `c` holds file `f`.
    pub(crate) fn put_completed(&mut self, c: &String, f: &String)
        requires
            wf(old(self)@),
        ensures
            final(self)@ == add_completed(old(self)@, c@, f@),
            wf(final(self)@),
    {
        let ghost s = self@;
        match find_client(&self.clients, c) {
            None => {},
            Some(i) => {
                proof {
                    lemma_key_index(s.clients, c@);
                }
                if !contains_text(&self.clients[i].completed_files, f) {
                    proof {
                        lemma_update_same_key(
                            s.clients,
                            i as int,
                            SpecClient { completed_files: s.clients[i as int].completed_files.push(f@), ..s.clients[i as int] },
                        );
                    }
                    let ghost old_files = self.clients@[i as int].completed_files@;
                    self.clients[i].completed_files.push(f.clone());
                    proof {
                        let t = add_completed(s, c@, f@);
                        assert(texts(self.clients@[i as int].completed_files@) =~= texts(old_files).push(f@));
                        assert(self@.clients =~= t.clients);
                        assert(self@ =~= t);
                    }
                }
            },
        }
    }

    /// Queue an event for the downloaders.
    pub fn broadcast(&mut self, event: SseEvent)
        requires
            wf(old(self)@),
        ensures
            final(self)@ == push_event(old(self)@, event@),
            final(self).queues@ == old(self).queues@,
            wf(final(self)@),
    {
        let ghost s = self@;
        self.outbox.push(event);
        proof {
            assert(self@.outbox =~= s.outbox.push(event@));
            assert(self@ =~= push_event(s, event@));
        }
    }

    /// Insert a channel, replacing the one with the same id, if any.
    pub(crate) fn insert_channel(&mut self, ch: TransferChannel)
        requires
            wf(old(self)@),
        ensures
            final(self)@ == put_channel(old(self)@, ch@),
            wf(final(self)@),
    {
        let ghost s = self@;
        proof {
            lemma_upsert(s.channels, ch@);
            lemma_key_index(s.channels, ch@.channel_id);
        }
        let ghost chv = ch@;
        match find_channel(&self.channels, &ch.channel_id) {
            Some(i) => {
                self.channels.set(i, ch);
            },
            None => {
                self.channels.push(ch);
            },
        }
        proof {
            assert(self@.channels =~= upsert(s.channels, chv));
            assert(self@ =~= put_channel(s, chv));
        }
    }

    /// Close the channels that `sel` selects.
    pub(crate) fn close_channels(&mut self, sel: &ChannelSel)
        requires
            wf(old(self)@),
        ensures
            final(self)@ == drop_channels(old(self)@, sel@),
            wf(final(self)@),
    {
        let ghost s = self@;
        let ghost p = keep_channel(sel@);
        let mut kept: Vec<TransferChannel> = Vec::new();
        let mut i: usize = 0;
        while i < self.channels.len()
            invariant
                self@ == s,
                p == keep_channel(sel@),
                i <= self.channels.len(),
                kept@.map_values(|c: TransferChannel| c@) == s.channels.take(i as int).filter(p),
            decreases self.channels.len() - i,
        {
            let ghost ch = s.channels[i as int];
            assert(s.channels.take(i as int + 1).filter(p) == (if p(ch) {
                s.channels.take(i as int).filter(p).push(ch)
            } else {
                s.channels.take(i as int).filter(p)
            })) by {
                reveal(Seq::filter);
                assert(s.channels.take(i as int + 1).drop_last() =~= s.channels.take(i as int));
            }
            if !selects(sel, &self.channels[i]) {
                let d = self.channels[i].duplicate();
                let ghost before = kept@;
                kept.push(d);
                assert(kept@.map_values(|c: TransferChannel| c@) =~= before.map_values(|c: TransferChannel| c@).push(ch));
            }
            i += 1;
        }
        assert(s.channels.take(i as int) =~= s.channels);
        self.channels = kept;
        proof {
            lemma_filter_unique(s.channels, p);
            assert(self@ =~= drop_channels(s, sel@));
        }
    }
}

/// Whether `sel` selects channel `ch`.
fn selects(sel: &ChannelSel, ch: &TransferChannel) -> (r: bool)
    ensures
        r == selected(sel@, ch@),
{
    match sel {
        ChannelSel::ToTarget { file, target } => ch.file_id == *file && ch.target == *target,
        ChannelSel::Pair { file, source, target } => ch.file_id == *file && ch.source == *source
            && ch.target == *target,
        ChannelSel::Touching { client } => ch.source == *client || ch.target == *client,
    }
}

} // verus!

//! The records of the service and their mathematical views, in which every text
//! is the sequence of its characters.
use crate::keyed::Keyed;
use vstd::prelude::*;

verus! {

/// Where a downloader stands with one file.
#[derive(Clone, Copy, Debug, PartialEq, Eq, Structural)]
pub enum DownloadState {
    Available,
    Queued,
    Downloading,
    Completed,
    Relaying,
}

/// How a transfer reaches its target: from the share side over HTTPS, or from
/// another downloader over a WebRTC data channel.
#[derive(Clone, Copy, Debug, PartialEq, Eq, Structural)]
pub enum ChannelType {
    Http,
    Webrtc,
}

/// A shared file.
#[derive(Clone, Debug)]
pub struct FileInfo {
    pub id: String,
    pub name: String,
    pub size: u64,
    pub path: String,
}

pub struct SpecFileInfo {
    pub id: Seq<char>,
    pub name: Seq<char>,
    pub size: u64,
    pub path: Seq<char>,
}

impl View for FileInfo {
    type V = SpecFileInfo;

    open spec fn view(&self) -> SpecFileInfo {
        SpecFileInfo { id: self.id@, name: self.name@, size: self.size, path: self.path@ }
    }
}

impl Keyed for SpecFileInfo {
    open spec fn key(&self) -> Seq<char> {
        self.id
    }
}

impl FileInfo {
    /// A field-by-field copy.
    pub fn duplicate(&self) -> (r: FileInfo)
        ensures
            r@ == self@,
    {
        FileInfo {
            id: self.id.clone(),
            name: self.name.clone(),
            size: self.size,
            path: self.path.clone(),
        }
    }
}

/// A change in the schedule of one downloader for one file.
#[derive(Clone, Debug)]
pub struct ScheduleEvent {
    pub file_id: String,
    pub client_id: String,
    pub state: DownloadState,
    pub queue_position: Option<usize>,
}

pub struct SpecScheduleEvent {
    pub file_id: Seq<char>,
    pub client_id: Seq<char>,
    pub state: DownloadState,
    pub queue_position: Option<usize>,
}

impl View for ScheduleEvent {
    type V = SpecScheduleEvent;

    open spec fn view(&self) -> SpecScheduleEvent {
        SpecScheduleEvent {
            file_id: self.file_id@,
            client_id: self.client_id@,
            state: self.state,
            queue_position: self.queue_position,
        }
    }
}

impl ScheduleEvent {
    pub fn duplicate(&self) -> (r: ScheduleEvent)
        ensures
            r@ == self@,
    {
        ScheduleEvent {
            file_id: self.file_id.clone(),
            client_id: self.client_id.clone(),
            state: self.state,
            queue_position: self.queue_position,
        }
    }
}

/// An open transfer of one file to one downloader.
#[derive(Clone, Debug)]
pub struct TransferChannel {
    pub channel_id: String,
    pub file_id: String,
    /// "server", or the id of the relaying downloader
    pub source: String,
    pub target: String,
    pub channel_type: ChannelType,
}

pub struct SpecChannel {
    pub channel_id: Seq<char>,
    pub file_id: Seq<char>,
    pub source: Seq<char>,
    pub target: Seq<char>,
    pub channel_type: ChannelType,
}

impl View for TransferChannel {
    type V = SpecChannel;

    open spec fn view(&self) -> SpecChannel {
        SpecChannel {
            channel_id: self.channel_id@,
            file_id: self.file_id@,
            source: self.source@,
            target: self.target@,
            channel_type: self.channel_type,
        }
    }
}

impl TransferChannel {
    pub fn duplicate(&self) -> (r: TransferChannel)
        ensures
            r@ == self@,
    {
        TransferChannel {
            channel_id: self.channel_id.clone(),
            file_id: self.file_id.clone(),
            source: self.source.clone(),
            target: self.target.clone(),
            channel_type: self.channel_type,
        }
    }
}

impl Keyed for SpecChannel {
    open spec fn key(&self) -> Seq<char> {
        self.channel_id
    }
}

/// The order given to a downloader that already has a file to send it to another.
#[derive(Clone, Debug)]
pub struct RelayAssignEvent {
    pub file_id: String,
    pub source_client_id: String,
    pub target_client_id: String,
    pub file_size: u64,
    pub channel_id: String,
}

pub struct SpecRelayAssign {
    pub file_id: Seq<char>,
    pub source_client_id: Seq<char>,
    pub target_client_id: Seq<char>,
    pub file_size: u64,
    pub channel_id: Seq<char>,
}

impl View for RelayAssignEvent {
    type V = SpecRelayAssign;

    open spec fn view(&self) -> SpecRelayAssign {
        SpecRelayAssign {
            file_id: self.file_id@,
            source_client_id: self.source_client_id@,
            target_client_id: self.target_client_id@,
            file_size: self.file_size,
            channel_id: self.channel_id@,
        }
    }
}

/// Progress of one transfer, as a downloader reports it.
#[derive(Clone, Debug)]
pub struct DownloadProgressEvent {
    pub file_id: String,
    pub client_id: String,
    pub downloaded_bytes: u64,
    pub total_bytes: u64,
    pub speed: u64,
}

/// A connected downloader.
#[derive(Clone, Debug)]
pub struct ConnectedClient {
    pub id: String,
    /// the files this downloader has completed, which it can relay
    pub completed_files: Vec<String>,
    /// whether it is sending a relayed copy right now
    pub is_relaying: bool,
}

pub struct SpecClient {
    pub id: Seq<char>,
    pub completed_files: Seq<Seq<char>>,
    pub is_relaying: bool,
}

pub open spec fn texts(v: Seq<String>) -> Seq<Seq<char>> {
    v.map_values(|s: String| s@)
}

impl View for ConnectedClient {
    type V = SpecClient;

    open spec fn view(&self) -> SpecClient {
        SpecClient {
            id: self.id@,
            completed_files: texts(self.completed_files@),
            is_relaying: self.is_relaying,
        }
    }
}

impl Keyed for SpecClient {
    open spec fn key(&self) -> Seq<char> {
        self.id
    }
}

/// One downloader waiting for, or receiving, one file.
#[derive(Clone, Debug)]
pub struct QueueItem {
    pub client_id: String,
    pub state: DownloadState,
    /// relays that failed to deliver this file to this downloader
    pub failed_relays: Vec<String>,
}

pub struct SpecQueueItem {
    pub client_id: Seq<char>,
    pub state: DownloadState,
    pub failed_relays: Seq<Seq<char>>,
}

impl View for QueueItem {
    type V = SpecQueueItem;

    open spec fn view(&self) -> SpecQueueItem {
        SpecQueueItem {
            client_id: self.client_id@,
            state: self.state,
            failed_relays: texts(self.failed_relays@),
        }
    }
}

pub proof fn lemma_texts_push(v: Seq<String>, x: String)
    ensures
        texts(v.push(x)) == texts(v).push(x@),
{
    assert(texts(v.push(x)) =~= texts(v).push(x@));
}

/// A copy of a list of texts.
pub fn copy_texts(v: &Vec<String>) -> (r: Vec<String>)
    ensures
        texts(r@) == texts(v@),
{
    let mut r: Vec<String> = Vec::new();
    let mut i: usize = 0;
    while i < v.len()
        invariant
            i <= v.len(),
            r@.len() == i,
            texts(r@) == texts(v@).take(i as int),
        decreases v.len() - i,
    {
        let ghost before = r@;
        let x = v[i].clone();
        r.push(x);
        assert(r@ == before.push(v@[i as int]));
        assert(texts(r@) =~= texts(v@).take(i as int + 1)) by {
            assert(texts(before) =~= texts(v@).take(i as int));
            assert(texts(r@).len() == i + 1);
            assert forall|j: int| 0 <= j < i + 1 implies texts(r@)[j] == texts(v@).take(i as int + 1)[j] by {
                if j < i {
                    assert(texts(r@)[j] == r@[j]@);
                    assert(r@[j] == before[j]);
                }
            }
        }
        i += 1;
    }
    assert(texts(v@).take(i as int) =~= texts(v@));
    r
}

impl QueueItem {
    pub fn duplicate(&self) -> (r: QueueItem)
        ensures
            r@ == self@,
    {
        QueueItem {
            client_id: self.client_id.clone(),
            state: self.state,
            failed_relays: copy_texts(&self.failed_relays),
        }
    }
}

impl Keyed for SpecQueueItem {
    open spec fn key(&self) -> Seq<char> {
        self.client_id
    }
}

/// The download queue of one file, in request order.
#[derive(Clone, Debug)]
pub struct FileQueue {
    pub items: Vec<QueueItem>,
}

impl View for FileQueue {
    type V = Seq<SpecQueueItem>;

    open spec fn view(&self) -> Seq<SpecQueueItem> {
        self.items@.map_values(|it: QueueItem| it@)
    }
}

impl FileQueue {
    pub fn new() -> (q: FileQueue)
        ensures
            q@ == Seq::<SpecQueueItem>::empty(),
    {
        let q = FileQueue { items: Vec::new() };
        assert(q@ =~= Seq::<SpecQueueItem>::empty());
        q
    }
}

/// The queue of one file, found by the file's id.
pub struct SpecQueue {
    pub file_id: Seq<char>,
    pub items: Seq<SpecQueueItem>,
}

impl Keyed for SpecQueue {
    open spec fn key(&self) -> Seq<char> {
        self.file_id
    }
}

/// What the share side announces to every connected downloader.
#[derive(Clone, Debug)]
pub enum SseEvent {
    FileAdded(FileInfo),
    FileRemoved(String),
    ScheduleUpdate(ScheduleEvent),
    RelayAssign(RelayAssignEvent),
}

pub enum SpecSseEvent {
    FileAdded(SpecFileInfo),
    FileRemoved(Seq<char>),
    ScheduleUpdate(SpecScheduleEvent),
    RelayAssign(SpecRelayAssign),
}

impl View for SseEvent {
    type V = SpecSseEvent;

    open spec fn view(&self) -> SpecSseEvent {
        match self {
            SseEvent::FileAdded(f) => SpecSseEvent::FileAdded(f@),
            SseEvent::FileRemoved(id) => SpecSseEvent::FileRemoved(id@),
            SseEvent::ScheduleUpdate(e) => SpecSseEvent::ScheduleUpdate(e@),
            SseEvent::RelayAssign(e) => SpecSseEvent::RelayAssign(e@),
        }
    }
}

pub open spec fn spec_event_type(e: SpecSseEvent) -> Seq<char> {
    match e {
        SpecSseEvent::FileAdded(_) => "file-added"@,
        SpecSseEvent::FileRemoved(_) => "file-removed"@,
        SpecSseEvent::ScheduleUpdate(_) => "schedule-update"@,
        SpecSseEvent::RelayAssign(_) => "relay-assign"@,
    }
}

impl SseEvent {
    /// The name under which the event is pushed to the downloaders.
    pub fn event_type(&self) -> (r: &'static str)
        ensures
            r@ == spec_event_type(self@),
    {
        match self {
            SseEvent::FileAdded(_) => "file-added",
            SseEvent::FileRemoved(_) => "file-removed",
            SseEvent::ScheduleUpdate(_) => "schedule-update",
            SseEvent::RelayAssign(_) => "relay-assign",
        }
    }
}

} // verus!

//! A stream's progress: the furthest byte reached, handed out once when the
//! stream is done.

use crate::utils::{get_urlencoded_path, urlencoded_path};
use vstd::prelude::*;

verus! {

/// What is persisted of one streaming session: the key, the file's length
/// and the last byte offset requested.
#[derive(Debug, Clone)]
pub struct TrackedFileStreamData {
    pub path: String,
    pub len: i64,
    pub last_pos: i64,
}

/// A session's data as a mathematical value.
pub struct TrackedFileStreamDataView {
    pub path: Seq<char>,
    pub len: int,
    pub last_pos: int,
}

impl View for TrackedFileStreamData {
    type V = TrackedFileStreamDataView;

    open spec fn view(&self) -> TrackedFileStreamDataView {
        TrackedFileStreamDataView {
            path: self.path@,
            len: self.len as int,
            last_pos: self.last_pos as int,
        }
    }
}

/// The key of a (file, viewer) pair: the encoded relative path, `?` and the
/// user id.
pub open spec fn progress_key(urlencoded: Seq<char>, user_id: Seq<char>) -> Seq<char> {
    urlencoded + seq!['?'] + user_id
}

/// Builds the key under which the progress of `user_id` on the file at
/// `urlencoded_path` is stored and looked up.
pub fn make_progress_key(urlencoded_path: &str, user_id: &str) -> (key: String)
    ensures
        key@ == progress_key(urlencoded_path@, user_id@),
{
    let mut key = String::from_str(urlencoded_path);
    key.append("?");
    proof {
        reveal_strlit("?");
        assert("?"@ =~= seq!['?']);
    }
    key.append(user_id);
    key
}

/// How one read on the underlying file ended.
#[derive(Debug, Clone, Copy, PartialEq, Eq)]
pub enum ReadOutcome {
    /// The read has not finished yet.
    Pending,
    /// The read failed.
    Failed,
    /// The read put this many bytes into the buffer.
    Filled(usize),
}

/// How one seek on the underlying file ended.
#[derive(Debug, Clone, Copy, PartialEq, Eq)]
pub enum SeekOutcome {
    /// The seek has not finished yet.
    Pending,
    /// The seek failed.
    Failed,
    /// The file now stands at this absolute offset.
    Positioned(u64),
}

/// One thing that happened on a stream.
pub enum StreamEvent {
    Read(ReadOutcome),
    Seek(SeekOutcome),
}

impl TrackedFileStreamDataView {
    /// Neither the file's length nor the offset is negative.
    pub open spec fn wf(self) -> bool {
        0 <= self.len && 0 <= self.last_pos
    }

    /// The data after a read: a successful read advances the offset by the
    /// bytes read; any other outcome changes nothing.
    pub open spec fn after_read(self, outcome: ReadOutcome) -> TrackedFileStreamDataView {
        match outcome {
            ReadOutcome::Filled(n) => TrackedFileStreamDataView {
                last_pos: self.last_pos + n,
                ..self
            },
            _ => self,
        }
    }

    /// The data after a seek: a successful seek sets the offset to the
    /// absolute target; any other outcome changes nothing.
    pub open spec fn after_seek(self, outcome: SeekOutcome) -> TrackedFileStreamDataView {
        match outcome {
            SeekOutcome::Positioned(p) => TrackedFileStreamDataView { last_pos: p as int, ..self },
            _ => self,
        }
    }

    /// The data after one event.
    pub open spec fn after(self, event: StreamEvent) -> TrackedFileStreamDataView {
        match event {
            StreamEvent::Read(outcome) => self.after_read(outcome),
            StreamEvent::Seek(outcome) => self.after_seek(outcome),
        }
    }

    /// The data after a run of events, in order.
    pub open spec fn after_all(self, events: Seq<StreamEvent>) -> TrackedFileStreamDataView
        decreases events.len(),
    {
        if events.len() == 0 {
            self
        } else {
            self.after_all(events.drop_last()).after(events.last())
        }
    }
}

/// The progress tracker of one open stream. It is armed until its data has
/// been handed out.
pub struct TrackedFileStream {
    data: TrackedFileStreamData,
    armed: bool,
}

/// A tracker as a mathematical value.
pub struct TrackedFileStreamView {
    pub data: TrackedFileStreamDataView,
    pub armed: bool,
}

impl View for TrackedFileStream {
    type V = TrackedFileStreamView;

    closed spec fn view(&self) -> TrackedFileStreamView {
        TrackedFileStreamView { data: self.data@, armed: self.armed }
    }
}

/// The data of a session that has just been opened on a file of `len` bytes
/// under the key `path`: nothing has been read yet.
pub open spec fn opened(path: Seq<char>, len: int) -> TrackedFileStreamDataView {
    TrackedFileStreamDataView { path, len, last_pos: 0 }
}

/// The bytes that the successful reads among `events` put into the buffer,
/// all together.
pub open spec fn bytes_filled(events: Seq<StreamEvent>) -> int
    decreases events.len(),
{
    if events.len() == 0 {
        0
    } else {
        bytes_filled(events.drop_last()) + match events.last() {
            StreamEvent::Read(ReadOutcome::Filled(n)) => n as int,
            _ => 0,
        }
    }
}

/// No event of `events` is a seek.
pub open spec fn only_reads(events: Seq<StreamEvent>) -> bool {
    forall|i: int| 0 <= i < events.len() ==> #[trigger] events[i] is Read
}

/// Reads without any seek add up: the offset has advanced by the bytes read,
/// and the key and the length are as before.
pub proof fn lemma_reads_add_up(start: TrackedFileStreamDataView, events: Seq<StreamEvent>)
    requires
        only_reads(events),
    ensures
        start.after_all(events) == (TrackedFileStreamDataView {
            last_pos: start.last_pos + bytes_filled(events),
            ..start
        }),
    decreases events.len(),
{
    if events.len() > 0 {
        let head = events.drop_last();
        assert forall|i: int| 0 <= i < head.len() implies #[trigger] head[i] is Read by {
            assert(head[i] == events[i]);
        }
        lemma_reads_add_up(start, head);
        assert(events.last() == events[events.len() - 1]);
    }
}

/// No event changes the key or the length of a session.
pub proof fn lemma_key_stays(start: TrackedFileStreamDataView, events: Seq<StreamEvent>)
    ensures
        start.after_all(events).path == start.path,
        start.after_all(events).len == start.len,
    decreases events.len(),
{
    if events.len() > 0 {
        lemma_key_stays(start, events.drop_last());
    }
}

/// A successful seek decides the offset, whatever happened before it.
pub proof fn lemma_seek_decides(
    start: TrackedFileStreamDataView,
    events: Seq<StreamEvent>,
    target: u64,
)
    ensures
        start.after_all(events.push(StreamEvent::Seek(SeekOutcome::Positioned(target)))).last_pos
            == target,
{
    let all = events.push(StreamEvent::Seek(SeekOutcome::Positioned(target)));
    assert(all.drop_last() =~= events);
}

impl TrackedFileStream {
    #[verifier::type_invariant]
    spec fn inv(self) -> bool {
        self.data@.wf()
    }

    /// The session's data as it stands.
    pub fn data(&self) -> (data: &TrackedFileStreamData)
        ensures
            data@ == self@.data,
            data@.wf(),
    {
        proof {
            use_type_invariant(self);
        }
        &self.data
    }

    /// Starts tracking a file of `len` bytes that `user_id` streams from the
    /// path `rel_path`, given by its components relative to the served root.
    /// The offset starts at 0 and the tracker is armed.
    pub fn from_path(rel_path: &Vec<Option<String>>, user_id: &str, len: u64) -> (stream: Self)
        requires
            urlencoded_path(rel_path.deep_view()) is Some,
            len <= i64::MAX,
        ensures
            stream@ == (TrackedFileStreamView {
                data: opened(
                    progress_key(urlencoded_path(rel_path.deep_view())->0, user_id@),
                    len as int,
                ),
                armed: true,
            }),
    {
        let urlencoded = get_urlencoded_path(rel_path).unwrap();
        let data = TrackedFileStreamData {
            path: make_progress_key(urlencoded.as_str(), user_id),
            len: len as i64,
            last_pos: 0,
        };
        TrackedFileStream { data, armed: true }
    }

    /// Records how a read on the file ended.
    pub fn poll_read(&mut self, outcome: ReadOutcome)
        requires
            outcome matches ReadOutcome::Filled(n) ==> old(self)@.data.last_pos + n <= i64::MAX,
        ensures
            final(self)@.data == old(self)@.data.after_read(outcome),
            final(self)@.armed == old(self)@.armed,
    {
        proof {
            use_type_invariant(&*self);
        }
        match outcome {
            ReadOutcome::Filled(n) => {
                self.data.last_pos = self.data.last_pos + n as i64;
            },
            _ => {},
        }
    }

    /// Records how a seek on the file ended.
    pub fn poll_complete(&mut self, outcome: SeekOutcome)
        requires
            outcome matches SeekOutcome::Positioned(p) ==> p <= i64::MAX,
        ensures
            final(self)@.data == old(self)@.data.after_seek(outcome),
            final(self)@.armed == old(self)@.armed,
    {
        proof {
            use_type_invariant(&*self);
        }
        match outcome {
            SeekOutcome::Positioned(p) => {
                self.data.last_pos = p as i64;
            },
            _ => {},
        }
    }

    /// Ends the session. The first call hands out the data as it stands and
    /// disarms the tracker; every later call hands out nothing.
    pub fn dispose(&mut self) -> (snapshot: Option<TrackedFileStreamData>)
        ensures
            old(self)@.armed ==> snapshot is Some && snapshot->0@ == old(self)@.data,
            snapshot matches Some(data) ==> data@.wf(),
            !old(self)@.armed ==> snapshot is None,
            final(self)@ == (TrackedFileStreamView { armed: false, ..old(self)@ }),
    {
        proof {
            use_type_invariant(&*self);
        }
        if self.armed {
            self.armed = false;
            Some(
                TrackedFileStreamData {
                    path: self.data.path.clone(),
                    len: self.data.len,
                    last_pos: self.data.last_pos,
                },
            )
        } else {
            None
        }
    }
}

} // verus!

//! The unit of work that writes a stream's final snapshot to the store:
//! insert, and where the key is taken, look the record up and update it.
//!
//! The store is outside the library. The persister is a state machine: each
//! step takes what happened and names the next request to the store.

use crate::db::movie_servings::{Model, ModelView};
use crate::db::{
    count_key, found, holds_key, index_of_key, inserted, lemma_count_key, lemma_inserted,
    lemma_updated, unique_keys, updated, FindReply, FindReplyView, InsertReply, UpdateReply,
};
use crate::tracked_file_stream::{
    bytes_filled, lemma_key_stays, lemma_reads_add_up, lemma_seek_decides, only_reads, opened,
    SeekOutcome, StreamEvent, TrackedFileStreamData, TrackedFileStreamDataView,
};
use vstd::prelude::*;

verus! {

/// How a unit of work ended.
#[derive(Debug, Clone, Copy, PartialEq, Eq)]
pub enum PersistOutcome {
    /// The snapshot was stored as a new record.
    Inserted,
    /// The existing record was brought up to date.
    Updated,
    /// The store failed or the record vanished; nothing more is tried.
    Abandoned,
}

/// What a persister is told.
#[derive(Debug, Clone)]
pub enum PersistEvent {
    /// The stream was disposed at time `now`, in seconds since the epoch.
    Snapshot { data: TrackedFileStreamData, now: i64 },
    /// The store answered the insert.
    Insert(InsertReply),
    /// The store answered the lookup.
    Find(FindReply),
    /// The store answered the update.
    Update(UpdateReply),
}

/// An event as a mathematical value.
pub enum PersistEventView {
    Snapshot { data: TrackedFileStreamDataView, now: int },
    Insert(InsertReply),
    Find(FindReplyView),
    Update(UpdateReply),
}

impl View for PersistEvent {
    type V = PersistEventView;

    open spec fn view(&self) -> PersistEventView {
        match self {
            PersistEvent::Snapshot { data, now } => PersistEventView::Snapshot {
                data: data@,
                now: *now as int,
            },
            PersistEvent::Insert(reply) => PersistEventView::Insert(*reply),
            PersistEvent::Find(reply) => PersistEventView::Find(reply@),
            PersistEvent::Update(reply) => PersistEventView::Update(*reply),
        }
    }
}

/// What a persister asks for next.
#[derive(Debug, Clone)]
pub enum PersistAction {
    /// Insert this record.
    Insert(Model),
    /// Look up the record with this key.
    Find(String),
    /// Replace the record that has this record's key.
    Update(Model),
    /// Nothing: the unit of work is over.
    Stop,
}

/// A request as a mathematical value.
pub enum PersistActionView {
    Insert(ModelView),
    Find(Seq<char>),
    Update(ModelView),
    Stop,
}

impl View for PersistAction {
    type V = PersistActionView;

    open spec fn view(&self) -> PersistActionView {
        match self {
            PersistAction::Insert(record) => PersistActionView::Insert(record@),
            PersistAction::Find(key) => PersistActionView::Find(key@),
            PersistAction::Update(record) => PersistActionView::Update(record@),
            PersistAction::Stop => PersistActionView::Stop,
        }
    }
}

/// The state of one unit of work.
#[derive(Debug, Clone)]
pub enum Persister {
    /// No snapshot has arrived yet.
    Waiting,
    /// The insert of `record` has been asked for.
    Inserting { record: Model },
    /// The key of `record` was taken; the lookup has been asked for.
    Finding { record: Model },
    /// The update has been asked for.
    Updating,
    /// The unit of work is over.
    Finished(PersistOutcome),
}

/// A persister's state as a mathematical value.
pub enum PersisterView {
    Waiting,
    Inserting { record: ModelView },
    Finding { record: ModelView },
    Updating,
    Finished(PersistOutcome),
}

impl View for Persister {
    type V = PersisterView;

    open spec fn view(&self) -> PersisterView {
        match self {
            Persister::Waiting => PersisterView::Waiting,
            Persister::Inserting { record } => PersisterView::Inserting { record: record@ },
            Persister::Finding { record } => PersisterView::Finding { record: record@ },
            Persister::Updating => PersisterView::Updating,
            Persister::Finished(outcome) => PersisterView::Finished(*outcome),
        }
    }
}

/// The record that a snapshot taken at `now` is stored as.
pub open spec fn record_of(data: TrackedFileStreamDataView, now: int) -> ModelView {
    ModelView {
        path: data.path,
        last_timestamp: now,
        last_file_position: data.last_pos,
        file_length: data.len,
    }
}

/// The record that replaces `existing` when `record` met it: the time and
/// the position are the new ones, the rest stays.
pub open spec fn refreshed(existing: ModelView, record: ModelView) -> ModelView {
    ModelView {
        last_timestamp: record.last_timestamp,
        last_file_position: record.last_file_position,
        ..existing
    }
}

impl PersisterView {
    /// The next state and the next request, given what happened.
    ///
    /// A snapshot starts the insert. A taken key leads to the lookup, and a
    /// found record to its update. Every failure ends the unit of work, and
    /// so does an event that answers nothing that was asked.
    pub open spec fn step(self, event: PersistEventView) -> (PersisterView, PersistActionView) {
        match (self, event) {
            (PersisterView::Waiting, PersistEventView::Snapshot { data, now }) => (
                PersisterView::Inserting { record: record_of(data, now) },
                PersistActionView::Insert(record_of(data, now)),
            ),
            (
                PersisterView::Inserting { record },
                PersistEventView::Insert(InsertReply::Inserted),
            ) => (PersisterView::Finished(PersistOutcome::Inserted), PersistActionView::Stop),
            (
                PersisterView::Inserting { record },
                PersistEventView::Insert(InsertReply::Duplicate),
            ) => (PersisterView::Finding { record }, PersistActionView::Find(record.path)),
            (
                PersisterView::Finding { record },
                PersistEventView::Find(FindReplyView::Found(existing)),
            ) => (PersisterView::Updating, PersistActionView::Update(refreshed(existing, record))),
            (PersisterView::Updating, PersistEventView::Update(UpdateReply::Updated)) => (
                PersisterView::Finished(PersistOutcome::Updated),
                PersistActionView::Stop,
            ),
            (PersisterView::Finished(outcome), _) => (
                PersisterView::Finished(outcome),
                PersistActionView::Stop,
            ),
            _ => (PersisterView::Finished(PersistOutcome::Abandoned), PersistActionView::Stop),
        }
    }
}

impl Persister {
    /// A unit of work that waits for its snapshot.
    pub fn new() -> (persister: Persister)
        ensures
            persister@ == PersisterView::Waiting,
    {
        Persister::Waiting
    }

    /// Takes one event and returns the next state with the next request.
    pub fn step(self, event: PersistEvent) -> (next: (Persister, PersistAction))
        ensures
            next.0@ == self@.step(event@).0,
            next.1@ == self@.step(event@).1,
    {
        match (self, event) {
            (Persister::Waiting, PersistEvent::Snapshot { data, now }) => {
                let record = Model {
                    path: data.path,
                    last_timestamp: now,
                    last_file_position: data.last_pos,
                    file_length: data.len,
                };
                let request = record.duplicate();
                (Persister::Inserting { record }, PersistAction::Insert(request))
            },
            (Persister::Inserting { record }, PersistEvent::Insert(InsertReply::Inserted)) => {
                (Persister::Finished(PersistOutcome::Inserted), PersistAction::Stop)
            },
            (Persister::Inserting { record }, PersistEvent::Insert(InsertReply::Duplicate)) => {
                let key = record.path.clone();
                (Persister::Finding { record }, PersistAction::Find(key))
            },
            (Persister::Finding { record }, PersistEvent::Find(FindReply::Found(existing))) => {
                let request = Model {
                    path: existing.path,
                    last_timestamp: record.last_timestamp,
                    last_file_position: record.last_file_position,
                    file_length: existing.file_length,
                };
                (Persister::Updating, PersistAction::Update(request))
            },
            (Persister::Updating, PersistEvent::Update(UpdateReply::Updated)) => {
                (Persister::Finished(PersistOutcome::Updated), PersistAction::Stop)
            },
            (Persister::Finished(outcome), _) => {
                (Persister::Finished(outcome), PersistAction::Stop)
            },
            _ => (Persister::Finished(PersistOutcome::Abandoned), PersistAction::Stop),
        }
    }
}

/// What a store that holds `rows` and does not fail answers to `request`,
/// and what it holds afterwards. `Stop` asks for nothing and gets no answer.
pub open spec fn served(rows: Seq<ModelView>, request: PersistActionView) -> (
    Seq<ModelView>,
    Option<PersistEventView>,
) {
    match request {
        PersistActionView::Insert(record) => (
            inserted(rows, record).0,
            Some(PersistEventView::Insert(inserted(rows, record).1)),
        ),
        PersistActionView::Find(key) => (rows, Some(PersistEventView::Find(found(rows, key)))),
        PersistActionView::Update(record) => (
            updated(rows, record).0,
            Some(PersistEventView::Update(updated(rows, record).1)),
        ),
        PersistActionView::Stop => (rows, None),
    }
}

/// A unit of work between two steps: its state and the request it waits on.
pub struct Worker {
    pub state: PersisterView,
    pub request: PersistActionView,
}

/// The unit of work that has just received the snapshot `data` at `now`.
pub open spec fn started(data: TrackedFileStreamDataView, now: int) -> Worker {
    let next = PersisterView::Waiting.step(PersistEventView::Snapshot { data, now });
    Worker { state: next.0, request: next.1 }
}

/// One request of `worker` served by the store, and the worker's step on the
/// answer. A worker that has stopped stays as it is.
pub open spec fn served_step(rows: Seq<ModelView>, worker: Worker) -> (Seq<ModelView>, Worker) {
    match served(rows, worker.request) {
        (after, Some(event)) => (
            after,
            Worker { state: worker.state.step(event).0, request: worker.state.step(event).1 },
        ),
        (_, None) => (rows, worker),
    }
}

/// The store and the worker after `steps` requests served in a row.
pub open spec fn run(rows: Seq<ModelView>, worker: Worker, steps: nat) -> (Seq<ModelView>, Worker)
    decreases steps,
{
    if steps == 0 {
        (rows, worker)
    } else {
        let head = run(rows, worker, (steps - 1) as nat);
        served_step(head.0, head.1)
    }
}

/// The store after the snapshot `data`, taken at `now`, has been persisted
/// with nobody else writing: the whole unit of work, which asks for three
/// things at most.
pub open spec fn persisted(rows: Seq<ModelView>, data: TrackedFileStreamDataView, now: int) -> (
    Seq<ModelView>,
    Worker,
) {
    run(rows, started(data, now), 3)
}

/// Persisting a snapshot is an upsert. On a store with unique keys and no
/// failures the unit of work ends, by an insert where the key was free and
/// by an update where it was taken. Afterwards the keys are still unique,
/// exactly one record has the snapshot's key, that record carries the
/// snapshot's position and time, and every other key's record is untouched.
pub proof fn lemma_persisted_upserts(
    rows: Seq<ModelView>,
    data: TrackedFileStreamDataView,
    now: int,
    other: Seq<char>,
)
    requires
        unique_keys(rows),
    ensures
        persisted(rows, data, now).1.request is Stop,
        persisted(rows, data, now).1.state == PersisterView::Finished(
            if holds_key(rows, data.path) {
                PersistOutcome::Updated
            } else {
                PersistOutcome::Inserted
            },
        ),
        unique_keys(persisted(rows, data, now).0),
        count_key(persisted(rows, data, now).0, data.path) == 1,
        found(persisted(rows, data, now).0, data.path) == FindReplyView::Found(
            if holds_key(rows, data.path) {
                refreshed(rows[index_of_key(rows, data.path)], record_of(data, now))
            } else {
                record_of(data, now)
            },
        ),
        found(persisted(rows, data, now).0, data.path) matches FindReplyView::Found(record)
            && record.last_file_position == data.last_pos && record.last_timestamp == now,
        other != data.path ==> found(persisted(rows, data, now).0, other) == found(rows, other),
{
    let record = record_of(data, now);
    let key = data.path;
    let w0 = started(data, now);
    assert(run(rows, w0, 0) == (rows, w0));
    let s1 = run(rows, w0, 1);
    assert(s1 == served_step(rows, w0));
    let s2 = run(rows, w0, 2);
    assert(s2 == served_step(s1.0, s1.1));
    let s3 = run(rows, w0, 3);
    assert(s3 == served_step(s2.0, s2.1));
    lemma_inserted(rows, record, other);
    if holds_key(rows, key) {
        let k = index_of_key(rows, key);
        let existing = rows[k];
        assert(s1.0 == rows);
        assert(s2.0 == rows);
        assert(s2.1.request == PersistActionView::Update(refreshed(existing, record)));
        lemma_updated(rows, refreshed(existing, record), other);
        lemma_updated(rows, refreshed(existing, record), key);
    }
    lemma_count_key(s3.0, key);
}

/// Persisting two snapshots of one key, one after the other, never leaves
/// two records: the second insert meets the first record and falls back to
/// an update, and the one record of that key carries the second snapshot's
/// position.
pub proof fn lemma_second_upsert_updates(
    rows: Seq<ModelView>,
    first: TrackedFileStreamDataView,
    first_now: int,
    second: TrackedFileStreamDataView,
    second_now: int,
)
    requires
        unique_keys(rows),
        first.path == second.path,
    ensures
        ({
            let between = persisted(rows, first, first_now).0;
            let end = persisted(between, second, second_now);
            &&& end.1.state == PersisterView::Finished(PersistOutcome::Updated)
            &&& count_key(end.0, first.path) == 1
            &&& found(end.0, first.path) matches FindReplyView::Found(record)
                && record.last_file_position == second.last_pos && record.last_timestamp
                == second_now
        }),
{
    lemma_persisted_upserts(rows, first, first_now, first.path);
    let between = persisted(rows, first, first_now).0;
    lemma_count_key(between, first.path);
    lemma_persisted_upserts(between, second, second_now, first.path);
}

/// Two units of work on one store, and which of them wrote last.
pub struct Race {
    pub rows: Seq<ModelView>,
    pub first: Worker,
    pub second: Worker,
    /// `Some(true)` once the first has written last, `Some(false)` once the
    /// second has, `None` while neither has written.
    pub last_writer: Option<bool>,
}

/// Whether the store's answer says that it wrote.
pub open spec fn wrote(answer: Option<PersistEventView>) -> bool {
    answer == Some(PersistEventView::Insert(InsertReply::Inserted)) || answer == Some(
        PersistEventView::Update(UpdateReply::Updated),
    )
}

/// Two units of work that have just received their snapshots.
pub open spec fn race_started(
    rows: Seq<ModelView>,
    first: TrackedFileStreamDataView,
    first_now: int,
    second: TrackedFileStreamDataView,
    second_now: int,
) -> Race {
    Race {
        rows,
        first: started(first, first_now),
        second: started(second, second_now),
        last_writer: None,
    }
}

/// One move: the store serves one request of the first (`first_moves`) or of
/// the second, and that one steps on the answer. Each request is served as
/// a whole; a unit of work that has stopped does not move.
pub open spec fn race_step(race: Race, first_moves: bool) -> Race {
    let mover = if first_moves {
        race.first
    } else {
        race.second
    };
    let moved = served_step(race.rows, mover);
    Race {
        rows: moved.0,
        first: if first_moves {
            moved.1
        } else {
            race.first
        },
        second: if first_moves {
            race.second
        } else {
            moved.1
        },
        last_writer: if wrote(served(race.rows, mover.request).1) {
            Some(first_moves)
        } else {
            race.last_writer
        },
    }
}

/// The race after the moves of `schedule`, in order.
pub open spec fn race_run(race: Race, schedule: Seq<bool>) -> Race
    decreases schedule.len(),
{
    if schedule.len() == 0 {
        race
    } else {
        race_step(race_run(race, schedule.drop_last()), schedule.last())
    }
}

/// What holds of a unit of work for the record `own` at every point of a
/// race: it asks for what its state says, it works on its own record, and
/// past the insert the key is held.
spec fn worker_on_track(worker: Worker, rows: Seq<ModelView>, own: ModelView) -> bool {
    match (worker.state, worker.request) {
        (PersisterView::Inserting { record }, PersistActionView::Insert(asked)) => record == own
            && asked == own,
        (PersisterView::Finding { record }, PersistActionView::Find(key)) => record == own && key
            == own.path && holds_key(rows, own.path),
        (PersisterView::Updating, PersistActionView::Update(asked)) => asked.path == own.path
            && asked.last_file_position == own.last_file_position && asked.last_timestamp
            == own.last_timestamp && holds_key(rows, own.path),
        (PersisterView::Finished(outcome), PersistActionView::Stop) => outcome
            != PersistOutcome::Abandoned && holds_key(rows, own.path),
        _ => false,
    }
}

/// What holds at every point of a race of two units of work on one key.
spec fn race_on_track(race: Race, first: ModelView, second: ModelView) -> bool {
    &&& unique_keys(race.rows)
    &&& worker_on_track(race.first, race.rows, first)
    &&& worker_on_track(race.second, race.rows, second)
    &&& (race.first.request is Stop || race.second.request is Stop) ==> race.last_writer is Some
    &&& race.last_writer matches Some(by_first) ==> (found(race.rows, first.path)
        matches FindReplyView::Found(record) && {
        let winner = if by_first {
            first
        } else {
            second
        };
        record.last_file_position == winner.last_file_position && record.last_timestamp
            == winner.last_timestamp
    })
}

/// One move keeps a race on track.
proof fn lemma_race_step_on_track(
    race: Race,
    first: ModelView,
    second: ModelView,
    first_moves: bool,
)
    requires
        first.path == second.path,
        race_on_track(race, first, second),
    ensures
        race_on_track(race_step(race, first_moves), first, second),
{
    let key = first.path;
    let mover = if first_moves {
        race.first
    } else {
        race.second
    };
    match mover.request {
        PersistActionView::Insert(asked) => {
            lemma_inserted(race.rows, asked, key);
        },
        PersistActionView::Find(asked) => {
            let k = index_of_key(race.rows, key);
            assert(race.rows[k].path == key);
        },
        PersistActionView::Update(asked) => {
            lemma_updated(race.rows, asked, key);
        },
        PersistActionView::Stop => {},
    }
}

/// A race is on track after any moves.
proof fn lemma_race_run_on_track(
    rows: Seq<ModelView>,
    first: TrackedFileStreamDataView,
    first_now: int,
    second: TrackedFileStreamDataView,
    second_now: int,
    schedule: Seq<bool>,
)
    requires
        unique_keys(rows),
        first.path == second.path,
    ensures
        race_on_track(
            race_run(race_started(rows, first, first_now, second, second_now), schedule),
            record_of(first, first_now),
            record_of(second, second_now),
        ),
    decreases schedule.len(),
{
    if schedule.len() > 0 {
        lemma_race_run_on_track(rows, first, first_now, second, second_now, schedule.drop_last());
        lemma_race_step_on_track(
            race_run(
                race_started(rows, first, first_now, second, second_now),
                schedule.drop_last(),
            ),
            record_of(first, first_now),
            record_of(second, second_now),
            schedule.last(),
        );
    }
}

/// Last write wins. Two units of work persist snapshots of one key on a
/// store with unique keys and no failures, their requests served one at a
/// time in any order. Once both have stopped, neither has given up, the key
/// has exactly one record, and that record carries the position and the
/// time of the one that wrote last, not a mix of the two.
pub proof fn lemma_last_write_wins(
    rows: Seq<ModelView>,
    first: TrackedFileStreamDataView,
    first_now: int,
    second: TrackedFileStreamDataView,
    second_now: int,
    schedule: Seq<bool>,
)
    requires
        unique_keys(rows),
        first.path == second.path,
        race_run(race_started(rows, first, first_now, second, second_now), schedule).first.request
            is Stop,
        race_run(race_started(rows, first, first_now, second, second_now), schedule).second.request
            is Stop,
    ensures
        ({
            let end = race_run(race_started(rows, first, first_now, second, second_now), schedule);
            &&& end.first.state matches PersisterView::Finished(outcome) && outcome
                != PersistOutcome::Abandoned
            &&& end.second.state matches PersisterView::Finished(outcome) && outcome
                != PersistOutcome::Abandoned
            &&& unique_keys(end.rows)
            &&& count_key(end.rows, first.path) == 1
            &&& end.last_writer is Some
            &&& found(end.rows, first.path) matches FindReplyView::Found(record) && {
                let winner = if end.last_writer == Some(true) {
                    first
                } else {
                    second
                };
                let winner_now = if end.last_writer == Some(true) {
                    first_now
                } else {
                    second_now
                };
                record.last_file_position == winner.last_pos && record.last_timestamp == winner_now
            }
        }),
{
    lemma_race_run_on_track(rows, first, first_now, second, second_now, schedule);
    let end = race_run(race_started(rows, first, first_now, second, second_now), schedule);
    lemma_count_key(end.rows, first.path);
}

/// A race in which each unit of work gets three moves is over, in whatever
/// order the moves come.
pub proof fn lemma_race_ends(
    rows: Seq<ModelView>,
    first: TrackedFileStreamDataView,
    first_now: int,
    second: TrackedFileStreamDataView,
    second_now: int,
    schedule: Seq<bool>,
)
    requires
        unique_keys(rows),
        first.path == second.path,
        moves_of(schedule, true) >= 3,
        moves_of(schedule, false) >= 3,
    ensures
        race_run(race_started(rows, first, first_now, second, second_now), schedule).first.request
            is Stop,
        race_run(race_started(rows, first, first_now, second, second_now), schedule).second.request
            is Stop,
{
    lemma_race_progress(rows, first, first_now, second, second_now, schedule);
    lemma_race_run_on_track(rows, first, first_now, second, second_now, schedule);
}

/// How many moves of `schedule` are the first's (`who` true) or the second's.
pub open spec fn moves_of(schedule: Seq<bool>, who: bool) -> nat
    decreases schedule.len(),
{
    if schedule.len() == 0 {
        0
    } else {
        moves_of(schedule.drop_last(), who) + if schedule.last() == who {
            1nat
        } else {
            0nat
        }
    }
}

/// How many requests a unit of work on track has still to make, at most.
spec fn requests_left(worker: Worker) -> nat {
    match worker.state {
        PersisterView::Inserting { .. } => 3,
        PersisterView::Finding { .. } => 2,
        PersisterView::Updating => 1,
        _ => 0,
    }
}

/// Each move of a unit of work that has not stopped is one of the three
/// requests that it can make.
proof fn lemma_race_progress(
    rows: Seq<ModelView>,
    first: TrackedFileStreamDataView,
    first_now: int,
    second: TrackedFileStreamDataView,
    second_now: int,
    schedule: Seq<bool>,
)
    requires
        unique_keys(rows),
        first.path == second.path,
    ensures
        ({
            let end = race_run(race_started(rows, first, first_now, second, second_now), schedule);
            &&& requests_left(end.first) + moves_of(schedule, true) <= 3 || end.first.request
                is Stop
            &&& requests_left(end.second) + moves_of(schedule, false) <= 3 || end.second.request
                is Stop
        }),
    decreases schedule.len(),
{
    if schedule.len() > 0 {
        let start = race_started(rows, first, first_now, second, second_now);
        lemma_race_progress(rows, first, first_now, second, second_now, schedule.drop_last());
        lemma_race_run_on_track(rows, first, first_now, second, second_now, schedule.drop_last());
        lemma_race_run_on_track(rows, first, first_now, second, second_now, schedule);
        let before = race_run(start, schedule.drop_last());
        let key = first.path;
        if holds_key(before.rows, key) {
            let k = index_of_key(before.rows, key);
            assert(before.rows[k].path == key);
        }
    }
}

/// The position that is stored for `key` once the snapshot of a session has
/// been persisted: the session was opened on `key`, saw `events` and was
/// disposed at `now`.
pub open spec fn stored_position(
    rows: Seq<ModelView>,
    key: Seq<char>,
    len: int,
    events: Seq<StreamEvent>,
    now: int,
) -> Option<int> {
    match found(persisted(rows, opened(key, len).after_all(events), now).0, key) {
        FindReplyView::Found(record) => Some(record.last_file_position),
        _ => None,
    }
}

/// A stream that is read from its start without any seek and then disposed
/// is persisted with the number of bytes read as its position.
pub proof fn lemma_reads_are_persisted(
    rows: Seq<ModelView>,
    key: Seq<char>,
    len: int,
    events: Seq<StreamEvent>,
    now: int,
)
    requires
        unique_keys(rows),
        only_reads(events),
    ensures
        stored_position(rows, key, len, events, now) == Some(bytes_filled(events)),
{
    lemma_reads_add_up(opened(key, len), events);
    lemma_persisted_upserts(rows, opened(key, len).after_all(events), now, key);
}

/// A stream that is disposed right after a successful seek is persisted
/// with the seek's target as its position, whatever came before the seek.
pub proof fn lemma_seek_is_persisted(
    rows: Seq<ModelView>,
    key: Seq<char>,
    len: int,
    events: Seq<StreamEvent>,
    target: u64,
    now: int,
)
    requires
        unique_keys(rows),
    ensures
        stored_position(
            rows,
            key,
            len,
            events.push(StreamEvent::Seek(SeekOutcome::Positioned(target))),
            now,
        ) == Some(target as int),
{
    let all = events.push(StreamEvent::Seek(SeekOutcome::Positioned(target)));
    lemma_seek_decides(opened(key, len), events, target);
    assert(opened(key, len).after_all(all).path == key) by {
        lemma_key_stays(opened(key, len), all);
    }
    lemma_persisted_upserts(rows, opened(key, len).after_all(all), now, key);
}

/// A stream that is disposed before any read or seek is persisted with
/// position 0.
pub proof fn lemma_untouched_is_persisted(rows: Seq<ModelView>, key: Seq<char>, len: int, now: int)
    requires
        unique_keys(rows),
    ensures
        stored_position(rows, key, len, Seq::empty(), now) == Some(0int),
{
    lemma_persisted_upserts(rows, opened(key, len), now, key);
}

} // verus!

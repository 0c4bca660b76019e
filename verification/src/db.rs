//! The keyed store of progress records, as the library sees it: what it
//! answers to a lookup, an insert and an update, and a model of a store that
//! keeps at most one record per key.

pub mod movie_servings;

use crate::db::movie_servings::{Model, ModelView};
use vstd::prelude::*;

verus! {

/// What the store answers to an insert.
#[derive(Debug, Clone, Copy, PartialEq, Eq)]
pub enum InsertReply {
    /// The record was added.
    Inserted,
    /// A record with that key exists already; nothing was added.
    Duplicate,
    /// The store failed otherwise.
    Failed,
}

/// What the store answers to an update.
#[derive(Debug, Clone, Copy, PartialEq, Eq)]
pub enum UpdateReply {
    /// The record with that key was replaced.
    Updated,
    /// No record with that key exists; nothing was changed.
    NotFound,
    /// The store failed otherwise.
    Failed,
}

/// What the store answers to a lookup by key.
#[derive(Debug, Clone, PartialEq, Eq)]
pub enum FindReply {
    /// The record with that key.
    Found(Model),
    /// No record with that key exists.
    Missing,
    /// The store failed.
    Failed,
}

/// A lookup's answer as a mathematical value.
pub enum FindReplyView {
    Found(ModelView),
    Missing,
    Failed,
}

impl View for FindReply {
    type V = FindReplyView;

    open spec fn view(&self) -> FindReplyView {
        match self {
            FindReply::Found(record) => FindReplyView::Found(record@),
            FindReply::Missing => FindReplyView::Missing,
            FindReply::Failed => FindReplyView::Failed,
        }
    }
}

impl DeepView for FindReply {
    type V = FindReplyView;

    open spec fn deep_view(&self) -> FindReplyView {
        self@
    }
}

/// Whether some row of `rows` has the key `key`.
pub open spec fn holds_key(rows: Seq<ModelView>, key: Seq<char>) -> bool {
    exists|i: int| 0 <= i < rows.len() && (#[trigger] rows[i]).path == key
}

/// The index of a row of `rows` with the key `key`, where there is one.
pub open spec fn index_of_key(rows: Seq<ModelView>, key: Seq<char>) -> int {
    choose|i: int| 0 <= i < rows.len() && (#[trigger] rows[i]).path == key
}

/// How many rows of `rows` have the key `key`.
pub open spec fn count_key(rows: Seq<ModelView>, key: Seq<char>) -> nat
    decreases rows.len(),
{
    if rows.len() == 0 {
        0
    } else {
        count_key(rows.drop_last(), key) + if rows.last().path == key {
            1nat
        } else {
            0nat
        }
    }
}

/// No two rows share a key.
pub open spec fn unique_keys(rows: Seq<ModelView>) -> bool {
    forall|i: int, j: int|
        0 <= i < j < rows.len() ==> (#[trigger] rows[i]).path != (#[trigger] rows[j]).path
}

/// The store's answer to a lookup of `key`.
pub open spec fn found(rows: Seq<ModelView>, key: Seq<char>) -> FindReplyView {
    if holds_key(rows, key) {
        FindReplyView::Found(rows[index_of_key(rows, key)])
    } else {
        FindReplyView::Missing
    }
}

/// The store after an insert of `record`, and its answer: a record whose key
/// is taken is refused, any other is added.
pub open spec fn inserted(rows: Seq<ModelView>, record: ModelView) -> (
    Seq<ModelView>,
    InsertReply,
) {
    if holds_key(rows, record.path) {
        (rows, InsertReply::Duplicate)
    } else {
        (rows.push(record), InsertReply::Inserted)
    }
}

/// The store after an update with `record`, and its answer: the row with
/// the record's key is replaced, and without such a row nothing changes.
pub open spec fn updated(rows: Seq<ModelView>, record: ModelView) -> (
    Seq<ModelView>,
    UpdateReply,
) {
    if holds_key(rows, record.path) {
        (rows.update(index_of_key(rows, record.path), record), UpdateReply::Updated)
    } else {
        (rows, UpdateReply::NotFound)
    }
}

/// With unique keys, a key is held by exactly one row or by none.
pub proof fn lemma_count_key(rows: Seq<ModelView>, key: Seq<char>)
    requires
        unique_keys(rows),
    ensures
        count_key(rows, key) == if holds_key(rows, key) {
            1nat
        } else {
            0nat
        },
    decreases rows.len(),
{
    if rows.len() > 0 {
        let head = rows.drop_last();
        assert forall|i: int, j: int| 0 <= i < j < head.len() implies (#[trigger] head[i]).path
            != (#[trigger] head[j]).path by {
            assert(head[i] == rows[i] && head[j] == rows[j]);
        }
        lemma_count_key(head, key);
        if holds_key(head, key) {
            let i = index_of_key(head, key);
            assert(rows[i] == head[i]);
            assert(rows[i].path != rows[rows.len() - 1].path);
        } else if rows.last().path == key {
            assert(rows[rows.len() - 1].path == key);
        } else if holds_key(rows, key) {
            let i = index_of_key(rows, key);
            assert(head[i] == rows[i]);
        }
    }
}

/// With unique keys, a lookup finds the one row that has the key.
pub proof fn lemma_found_unique(rows: Seq<ModelView>, i: int)
    requires
        unique_keys(rows),
        0 <= i < rows.len(),
    ensures
        holds_key(rows, rows[i].path),
        index_of_key(rows, rows[i].path) == i,
        found(rows, rows[i].path) == FindReplyView::Found(rows[i]),
{
    let key = rows[i].path;
    assert(holds_key(rows, key));
    let j = index_of_key(rows, key);
    if j < i {
        assert(rows[j].path != rows[i].path);
    } else if i < j {
        assert(rows[i].path != rows[j].path);
    }
}

/// An insert keeps the keys unique, leaves every other key's record as it
/// was, and afterwards the record's key is held.
pub proof fn lemma_inserted(rows: Seq<ModelView>, record: ModelView, key: Seq<char>)
    requires
        unique_keys(rows),
    ensures
        unique_keys(inserted(rows, record).0),
        holds_key(inserted(rows, record).0, record.path),
        inserted(rows, record).1 == InsertReply::Inserted ==> found(
            inserted(rows, record).0,
            record.path,
        ) == FindReplyView::Found(record),
        inserted(rows, record).1 == InsertReply::Duplicate ==> inserted(rows, record).0 == rows,
        key != record.path ==> found(inserted(rows, record).0, key) == found(rows, key),
{
    let after = inserted(rows, record).0;
    if holds_key(rows, record.path) {
    } else {
        assert forall|i: int, j: int| 0 <= i < j < after.len() implies (#[trigger] after[i]).path
            != (#[trigger] after[j]).path by {
            assert(after[i] == rows[i]);
            if j < rows.len() {
                assert(after[j] == rows[j]);
            }
        }
        assert(after[rows.len() as int] == record);
        lemma_found_unique(after, rows.len() as int);
        if key != record.path {
            if holds_key(rows, key) {
                let i = index_of_key(rows, key);
                assert(after[i] == rows[i]);
                lemma_found_unique(after, i);
            } else if holds_key(after, key) {
                let i = index_of_key(after, key);
                assert(after[i] == rows[i]);
            }
        }
    }
}

/// An update with a record whose key is held keeps the keys unique, leaves
/// every other key's record as it was, and afterwards a lookup of the key
/// finds the record.
pub proof fn lemma_updated(rows: Seq<ModelView>, record: ModelView, key: Seq<char>)
    requires
        unique_keys(rows),
    ensures
        unique_keys(updated(rows, record).0),
        updated(rows, record).0.len() == rows.len(),
        holds_key(updated(rows, record).0, key) == holds_key(rows, key),
        updated(rows, record).1 == UpdateReply::Updated <==> holds_key(rows, record.path),
        holds_key(rows, record.path) ==> found(updated(rows, record).0, record.path)
            == FindReplyView::Found(record),
        key != record.path ==> found(updated(rows, record).0, key) == found(rows, key),
{
    let after = updated(rows, record).0;
    if holds_key(rows, record.path) {
        let k = index_of_key(rows, record.path);
        assert forall|i: int, j: int| 0 <= i < j < after.len() implies (#[trigger] after[i]).path
            != (#[trigger] after[j]).path by {
            assert(rows[i].path != rows[j].path);
            assert(after[i].path == rows[i].path);
            assert(after[j].path == rows[j].path);
        }
        assert(after[k] == record);
        lemma_found_unique(after, k);
        if holds_key(rows, key) {
            let i = index_of_key(rows, key);
            assert(after[i].path == rows[i].path);
            lemma_found_unique(after, i);
            lemma_found_unique(rows, i);
        } else if holds_key(after, key) {
            let i = index_of_key(after, key);
            assert(after[i].path == rows[i].path);
        }
    }
}

} // verus!

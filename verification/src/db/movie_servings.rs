//! The progress record: one row per (file, viewer) key.

use vstd::prelude::*;

verus! {

/// A stored progress record. `path` is the key: the encoded relative path,
/// `?` and the user id.
#[derive(Clone, Debug, PartialEq, Eq)]
pub struct Model {
    pub path: String,
    pub last_timestamp: i64,
    pub last_file_position: i64,
    pub file_length: i64,
}

/// A progress record as a mathematical value.
pub struct ModelView {
    pub path: Seq<char>,
    pub last_timestamp: int,
    pub last_file_position: int,
    pub file_length: int,
}

impl View for Model {
    type V = ModelView;

    open spec fn view(&self) -> ModelView {
        ModelView {
            path: self.path@,
            last_timestamp: self.last_timestamp as int,
            last_file_position: self.last_file_position as int,
            file_length: self.file_length as int,
        }
    }
}

impl DeepView for Model {
    type V = ModelView;

    open spec fn deep_view(&self) -> ModelView {
        self@
    }
}

impl Model {
    /// A copy of this record.
    pub fn duplicate(&self) -> (copy: Model)
        ensures
            copy@ == self@,
    {
        Model {
            path: self.path.clone(),
            last_timestamp: self.last_timestamp,
            last_file_position: self.last_file_position,
            file_length: self.file_length,
        }
    }
}

} // verus!

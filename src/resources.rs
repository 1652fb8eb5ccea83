//! How many threads and how much memory an index writer gets, by the kind of
//! work it does.

use vstd::prelude::*;

verus! {

/// The kinds of work an index writer is opened for.
#[derive(Clone, Copy, Debug, PartialEq, Eq, Structural)]
pub enum WriterResources {
    CreateIndex,
    Statement,
    Vacuum,
}

/// The configured writer settings.
#[derive(Clone, Copy, Debug, PartialEq, Eq, Structural)]
pub struct ResourceSettings {
    pub create_index_parallelism: usize,
    pub create_index_memory_budget: usize,
    pub statement_parallelism: usize,
    pub statement_memory_budget: usize,
}

/// The options an index was created with that bear on its writers.
#[derive(Clone, Copy, Debug, PartialEq, Eq, Structural)]
pub struct IndexOptions {
    pub target_segment_count: usize,
    pub merge_on_insert: bool,
}

impl WriterResources {
    /// Parallelism, memory budget, target segment count and whether to
    /// merge: index creation uses its own settings, statements and vacuum
    /// the statement settings; creation and vacuum always merge, statements
    /// as the index says.
    pub fn resources(&self, settings: &ResourceSettings, options: &IndexOptions) -> (r: (
        usize,
        usize,
        usize,
        bool,
    ))
        ensures
            r.2 == options.target_segment_count,
            *self == WriterResources::CreateIndex ==> r.0 == settings.create_index_parallelism
                && r.1 == settings.create_index_memory_budget && r.3,
            *self == WriterResources::Statement ==> r.0 == settings.statement_parallelism && r.1
                == settings.statement_memory_budget && r.3 == options.merge_on_insert,
            *self == WriterResources::Vacuum ==> r.0 == settings.statement_parallelism && r.1
                == settings.statement_memory_budget && r.3,
    {
        match self {
            WriterResources::CreateIndex => (
                settings.create_index_parallelism,
                settings.create_index_memory_budget,
                options.target_segment_count,
                true,
            ),
            WriterResources::Statement => (
                settings.statement_parallelism,
                settings.statement_memory_budget,
                options.target_segment_count,
                options.merge_on_insert,
            ),
            WriterResources::Vacuum => (
                settings.statement_parallelism,
                settings.statement_memory_budget,
                options.target_segment_count,
                true,
            ),
        }
    }
}

} // verus!

use crate::error::BuildError;
use crate::types::resolved_request_info::ResolvedRequestInfo;
use crate::types::syntax_tree::{ImportKind, SyntaxTree};
use vstd::prelude::*;

verus! {

/// A piece of work that the loader has issued. The ticket of a task is its
/// place in the order of issue.
#[derive(Clone, Copy, Debug)]
pub enum Task {
    /// Resolve the specifier of import record `record` of module `importer`.
    Resolve { importer: usize, record: usize },
    /// Load and parse module `module`.
    Load { module: usize },
}

/// A task as the caller gets it, with all that is needed to carry it out.
#[derive(Debug)]
pub enum Request {
    /// Resolve `specifier` as written in the module at path `importer`.
    Resolve {
        ticket: usize,
        specifier: String,
        importer: Option<String>,
        is_entry: bool,
        kind: ImportKind,
    },
    /// Load and parse the module at `path`.
    Load { ticket: usize, path: String },
}

/// What a task asks of the world outside, in plain values: the resolution of a
/// specifier, or the syntax of the module at a path.
pub enum Ask {
    Resolve {
        specifier: Seq<char>,
        importer: Option<Seq<char>>,
        is_entry: bool,
        kind: ImportKind,
    },
    Load { path: Seq<char> },
}

impl Request {
    /// The ticket of the task.
    pub open spec fn ticket(self) -> usize {
        match self {
            Request::Resolve { ticket, .. } => ticket,
            Request::Load { ticket, .. } => ticket,
        }
    }

    /// What the request asks.
    pub open spec fn ask(self) -> Ask {
        match self {
            Request::Resolve { specifier, importer, is_entry, kind, .. } => Ask::Resolve {
                specifier: specifier@,
                importer: match importer {
                    Some(path) => Some(path@),
                    None => None,
                },
                is_entry,
                kind,
            },
            Request::Load { path, .. } => Ask::Load { path: path@ },
        }
    }
}

/// The result of a task.
#[derive(Debug)]
pub enum Completion {
    Resolved(Result<ResolvedRequestInfo, BuildError>),
    Loaded(Result<SyntaxTree, BuildError>),
}

/// Whether `completion` is a result of the kind that `task` asks for.
pub open spec fn compatible(task: Task, completion: Completion) -> bool {
    match task {
        Task::Resolve { .. } => completion is Resolved,
        Task::Load { .. } => completion is Loaded,
    }
}

/// Whether `completion` is a result of the kind that `task` asks for.
pub fn is_compatible(task: &Task, completion: &Completion) -> (fits: bool)
    ensures
        fits == compatible(*task, *completion),
{
    match task {
        Task::Resolve { .. } => match completion {
            Completion::Resolved(_) => true,
            Completion::Loaded(_) => false,
        },
        Task::Load { .. } => match completion {
            Completion::Resolved(_) => false,
            Completion::Loaded(_) => true,
        },
    }
}

} // verus!

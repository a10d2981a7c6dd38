//! The rules a capture, an idea and a decision have to satisfy, asked on
//! somebody's behalf.
//!
//! A record whose owner is not the caller is reported missing rather than
//! forbidden: a caller who could tell "no such capture" from "not yours" would
//! have an existence oracle for somebody else's notes.
use vstd::prelude::*;

use crate::ideas::files::{blank, dedupe, first_mentions, id_texts, is_blank_text, Capture, Idea};
use crate::ideas::ids::{CaptureId, IdeaId};
use crate::ideas::records::{Owner, RecordError, MAX_SEEDS};
use crate::ideas::store::{store_error_code, IdeaStore, IdeaStoreError};
use crate::text::{trim, trimmed};

verus! {

/// Why a request to Idea Inbox was refused.
#[derive(Debug)]
pub enum IdeaServiceError {
    EmptyCapture,
    EmptyName,
    NoSeeds,
    TooManySeeds { count: usize },
    CaptureNotFound { id: CaptureId },
    IdeaNotFound { id: IdeaId },
    Record(RecordError),
    Store(IdeaStoreError),
}

pub open spec fn service_error_code(e: IdeaServiceError) -> &'static str {
    match e {
        IdeaServiceError::EmptyCapture => "capture_empty",
        IdeaServiceError::EmptyName => "idea_name_empty",
        IdeaServiceError::NoSeeds => "idea_no_seeds",
        IdeaServiceError::TooManySeeds { .. } => "idea_too_many_seeds",
        IdeaServiceError::CaptureNotFound { .. } => "capture_not_found",
        IdeaServiceError::IdeaNotFound { .. } => "idea_not_found",
        IdeaServiceError::Record(_) => "idea_event_invalid",
        IdeaServiceError::Store(error) => store_error_code(error),
    }
}

impl IdeaServiceError {
    /// A stable, machine-readable identifier for what went wrong. A record
    /// that is not the caller's reports `*_not_found`, exactly as one that
    /// never existed does.
    pub fn code(&self) -> (c: &'static str)
        ensures
            c == service_error_code(*self),
    {
        match self {
            IdeaServiceError::EmptyCapture => "capture_empty",
            IdeaServiceError::EmptyName => "idea_name_empty",
            IdeaServiceError::NoSeeds => "idea_no_seeds",
            IdeaServiceError::TooManySeeds { .. } => "idea_too_many_seeds",
            IdeaServiceError::CaptureNotFound { .. } => "capture_not_found",
            IdeaServiceError::IdeaNotFound { .. } => "idea_not_found",
            IdeaServiceError::Record(_) => "idea_event_invalid",
            IdeaServiceError::Store(error) => error.code(),
        }
    }
}

/// Idea Inbox, with its rules attached.
#[derive(Debug, Clone)]
pub struct IdeaService {
    store: IdeaStore,
}

impl IdeaService {
    /// The store the service works on.
    pub closed spec fn store_of(&self) -> IdeaStore {
        self.store
    }

    pub fn new(store: IdeaStore) -> (s: Self)
        ensures
            s.store_of() == store,
    {
        IdeaService { store }
    }

    /// The unscoped file layer underneath, for reconciliation and the indexer.
    pub fn store(&self) -> (store: &IdeaStore)
        ensures
            *store == self.store_of(),
    {
        &self.store
    }
}

/// A capture's text is refused only when there is none: nothing but
/// whitespace.
pub fn check_capture_text(text: &str) -> (r: Result<(), IdeaServiceError>)
    ensures
        r is Ok <==> !blank(text@),
        r matches Err(e) ==> e is EmptyCapture,
{
    if is_blank_text(text) {
        Err(IdeaServiceError::EmptyCapture)
    } else {
        Ok(())
    }
}

/// An idea's name, trimmed, refused when nothing is left.
pub fn check_idea_name(name: &str) -> (r: Result<String, IdeaServiceError>)
    ensures
        match r {
            Ok(n) => n@ == trimmed(name@) && trimmed(name@).len() > 0,
            Err(e) => e is EmptyName && trimmed(name@).len() == 0,
        },
{
    let n = trim(name);
    if n.as_str().is_empty() {
        Err(IdeaServiceError::EmptyName)
    } else {
        Ok(n)
    }
}

/// The seeds an idea starts from: each capture once, in the order first
/// named, at least one and at most [`MAX_SEEDS`].
pub fn check_seeds(seeds: &[CaptureId]) -> (r: Result<Vec<CaptureId>, IdeaServiceError>)
    ensures
        match r {
            Ok(kept) => id_texts(kept@) == first_mentions(id_texts(seeds@)) && 0 < kept@.len() <= MAX_SEEDS,
            Err(IdeaServiceError::NoSeeds) => first_mentions(id_texts(seeds@)).len() == 0,
            Err(IdeaServiceError::TooManySeeds { count }) => count == first_mentions(id_texts(seeds@)).len()
                && count > MAX_SEEDS,
            Err(_) => false,
        },
{
    let kept = dedupe(seeds);
    if kept.len() == 0 {
        return Err(IdeaServiceError::NoSeeds);
    }
    if kept.len() > MAX_SEEDS {
        return Err(IdeaServiceError::TooManySeeds { count: kept.len() });
    }
    Ok(kept)
}

/// A capture as this caller may see it, from what the store read: one that is
/// not there, or is somebody else's, is not found.
pub fn capture_for(
    read: Result<Capture, IdeaStoreError>,
    owner: &Owner,
    id: &CaptureId,
) -> (r: Result<Capture, IdeaServiceError>)
    ensures
        match read {
            Ok(c) => if c.owner@ == owner@ {
                r matches Ok(v) && v == c
            } else {
                r matches Err(IdeaServiceError::CaptureNotFound { id: i }) && i@ == id@
            },
            Err(IdeaStoreError::NotFound { .. }) => (r matches Err(IdeaServiceError::CaptureNotFound { id: i }) && i@ == id@),
            Err(e) => r matches Err(IdeaServiceError::Store(s)) && s == e,
        },
{
    match read {
        Ok(capture) => {
            if capture.owner.same_as(owner) {
                Ok(capture)
            } else {
                Err(IdeaServiceError::CaptureNotFound { id: id.clone() })
            }
        },
        Err(IdeaStoreError::NotFound { .. }) => Err(IdeaServiceError::CaptureNotFound { id: id.clone() }),
        Err(error) => Err(IdeaServiceError::Store(error)),
    }
}

/// An idea as this caller may see it, from what the store read.
pub fn idea_for(read: Result<Idea, IdeaStoreError>, owner: &Owner, id: &IdeaId) -> (r: Result<Idea, IdeaServiceError>)
    ensures
        match read {
            Ok(i) => if i.owner@ == owner@ {
                r matches Ok(v) && v == i
            } else {
                r matches Err(IdeaServiceError::IdeaNotFound { id: x }) && x@ == id@
            },
            Err(IdeaStoreError::NotFound { .. }) => (r matches Err(IdeaServiceError::IdeaNotFound { id: x }) && x@ == id@),
            Err(e) => r matches Err(IdeaServiceError::Store(s)) && s == e,
        },
{
    match read {
        Ok(idea) => {
            if idea.owner.same_as(owner) {
                Ok(idea)
            } else {
                Err(IdeaServiceError::IdeaNotFound { id: id.clone() })
            }
        },
        Err(IdeaStoreError::NotFound { .. }) => Err(IdeaServiceError::IdeaNotFound { id: id.clone() }),
        Err(error) => Err(IdeaServiceError::Store(error)),
    }
}

/// An edit's new name, trimmed; `None` leaves the name alone, and a name that
/// trims to nothing is refused.
pub fn check_new_name(name: Option<&str>) -> (r: Result<Option<String>, IdeaServiceError>)
    ensures
        match name {
            None => r matches Ok(n) && n is None,
            Some(raw) => match r {
                Ok(Some(n)) => n@ == trimmed(raw@) && trimmed(raw@).len() > 0,
                Ok(None) => false,
                Err(e) => e is EmptyName && trimmed(raw@).len() == 0,
            },
        },
{
    match name {
        None => Ok(None),
        Some(raw) => match check_idea_name(raw) {
            Ok(n) => Ok(Some(n)),
            Err(e) => Err(e),
        },
    }
}

} // verus!

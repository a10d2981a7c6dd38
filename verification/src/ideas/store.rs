//! Idea Inbox's three authored trees: where each record's file lives, what a
//! writer may ask to be written, and how a failure is reported.
use vstd::prelude::*;

use std::path::{Path, PathBuf};

use crate::ideas::files::{Capture, Event, Idea};
use crate::ideas::ids::{CaptureId, IdeaId};
use crate::ideas::records::{
    outcome, read_spec, refs_of, EventKind, Owner, RecordError, RecordKind, Subject,
};
use crate::paths::{
    adjoined, as_path, borrowed, copy_path, display_path, join, path_parts, plain_name, shown, verbatim,
    without_verbatim,
};
use crate::text::has_prefix;

verus! {

#[verifier::external_type_specification]
#[verifier::external_body]
pub struct ExIoError(std::io::Error);

/// The wiki's own directory, which holds everything that is not a page.
pub const INTERNAL_DIR: &'static str = ".rhizolog";

/// Where Idea Inbox lives inside [`INTERNAL_DIR`].
pub const IDEAS_DIR: &'static str = "ideas";

/// Captures, filed by month.
pub const CAPTURES_DIR: &'static str = "captures";

/// Idea threads, filed flat.
pub const THREADS_DIR: &'static str = "threads";

/// Decision events, filed by month.
pub const EVENTS_DIR: &'static str = "events";

/// How many ids to try before giving up on finding a free one.
pub const MINT_ATTEMPTS: u32 = 1_000;

/// Why the store could not do what was asked.
#[derive(Debug)]
pub enum IdeaStoreError {
    NotFound { kind: RecordKind, id: String },
    NotUtf8 { kind: RecordKind, id: String },
    /// The path an id names resolves outside its tree, through a symlink.
    EscapesRoot { kind: RecordKind, id: String },
    Malformed { kind: RecordKind, id: String, source: RecordError },
    /// Every id the record's instant allows is taken. `at` is nanoseconds.
    NoFreeId { kind: RecordKind, at: i128 },
    Io(std::io::Error),
}

/// The stable, machine-readable name of a failure. The record kind is folded
/// into it, because "not found" means something different for each.
pub open spec fn store_error_code(e: IdeaStoreError) -> &'static str {
    match e {
        IdeaStoreError::NotFound { kind, .. } => match kind {
            RecordKind::Capture => "capture_not_found",
            RecordKind::Idea => "idea_not_found",
            RecordKind::Event => "idea_event_not_found",
        },
        IdeaStoreError::NotUtf8 { kind, .. } => match kind {
            RecordKind::Capture => "capture_not_utf8",
            RecordKind::Idea => "idea_not_utf8",
            RecordKind::Event => "idea_event_not_utf8",
        },
        IdeaStoreError::EscapesRoot { kind, .. } => match kind {
            RecordKind::Capture => "capture_escapes_root",
            RecordKind::Idea => "idea_escapes_root",
            RecordKind::Event => "idea_event_escapes_root",
        },
        IdeaStoreError::Malformed { kind, .. } => match kind {
            RecordKind::Capture => "capture_malformed",
            RecordKind::Idea => "idea_malformed",
            RecordKind::Event => "idea_event_malformed",
        },
        IdeaStoreError::NoFreeId { .. } => "idea_id_exhausted",
        IdeaStoreError::Io(_) => "io_error",
    }
}

impl IdeaStoreError {
    /// A stable, machine-readable identifier for what went wrong.
    pub fn code(&self) -> (c: &'static str)
        ensures
            c == store_error_code(*self),
    {
        match self {
            IdeaStoreError::NotFound { kind, .. } => match kind {
                RecordKind::Capture => "capture_not_found",
                RecordKind::Idea => "idea_not_found",
                RecordKind::Event => "idea_event_not_found",
            },
            IdeaStoreError::NotUtf8 { kind, .. } => match kind {
                RecordKind::Capture => "capture_not_utf8",
                RecordKind::Idea => "idea_not_utf8",
                RecordKind::Event => "idea_event_not_utf8",
            },
            IdeaStoreError::EscapesRoot { kind, .. } => match kind {
                RecordKind::Capture => "capture_escapes_root",
                RecordKind::Idea => "idea_escapes_root",
                RecordKind::Event => "idea_event_escapes_root",
            },
            IdeaStoreError::Malformed { kind, .. } => match kind {
                RecordKind::Capture => "capture_malformed",
                RecordKind::Idea => "idea_malformed",
                RecordKind::Event => "idea_event_malformed",
            },
            IdeaStoreError::NoFreeId { .. } => "idea_id_exhausted",
            IdeaStoreError::Io(_) => "io_error",
        }
    }

    /// The id the failure is about, for the error response's details.
    pub fn id(&self) -> (id: Option<&str>)
        ensures
            match *self {
                IdeaStoreError::NotFound { id: i, .. } => (id matches Some(s) && s@ == i@),
                IdeaStoreError::NotUtf8 { id: i, .. } => (id matches Some(s) && s@ == i@),
                IdeaStoreError::EscapesRoot { id: i, .. } => (id matches Some(s) && s@ == i@),
                IdeaStoreError::Malformed { id: i, .. } => (id matches Some(s) && s@ == i@),
                _ => id is None,
            },
    {
        match self {
            IdeaStoreError::NotFound { id, .. } => Some(id.as_str()),
            IdeaStoreError::NotUtf8 { id, .. } => Some(id.as_str()),
            IdeaStoreError::EscapesRoot { id, .. } => Some(id.as_str()),
            IdeaStoreError::Malformed { id, .. } => Some(id.as_str()),
            IdeaStoreError::NoFreeId { .. } => None,
            IdeaStoreError::Io(_) => None,
        }
    }

    pub fn not_found(kind: RecordKind, id: &str) -> (e: Self)
        ensures
            e matches IdeaStoreError::NotFound { kind: k, id: i } && k == kind && i@ == id@,
    {
        IdeaStoreError::NotFound { kind, id: id.to_string() }
    }

    pub fn not_utf8(kind: RecordKind, id: &str) -> (e: Self)
        ensures
            e matches IdeaStoreError::NotUtf8 { kind: k, id: i } && k == kind && i@ == id@,
    {
        IdeaStoreError::NotUtf8 { kind, id: id.to_string() }
    }

    pub fn malformed(kind: RecordKind, id: &str, source: RecordError) -> (e: Self)
        ensures
            e matches IdeaStoreError::Malformed { kind: k, id: i, source: s } && k == kind && i@ == id@
                && s == source,
    {
        IdeaStoreError::Malformed { kind, id: id.to_string(), source }
    }
}

/// One record found while walking a tree, without its contents.
#[derive(Debug, Clone, PartialEq, Eq)]
pub struct IdeaWalkEntry<Id> {
    pub id: Id,
    pub updated: i128,
    pub size: u64,
}

/// What a caller wants a capture to say. A write replaces the file whole.
#[derive(Debug, Clone, PartialEq, Eq)]
pub struct CaptureDraft {
    pub created: i128,
    pub owner: Owner,
    pub body: String,
}

/// What a caller wants an idea's file to say.
#[derive(Debug, Clone, PartialEq, Eq)]
pub struct IdeaDraft {
    pub name: String,
    pub created: i128,
    pub owner: Owner,
    pub seeds: Vec<CaptureId>,
    pub note: String,
}

/// What a caller wants an event to record. A draft that exists is one the
/// reader accepts, because [`EventDraft::new`] runs the reader's own rules.
#[derive(Debug, PartialEq, Eq)]
pub struct EventDraft {
    kind: EventKind,
    subject: Subject,
    created: i128,
    actor: Owner,
}

impl EventDraft {
    /// A draft of `kind` about `subject`, refused exactly when the reader would
    /// refuse the file; a capture pair comes back in canonical order.
    pub fn new(kind: EventKind, subject: Subject, created: i128, actor: Owner) -> (r: Result<Self, RecordError>)
        ensures
            match r {
                Ok(d) => d.kind_spec() == kind && d.created_spec() == created && d.actor_spec()@ == actor@
                    && read_spec(kind, refs_of(subject@)) == Ok::<_, RecordError>(d.subject_spec()@),
                Err(e) => read_spec(kind, refs_of(subject@)) == Err::<crate::ideas::records::SubjectView, _>(e),
            },
    {
        match subject.checked_for(kind) {
            Ok(subject) => Ok(EventDraft { kind, subject, created, actor }),
            Err(e) => Err(e),
        }
    }

    /// The draft taken apart: kind, subject, instant and actor.
    pub fn into_parts(self) -> (parts: (EventKind, Subject, i128, Owner))
        ensures
            parts.0 == self.kind_spec(),
            parts.1 == self.subject_spec(),
            parts.2 == self.created_spec(),
            parts.3 == self.actor_spec(),
    {
        (self.kind, self.subject, self.created, self.actor)
    }

    pub closed spec fn kind_spec(&self) -> EventKind {
        self.kind
    }

    pub fn kind(&self) -> (k: EventKind)
        ensures
            k == self.kind_spec(),
    {
        self.kind
    }

    pub closed spec fn subject_spec(&self) -> Subject {
        self.subject
    }

    pub fn subject(&self) -> (s: &Subject)
        ensures
            *s == self.subject_spec(),
    {
        &self.subject
    }

    pub closed spec fn created_spec(&self) -> i128 {
        self.created
    }

    pub fn created(&self) -> (c: i128)
        ensures
            c == self.created_spec(),
    {
        self.created
    }

    pub closed spec fn actor_spec(&self) -> Owner {
        self.actor
    }

    pub fn actor(&self) -> (a: &Owner)
        ensures
            *a == self.actor_spec(),
    {
        &self.actor
    }
}

/// The three authored trees of Idea Inbox.
#[derive(Debug)]
pub struct IdeaStore {
    root: PathBuf,
    captures: PathBuf,
    threads: PathBuf,
    events: PathBuf,
}

impl Clone for IdeaStore {
    fn clone(&self) -> (copy: Self) {
        IdeaStore {
            root: copy_path(&self.root),
            captures: copy_path(&self.captures),
            threads: copy_path(&self.threads),
            events: copy_path(&self.events),
        }
    }
}

/// The name of the tree a kind of record is filed in.
pub open spec fn tree_name(kind: RecordKind) -> &'static str {
    match kind {
        RecordKind::Capture => CAPTURES_DIR,
        RecordKind::Idea => THREADS_DIR,
        RecordKind::Event => EVENTS_DIR,
    }
}

impl IdeaStore {
    /// Idea Inbox for a wiki whose canonical root is `wiki_root`: the trees are
    /// `<wiki>/.rhizolog/ideas/{captures,threads,events}`. Nothing is created.
    pub fn at(wiki_root: &Path) -> (store: Self)
        ensures
            store.root_of() == adjoined(borrowed(&adjoined(wiki_root, INTERNAL_DIR@)), IDEAS_DIR@),
            forall|kind: RecordKind|
                #[trigger] store.tree_of(kind) == adjoined(
                    borrowed(&store.root_of()),
                    tree_name(kind)@,
                ),
            path_parts(borrowed(&store.root_of())) == path_parts(wiki_root).push(
                Some(INTERNAL_DIR@),
            ).push(Some(IDEAS_DIR@)),
            forall|kind: RecordKind|
                path_parts(borrowed(&#[trigger] store.tree_of(kind))) == path_parts(
                    borrowed(&store.root_of()),
                ).push(Some(tree_name(kind)@)),
    {
        proof {
            reveal_strlit(".rhizolog");
            reveal_strlit("ideas");
            reveal_strlit("captures");
            reveal_strlit("threads");
            reveal_strlit("events");
            assert(plain_name(INTERNAL_DIR@)) by {
                assert(INTERNAL_DIR@.len() == 9);
            }
            assert(plain_name(IDEAS_DIR@)) by {
                assert(IDEAS_DIR@.len() == 5);
            }
            assert(plain_name(CAPTURES_DIR@)) by {
                assert(CAPTURES_DIR@.len() == 8);
            }
            assert(plain_name(THREADS_DIR@)) by {
                assert(THREADS_DIR@.len() == 7);
            }
            assert(plain_name(EVENTS_DIR@)) by {
                assert(EVENTS_DIR@.len() == 6);
            }
        }
        let internal = join(wiki_root, INTERNAL_DIR);
        let root = join(as_path(&internal), IDEAS_DIR);
        let captures = join(as_path(&root), CAPTURES_DIR);
        let threads = join(as_path(&root), THREADS_DIR);
        let events = join(as_path(&root), EVENTS_DIR);
        IdeaStore { root, captures, threads, events }
    }

    /// Where the three trees sit.
    pub closed spec fn root_of(&self) -> PathBuf {
        self.root
    }

    pub closed spec fn tree_of(&self, kind: RecordKind) -> PathBuf {
        match kind {
            RecordKind::Capture => self.captures,
            RecordKind::Idea => self.threads,
            RecordKind::Event => self.events,
        }
    }

    pub fn root(&self) -> (root: &Path)
        ensures
            root == borrowed(&self.root_of()),
    {
        as_path(&self.root)
    }

    /// The store's root as people read it, free of Windows' verbatim prefix.
    pub fn root_display(&self) -> (text: String)
        ensures
            text@ == without_verbatim(shown(borrowed(&self.root_of()))),
            !has_prefix(text@, verbatim()),
    {
        display_path(as_path(&self.root))
    }

    pub fn captures_root(&self) -> (tree: &Path)
        ensures
            tree == borrowed(&self.tree_of(RecordKind::Capture)),
    {
        as_path(&self.captures)
    }

    pub fn threads_root(&self) -> (tree: &Path)
        ensures
            tree == borrowed(&self.tree_of(RecordKind::Idea)),
    {
        as_path(&self.threads)
    }

    pub fn events_root(&self) -> (tree: &Path)
        ensures
            tree == borrowed(&self.tree_of(RecordKind::Event)),
    {
        as_path(&self.events)
    }

    /// The tree a kind of record is filed in.
    pub fn tree(&self, kind: RecordKind) -> (tree: &Path)
        ensures
            tree == borrowed(&self.tree_of(kind)),
    {
        match kind {
            RecordKind::Capture => as_path(&self.captures),
            RecordKind::Idea => as_path(&self.threads),
            RecordKind::Event => as_path(&self.events),
        }
    }
}

/// Whether adoption should stamp an owner onto a record: only a record that
/// has none. One that names somebody is never reattributed.
pub fn needs_adopting(owner: &Owner) -> (r: bool)
    ensures
        r == (owner@ is None),
{
    owner.is_open()
}

/// An event given to `actor`, when it has no actor yet: who a decision is
/// attributed to changes, never what was decided or when.
pub fn adopted_event(existing: Event, actor: &Owner) -> (r: Option<Event>)
    ensures
        existing.actor@ is Some ==> r is None,
        existing.actor@ is None ==> (r matches Some(e) && e.actor@ == actor@ && e.id == existing.id
            && e.kind == existing.kind && e.subject == existing.subject && e.created == existing.created
            && e.updated == existing.updated && e.size == existing.size),
        owner_after_adoption(existing.actor@, actor@) == match r {
            Some(e) => e.actor@,
            None => existing.actor@,
        },
{
    if !existing.actor.is_open() {
        return None;
    }
    Some(Event { actor: actor.clone(), ..existing })
}


/// Whose a record is once adoption for `account` has passed over it: the
/// account's, when it belonged to nobody, and otherwise whoever it named.
pub open spec fn owner_after_adoption(owner: Option<Seq<char>>, account: Option<Seq<char>>) -> Option<
    Seq<char>,
> {
    match owner {
        None => account,
        Some(name) => Some(name),
    }
}

/// How many of these owners are nobody: the records adoption has to give away.
pub open spec fn unowned(owners: Seq<Option<Seq<char>>>) -> nat
    decreases owners.len(),
{
    if owners.len() == 0 {
        0
    } else {
        unowned(owners.drop_last()) + if owners.last() is None {
            1nat
        } else {
            0nat
        }
    }
}

/// The owners records have once adoption for `account` has passed over them.
pub open spec fn adopted_owners(owners: Seq<Option<Seq<char>>>, account: Seq<char>) -> Seq<Option<Seq<char>>> {
    owners.map_values(|o: Option<Seq<char>>| owner_after_adoption(o, Some(account)))
}

/// A run of adoption leaves no record without an owner, so a second run finds
/// nothing to adopt, however many records there were.
pub proof fn adopting_again_finds_nothing(owners: Seq<Option<Seq<char>>>, account: Seq<char>)
    ensures
        unowned(adopted_owners(owners, account)) == 0,
    decreases owners.len(),
{
    if owners.len() > 0 {
        adopting_again_finds_nothing(owners.drop_last(), account);
        assert(adopted_owners(owners, account).drop_last() =~= adopted_owners(owners.drop_last(), account));
    }
}

/// Adoption is idempotent: a second run for the same account changes no
/// owner the first run left, and once an account has adopted a record it
/// belongs to somebody.
pub proof fn adoption_is_idempotent(owner: Option<Seq<char>>, account: Seq<char>)
    ensures
        owner_after_adoption(owner_after_adoption(owner, Some(account)), Some(account))
            == owner_after_adoption(owner, Some(account)),
        owner_after_adoption(owner, Some(account)) is Some,
{
}

/// A capture given to `owner`, when it has no owner yet: whose it is changes,
/// never what it says or when it was written.
pub fn adopted_capture(existing: Capture, owner: &Owner) -> (r: Option<CaptureDraft>)
    ensures
        existing.owner@ is Some ==> r is None,
        existing.owner@ is None ==> (r matches Some(draft) && draft.owner@ == owner@
            && draft.created == existing.created && draft.body == existing.body),
        owner_after_adoption(existing.owner@, owner@) == match r {
            Some(draft) => draft.owner@,
            None => existing.owner@,
        },
{
    if !needs_adopting(&existing.owner) {
        return None;
    }
    Some(CaptureDraft { created: existing.created, owner: owner.clone(), body: existing.body })
}

/// An idea given to `owner`, when it has no owner yet: its name, seeds, note
/// and timestamp do not move.
pub fn adopted_idea(existing: Idea, owner: &Owner) -> (r: Option<IdeaDraft>)
    ensures
        existing.owner@ is Some ==> r is None,
        existing.owner@ is None ==> (r matches Some(draft) && draft.owner@ == owner@
            && draft.name == existing.name && draft.created == existing.created
            && draft.seeds == existing.seeds && draft.note == existing.note),
        owner_after_adoption(existing.owner@, owner@) == match r {
            Some(draft) => draft.owner@,
            None => existing.owner@,
        },
{
    if !needs_adopting(&existing.owner) {
        return None;
    }
    Some(
        IdeaDraft {
            name: existing.name,
            created: existing.created,
            owner: owner.clone(),
            seeds: existing.seeds,
            note: existing.note,
        },
    )
}

/// A capture's file with new text: its timestamp and owner do not move.
pub fn patched_capture(existing: Capture, body: &str) -> (draft: CaptureDraft)
    ensures
        draft.created == existing.created,
        draft.owner == existing.owner,
        draft.body@ == body@,
{
    CaptureDraft { created: existing.created, owner: existing.owner, body: body.to_string() }
}

/// An idea's file renamed or with a new note, each only where one is given:
/// its seeds, timestamp and owner do not move.
pub fn patched_idea(existing: Idea, name: Option<&str>, note: Option<&str>) -> (draft: IdeaDraft)
    ensures
        draft.name@ == (match name {
            Some(n) => n@,
            None => existing.name@,
        }),
        draft.note@ == (match note {
            Some(n) => n@,
            None => existing.note@,
        }),
        draft.created == existing.created,
        draft.owner == existing.owner,
        draft.seeds == existing.seeds,
{
    IdeaDraft {
        name: match name {
            Some(n) => n.to_string(),
            None => existing.name,
        },
        created: existing.created,
        owner: existing.owner,
        seeds: existing.seeds,
        note: match note {
            Some(n) => n.to_string(),
            None => existing.note,
        },
    }
}
} // verus!

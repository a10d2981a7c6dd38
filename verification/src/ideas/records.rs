//! Owners, event kinds, subjects and the rules an authored record obeys.
//!
//! The file formats themselves are YAML frontmatter and are read elsewhere;
//! what is here is what a record's fields have to add up to once read, which
//! is the part that decides whether a file is one of ours.
use vstd::prelude::*;

use crate::calendar::{second_of, stamp_of_seconds, stamp_text, MAX_SECONDS, min_instant};
use crate::ideas::ids::{id_instant, mintable, CaptureId, EventId, IdeaId};
use crate::slug::Slug;
use crate::text::{same_text, seq_lt};
use crate::users::Username;

verus! {

/// How many captures an idea may be started from.
pub const MAX_SEEDS: usize = 200;

/// Which of the three authored trees a record belongs to.
#[derive(Debug, Clone, Copy, PartialEq, Eq, Hash)]
pub enum RecordKind {
    Capture,
    Idea,
    Event,
}

pub open spec fn record_kind_name(kind: RecordKind) -> &'static str {
    match kind {
        RecordKind::Capture => "capture",
        RecordKind::Idea => "idea",
        RecordKind::Event => "event",
    }
}

impl RecordKind {
    pub fn as_str(self) -> (s: &'static str)
        ensures
            s == record_kind_name(self),
    {
        match self {
            RecordKind::Capture => "capture",
            RecordKind::Idea => "idea",
            RecordKind::Event => "event",
        }
    }
}

/// What somebody did: twelve words, spelled in the file exactly as here.
#[derive(Debug, Clone, Copy, PartialEq, Eq, Hash)]
pub enum EventKind {
    CaptureConnected,
    CaptureDisconnected,
    CandidateRejected,
    CandidateReconsidered,
    InterestAffirmed,
    CaptureArchived,
    CaptureRestored,
    CaptureDeleted,
    IdeaRetired,
    IdeaReopened,
    IdeaPromoted,
    RediscoveryDismissed,
}

pub open spec fn event_kind_name(kind: EventKind) -> &'static str {
    match kind {
        EventKind::CaptureConnected => "capture_connected",
        EventKind::CaptureDisconnected => "capture_disconnected",
        EventKind::CandidateRejected => "candidate_rejected",
        EventKind::CandidateReconsidered => "candidate_reconsidered",
        EventKind::InterestAffirmed => "interest_affirmed",
        EventKind::CaptureArchived => "capture_archived",
        EventKind::CaptureRestored => "capture_restored",
        EventKind::CaptureDeleted => "capture_deleted",
        EventKind::IdeaRetired => "idea_retired",
        EventKind::IdeaReopened => "idea_reopened",
        EventKind::IdeaPromoted => "idea_promoted",
        EventKind::RediscoveryDismissed => "rediscovery_dismissed",
    }
}

impl EventKind {
    pub fn as_str(self) -> (s: &'static str)
        ensures
            s == event_kind_name(self),
    {
        match self {
            EventKind::CaptureConnected => "capture_connected",
            EventKind::CaptureDisconnected => "capture_disconnected",
            EventKind::CandidateRejected => "candidate_rejected",
            EventKind::CandidateReconsidered => "candidate_reconsidered",
            EventKind::InterestAffirmed => "interest_affirmed",
            EventKind::CaptureArchived => "capture_archived",
            EventKind::CaptureRestored => "capture_restored",
            EventKind::CaptureDeleted => "capture_deleted",
            EventKind::IdeaRetired => "idea_retired",
            EventKind::IdeaReopened => "idea_reopened",
            EventKind::IdeaPromoted => "idea_promoted",
            EventKind::RediscoveryDismissed => "rediscovery_dismissed",
        }
    }
}

/// The kind a file's `kind:` names, if it names one.
pub open spec fn event_kind_named(raw: Seq<char>) -> Option<EventKind> {
    if raw == "capture_connected"@ {
        Some(EventKind::CaptureConnected)
    } else if raw == "capture_disconnected"@ {
        Some(EventKind::CaptureDisconnected)
    } else if raw == "candidate_rejected"@ {
        Some(EventKind::CandidateRejected)
    } else if raw == "candidate_reconsidered"@ {
        Some(EventKind::CandidateReconsidered)
    } else if raw == "interest_affirmed"@ {
        Some(EventKind::InterestAffirmed)
    } else if raw == "capture_archived"@ {
        Some(EventKind::CaptureArchived)
    } else if raw == "capture_restored"@ {
        Some(EventKind::CaptureRestored)
    } else if raw == "capture_deleted"@ {
        Some(EventKind::CaptureDeleted)
    } else if raw == "idea_retired"@ {
        Some(EventKind::IdeaRetired)
    } else if raw == "idea_reopened"@ {
        Some(EventKind::IdeaReopened)
    } else if raw == "idea_promoted"@ {
        Some(EventKind::IdeaPromoted)
    } else if raw == "rediscovery_dismissed"@ {
        Some(EventKind::RediscoveryDismissed)
    } else {
        None
    }
}

impl EventKind {
    /// The kind a file spells as `raw`: the inverse of [`EventKind::as_str`].
    pub fn parse(raw: &str) -> (kind: Option<Self>)
        ensures
            kind == event_kind_named(raw@),
    {
        if same_text(raw, "capture_connected") {
            Some(EventKind::CaptureConnected)
        } else if same_text(raw, "capture_disconnected") {
            Some(EventKind::CaptureDisconnected)
        } else if same_text(raw, "candidate_rejected") {
            Some(EventKind::CandidateRejected)
        } else if same_text(raw, "candidate_reconsidered") {
            Some(EventKind::CandidateReconsidered)
        } else if same_text(raw, "interest_affirmed") {
            Some(EventKind::InterestAffirmed)
        } else if same_text(raw, "capture_archived") {
            Some(EventKind::CaptureArchived)
        } else if same_text(raw, "capture_restored") {
            Some(EventKind::CaptureRestored)
        } else if same_text(raw, "capture_deleted") {
            Some(EventKind::CaptureDeleted)
        } else if same_text(raw, "idea_retired") {
            Some(EventKind::IdeaRetired)
        } else if same_text(raw, "idea_reopened") {
            Some(EventKind::IdeaReopened)
        } else if same_text(raw, "idea_promoted") {
            Some(EventKind::IdeaPromoted)
        } else if same_text(raw, "rediscovery_dismissed") {
            Some(EventKind::RediscoveryDismissed)
        } else {
            None
        }
    }
}

/// Every kind reads back from its own spelling, so no two kinds share one.
pub proof fn event_kind_names_round_trip(kind: EventKind)
    ensures
        event_kind_named(event_kind_name(kind)@) == Some(kind),
{
    reveal_strlit("capture_connected");
    reveal_strlit("capture_disconnected");
    reveal_strlit("candidate_rejected");
    reveal_strlit("candidate_reconsidered");
    reveal_strlit("interest_affirmed");
    reveal_strlit("capture_archived");
    reveal_strlit("capture_restored");
    reveal_strlit("capture_deleted");
    reveal_strlit("idea_retired");
    reveal_strlit("idea_reopened");
    reveal_strlit("idea_promoted");
    reveal_strlit("rediscovery_dismissed");
    match kind {
        EventKind::CaptureConnected => {
        },
        EventKind::CaptureDisconnected => {
            assert("capture_disconnected"@.len() != "capture_connected"@.len());
        },
        EventKind::CandidateRejected => {
            assert("candidate_rejected"@.len() != "capture_connected"@.len());
            assert("candidate_rejected"@.len() != "capture_disconnected"@.len());
        },
        EventKind::CandidateReconsidered => {
            assert("candidate_reconsidered"@.len() != "capture_connected"@.len());
            assert("candidate_reconsidered"@.len() != "capture_disconnected"@.len());
            assert("candidate_reconsidered"@.len() != "candidate_rejected"@.len());
        },
        EventKind::InterestAffirmed => {
            assert("interest_affirmed"@[0] != "capture_connected"@[0]);
            assert("interest_affirmed"@.len() != "capture_disconnected"@.len());
            assert("interest_affirmed"@.len() != "candidate_rejected"@.len());
            assert("interest_affirmed"@.len() != "candidate_reconsidered"@.len());
        },
        EventKind::CaptureArchived => {
            assert("capture_archived"@.len() != "capture_connected"@.len());
            assert("capture_archived"@.len() != "capture_disconnected"@.len());
            assert("capture_archived"@.len() != "candidate_rejected"@.len());
            assert("capture_archived"@.len() != "candidate_reconsidered"@.len());
            assert("capture_archived"@.len() != "interest_affirmed"@.len());
        },
        EventKind::CaptureRestored => {
            assert("capture_restored"@.len() != "capture_connected"@.len());
            assert("capture_restored"@.len() != "capture_disconnected"@.len());
            assert("capture_restored"@.len() != "candidate_rejected"@.len());
            assert("capture_restored"@.len() != "candidate_reconsidered"@.len());
            assert("capture_restored"@.len() != "interest_affirmed"@.len());
            assert("capture_restored"@[8] != "capture_archived"@[8]);
        },
        EventKind::CaptureDeleted => {
            assert("capture_deleted"@.len() != "capture_connected"@.len());
            assert("capture_deleted"@.len() != "capture_disconnected"@.len());
            assert("capture_deleted"@.len() != "candidate_rejected"@.len());
            assert("capture_deleted"@.len() != "candidate_reconsidered"@.len());
            assert("capture_deleted"@.len() != "interest_affirmed"@.len());
            assert("capture_deleted"@.len() != "capture_archived"@.len());
            assert("capture_deleted"@.len() != "capture_restored"@.len());
        },
        EventKind::IdeaRetired => {
            assert("idea_retired"@.len() != "capture_connected"@.len());
            assert("idea_retired"@.len() != "capture_disconnected"@.len());
            assert("idea_retired"@.len() != "candidate_rejected"@.len());
            assert("idea_retired"@.len() != "candidate_reconsidered"@.len());
            assert("idea_retired"@.len() != "interest_affirmed"@.len());
            assert("idea_retired"@.len() != "capture_archived"@.len());
            assert("idea_retired"@.len() != "capture_restored"@.len());
            assert("idea_retired"@.len() != "capture_deleted"@.len());
        },
        EventKind::IdeaReopened => {
            assert("idea_reopened"@.len() != "capture_connected"@.len());
            assert("idea_reopened"@.len() != "capture_disconnected"@.len());
            assert("idea_reopened"@.len() != "candidate_rejected"@.len());
            assert("idea_reopened"@.len() != "candidate_reconsidered"@.len());
            assert("idea_reopened"@.len() != "interest_affirmed"@.len());
            assert("idea_reopened"@.len() != "capture_archived"@.len());
            assert("idea_reopened"@.len() != "capture_restored"@.len());
            assert("idea_reopened"@.len() != "capture_deleted"@.len());
            assert("idea_reopened"@.len() != "idea_retired"@.len());
        },
        EventKind::IdeaPromoted => {
            assert("idea_promoted"@.len() != "capture_connected"@.len());
            assert("idea_promoted"@.len() != "capture_disconnected"@.len());
            assert("idea_promoted"@.len() != "candidate_rejected"@.len());
            assert("idea_promoted"@.len() != "candidate_reconsidered"@.len());
            assert("idea_promoted"@.len() != "interest_affirmed"@.len());
            assert("idea_promoted"@.len() != "capture_archived"@.len());
            assert("idea_promoted"@.len() != "capture_restored"@.len());
            assert("idea_promoted"@.len() != "capture_deleted"@.len());
            assert("idea_promoted"@.len() != "idea_retired"@.len());
            assert("idea_promoted"@[5] != "idea_reopened"@[5]);
        },
        EventKind::RediscoveryDismissed => {
            assert("rediscovery_dismissed"@.len() != "capture_connected"@.len());
            assert("rediscovery_dismissed"@.len() != "capture_disconnected"@.len());
            assert("rediscovery_dismissed"@.len() != "candidate_rejected"@.len());
            assert("rediscovery_dismissed"@.len() != "candidate_reconsidered"@.len());
            assert("rediscovery_dismissed"@.len() != "interest_affirmed"@.len());
            assert("rediscovery_dismissed"@.len() != "capture_archived"@.len());
            assert("rediscovery_dismissed"@.len() != "capture_restored"@.len());
            assert("rediscovery_dismissed"@.len() != "capture_deleted"@.len());
            assert("rediscovery_dismissed"@.len() != "idea_retired"@.len());
            assert("rediscovery_dismissed"@.len() != "idea_reopened"@.len());
            assert("rediscovery_dismissed"@.len() != "idea_promoted"@.len());
        },
    }
}

/// Who a capture, an idea or an event belongs to: an account, or the one user
/// of a wiki with no accounts.
///
/// Two records belong together only when their owners are equal, and that is
/// the whole of the rule.
#[derive(Debug, Default, PartialEq, Eq, Hash)]
pub struct Owner(Option<Username>);

impl View for Owner {
    type V = Option<Seq<char>>;

    closed spec fn view(&self) -> Option<Seq<char>> {
        match self.0 {
            Some(name) => Some(name@),
            None => None,
        }
    }
}

impl Clone for Owner {
    fn clone(&self) -> (copy: Self)
        ensures
            copy@ == self@,
    {
        match &self.0 {
            Some(name) => Owner(Some(name.clone())),
            None => Owner(None),
        }
    }
}

impl Owner {
    /// The one user of a wiki with no accounts.
    pub fn open() -> (owner: Self)
        ensures
            owner@ is None,
    {
        Owner(None)
    }

    pub fn of(username: Username) -> (owner: Self)
        ensures
            owner@ == Some(username@),
    {
        Owner(Some(username))
    }

    pub fn is_open(&self) -> (r: bool)
        ensures
            r == (self@ is None),
    {
        self.0.is_none()
    }

    pub fn username(&self) -> (name: Option<&Username>)
        ensures
            name is None <==> self@ is None,
            name matches Some(n) ==> self@ == Some(n@),
    {
        match &self.0 {
            Some(name) => Some(name),
            None => None,
        }
    }

    /// Whether two owners are the same person.
    pub fn same_as(&self, other: &Self) -> (r: bool)
        ensures
            r == (self@ == other@),
    {
        match (&self.0, &other.0) {
            (Some(a), Some(b)) => a.same_as(b),
            (None, None) => true,
            _ => false,
        }
    }

    /// How an owner is named in prose: the account's name, or "the open user".
    pub fn to_display(&self) -> (text: String)
        ensures
            self@ matches Some(name) ==> text@ == name,
            self@ is None ==> text@ == "the open user"@,
    {
        match &self.0 {
            Some(name) => name.as_str().to_owned(),
            None => "the open user".to_owned(),
        }
    }
}

/// One of the four reference fields an event's frontmatter may carry.
#[derive(Debug, Clone, Copy, PartialEq, Eq)]
pub enum Reference {
    Idea,
    Capture,
    OtherCapture,
    Page,
}

pub open spec fn reference_name(reference: Reference) -> &'static str {
    match reference {
        Reference::Idea => "idea",
        Reference::Capture => "capture",
        Reference::OtherCapture => "other_capture",
        Reference::Page => "page",
    }
}

impl Reference {
    pub fn as_str(self) -> (s: &'static str)
        ensures
            s == reference_name(self),
    {
        match self {
            Reference::Idea => "idea",
            Reference::Capture => "capture",
            Reference::OtherCapture => "other_capture",
            Reference::Page => "page",
        }
    }
}

/// Why an authored record could not be read.
#[derive(Debug, PartialEq, Eq)]
pub enum RecordError {
    MissingField { record: RecordKind, field: &'static str },
    NoSeeds,
    TooManySeeds { count: usize },
    MissingReference { event: EventKind, field: &'static str },
    UnexpectedReference { event: EventKind, field: &'static str },
    CandidateShape { event: EventKind },
    SelfPair,
    IdDisagreement { expected: String, found: String },
    /// The file's frontmatter could not be read.
    Frontmatter(crate::frontmatter::FrontmatterError),
}

/// What an event is about: the records it names, checked against its kind.
#[derive(Debug, Clone, PartialEq, Eq)]
pub enum Subject {
    /// A capture and an idea: connected, disconnected, or suggested for it.
    IdeaCapture { idea: IdeaId, capture: CaptureId },
    /// Two captures suggested for each other, held in lexical order.
    CapturePair { capture: CaptureId, other: CaptureId },
    /// A whole idea: affirmed, retired, reopened, or dismissed.
    Idea { idea: IdeaId },
    /// A whole capture: archived, restored, or deleted.
    Capture { capture: CaptureId },
    /// The page an idea produced.
    Promotion { idea: IdeaId, page: Slug },
}

/// A subject with every id taken by its text.
pub enum SubjectView {
    IdeaCapture { idea: Seq<char>, capture: Seq<char> },
    CapturePair { capture: Seq<char>, other: Seq<char> },
    Idea { idea: Seq<char> },
    Capture { capture: Seq<char> },
    Promotion { idea: Seq<char>, page: Seq<char> },
}

impl View for Subject {
    type V = SubjectView;

    open spec fn view(&self) -> SubjectView {
        match self {
            Subject::IdeaCapture { idea, capture } => SubjectView::IdeaCapture {
                idea: idea@,
                capture: capture@,
            },
            Subject::CapturePair { capture, other } => SubjectView::CapturePair {
                capture: capture@,
                other: other@,
            },
            Subject::Idea { idea } => SubjectView::Idea { idea: idea@ },
            Subject::Capture { capture } => SubjectView::Capture { capture: capture@ },
            Subject::Promotion { idea, page } => SubjectView::Promotion {
                idea: idea@,
                page: page@,
            },
        }
    }
}

/// The four references an event file may carry, by their text.
pub struct RefsView {
    pub idea: Option<Seq<char>>,
    pub capture: Option<Seq<char>>,
    pub other: Option<Seq<char>>,
    pub page: Option<Seq<char>>,
}

/// The references a subject would write.
pub open spec fn refs_of(subject: SubjectView) -> RefsView {
    match subject {
        SubjectView::IdeaCapture { idea, capture } => RefsView {
            idea: Some(idea),
            capture: Some(capture),
            other: None,
            page: None,
        },
        SubjectView::CapturePair { capture, other } => RefsView {
            idea: None,
            capture: Some(capture),
            other: Some(other),
            page: None,
        },
        SubjectView::Idea { idea } => RefsView {
            idea: Some(idea),
            capture: None,
            other: None,
            page: None,
        },
        SubjectView::Capture { capture } => RefsView {
            idea: None,
            capture: Some(capture),
            other: None,
            page: None,
        },
        SubjectView::Promotion { idea, page } => RefsView {
            idea: Some(idea),
            capture: None,
            other: None,
            page: Some(page),
        },
    }
}

/// Two captures as a pair, in the order that makes the pair one thing.
pub open spec fn pair_view(capture: Seq<char>, other: Seq<char>) -> SubjectView {
    if seq_lt(other, capture) {
        SubjectView::CapturePair { capture: other, other: capture }
    } else {
        SubjectView::CapturePair { capture, other }
    }
}

pub open spec fn is_present(refs: RefsView, reference: Reference) -> bool {
    match reference {
        Reference::Idea => refs.idea is Some,
        Reference::Capture => refs.capture is Some,
        Reference::OtherCapture => refs.other is Some,
        Reference::Page => refs.page is Some,
    }
}

/// The first of `fields` that is present, refused.
pub open spec fn refusal(kind: EventKind, refs: RefsView, fields: Seq<Reference>) -> Option<
    RecordError,
>
    decreases fields.len(),
{
    if fields.len() == 0 {
        None
    } else if is_present(refs, fields[0]) {
        Some(
            RecordError::UnexpectedReference { event: kind, field: reference_name(fields[0]) },
        )
    } else {
        refusal(kind, refs, fields.drop_first())
    }
}

pub open spec fn missing(kind: EventKind, reference: Reference) -> RecordError {
    RecordError::MissingReference { event: kind, field: reference_name(reference) }
}

/// What reading an event of `kind` with these references gives: the subject,
/// or the first thing wrong with them.
pub open spec fn read_spec(kind: EventKind, refs: RefsView) -> Result<SubjectView, RecordError> {
    match kind {
        EventKind::CaptureConnected | EventKind::CaptureDisconnected => {
            if refs.idea is None {
                Err(missing(kind, Reference::Idea))
            } else if refs.capture is None {
                Err(missing(kind, Reference::Capture))
            } else if let Some(e) = refusal(
                kind,
                refs,
                seq![Reference::OtherCapture, Reference::Page],
            ) {
                Err(e)
            } else {
                Ok(SubjectView::IdeaCapture { idea: refs.idea->0, capture: refs.capture->0 })
            }
        },
        EventKind::CandidateRejected | EventKind::CandidateReconsidered => {
            if let Some(e) = refusal(kind, refs, seq![Reference::Page]) {
                Err(e)
            } else if refs.idea is Some && refs.capture is Some && refs.other is None {
                Ok(SubjectView::IdeaCapture { idea: refs.idea->0, capture: refs.capture->0 })
            } else if refs.idea is None && refs.capture is Some && refs.other is Some {
                if refs.capture->0 == refs.other->0 {
                    Err(RecordError::SelfPair)
                } else {
                    Ok(pair_view(refs.capture->0, refs.other->0))
                }
            } else {
                Err(RecordError::CandidateShape { event: kind })
            }
        },
        EventKind::InterestAffirmed
        | EventKind::IdeaRetired
        | EventKind::IdeaReopened
        | EventKind::RediscoveryDismissed => {
            if refs.idea is None {
                Err(missing(kind, Reference::Idea))
            } else if let Some(e) = refusal(
                kind,
                refs,
                seq![Reference::Capture, Reference::OtherCapture, Reference::Page],
            ) {
                Err(e)
            } else {
                Ok(SubjectView::Idea { idea: refs.idea->0 })
            }
        },
        EventKind::CaptureArchived | EventKind::CaptureRestored | EventKind::CaptureDeleted => {
            if refs.capture is None {
                Err(missing(kind, Reference::Capture))
            } else if let Some(e) = refusal(
                kind,
                refs,
                seq![Reference::Idea, Reference::OtherCapture, Reference::Page],
            ) {
                Err(e)
            } else {
                Ok(SubjectView::Capture { capture: refs.capture->0 })
            }
        },
        EventKind::IdeaPromoted => {
            if refs.idea is None {
                Err(missing(kind, Reference::Idea))
            } else if refs.page is None {
                Err(missing(kind, Reference::Page))
            } else if let Some(e) = refusal(
                kind,
                refs,
                seq![Reference::Capture, Reference::OtherCapture],
            ) {
                Err(e)
            } else {
                Ok(SubjectView::Promotion { idea: refs.idea->0, page: refs.page->0 })
            }
        },
    }
}

/// A reading, with the subject taken by its view.
pub open spec fn outcome(r: Result<Subject, RecordError>) -> Result<SubjectView, RecordError> {
    match r {
        Ok(s) => Ok(s@),
        Err(e) => Err(e),
    }
}

/// The reference half of an event's frontmatter, on its own.
#[derive(Debug, Default)]
pub struct References {
    pub idea: Option<IdeaId>,
    pub capture: Option<CaptureId>,
    pub other_capture: Option<CaptureId>,
    pub page: Option<Slug>,
}

pub open spec fn opt_view<T: View<V = Seq<char>>>(o: Option<T>) -> Option<Seq<char>> {
    match o {
        Some(t) => Some(t@),
        None => None,
    }
}

impl View for References {
    type V = RefsView;

    open spec fn view(&self) -> RefsView {
        RefsView {
            idea: opt_view(self.idea),
            capture: opt_view(self.capture),
            other: opt_view(self.other_capture),
            page: opt_view(self.page),
        }
    }
}

impl References {
    pub fn is_present(&self, reference: Reference) -> (r: bool)
        ensures
            r == is_present(self@, reference),
    {
        match reference {
            Reference::Idea => self.idea.is_some(),
            Reference::Capture => self.capture.is_some(),
            Reference::OtherCapture => self.other_capture.is_some(),
            Reference::Page => self.page.is_some(),
        }
    }

    pub fn required_idea(&self, event: EventKind) -> (r: Result<IdeaId, RecordError>)
        ensures
            r matches Ok(id) ==> self@.idea == Some(id@),
            r matches Err(e) ==> self@.idea is None && e == missing(event, Reference::Idea),
            r is Ok <==> self@.idea is Some,
    {
        match &self.idea {
            Some(id) => Ok(id.clone()),
            None => Err(RecordError::MissingReference { event, field: Reference::Idea.as_str() }),
        }
    }

    pub fn required_capture(&self, event: EventKind) -> (r: Result<CaptureId, RecordError>)
        ensures
            r matches Ok(id) ==> self@.capture == Some(id@),
            r matches Err(e) ==> self@.capture is None && e == missing(event, Reference::Capture),
            r is Ok <==> self@.capture is Some,
    {
        match &self.capture {
            Some(id) => Ok(id.clone()),
            None => Err(
                RecordError::MissingReference { event, field: Reference::Capture.as_str() },
            ),
        }
    }

    /// Refuses the first of `fields` that is present: a reference the fold
    /// will never look at says something the file does not mean.
    pub fn refuse(&self, event: EventKind, fields: &[Reference]) -> (r: Result<(), RecordError>)
        ensures
            match refusal(event, self@, fields@) {
                Some(e) => r == Err::<(), RecordError>(e),
                None => r is Ok,
            },
    {
        let mut i: usize = 0;
        assert(fields@.skip(0) =~= fields@);
        while i < fields.len()
            invariant
                i <= fields@.len(),
                refusal(event, self@, fields@) == refusal(event, self@, fields@.skip(i as int)),
            decreases fields@.len() - i,
        {
            assert(fields@.skip(i as int).drop_first() =~= fields@.skip(i + 1));
            if self.is_present(fields[i]) {
                return Err(
                    RecordError::UnexpectedReference { event, field: fields[i].as_str() },
                );
            }
            i = i + 1;
        }
        Ok(())
    }
}

impl Subject {
    /// Two captures, in the order that makes the pair canonical.
    pub fn pair(capture: CaptureId, other: CaptureId) -> (pair: Self)
        ensures
            pair@ == pair_view(capture@, other@),
    {
        if other.precedes(&capture) {
            Subject::CapturePair { capture: other, other: capture }
        } else {
            Subject::CapturePair { capture, other }
        }
    }

    pub fn idea(&self) -> (id: Option<&IdeaId>)
        ensures
            match id {
                Some(i) => refs_of(self@).idea == Some(i@),
                None => refs_of(self@).idea is None,
            },
    {
        match self {
            Subject::IdeaCapture { idea, .. } => Some(idea),
            Subject::Idea { idea } => Some(idea),
            Subject::Promotion { idea, .. } => Some(idea),
            Subject::CapturePair { .. } => None,
            Subject::Capture { .. } => None,
        }
    }

    pub fn capture(&self) -> (id: Option<&CaptureId>)
        ensures
            match id {
                Some(c) => refs_of(self@).capture == Some(c@),
                None => refs_of(self@).capture is None,
            },
    {
        match self {
            Subject::IdeaCapture { capture, .. } => Some(capture),
            Subject::CapturePair { capture, .. } => Some(capture),
            Subject::Capture { capture } => Some(capture),
            Subject::Idea { .. } => None,
            Subject::Promotion { .. } => None,
        }
    }

    pub fn other_capture(&self) -> (id: Option<&CaptureId>)
        ensures
            match id {
                Some(c) => refs_of(self@).other == Some(c@),
                None => refs_of(self@).other is None,
            },
    {
        match self {
            Subject::CapturePair { other, .. } => Some(other),
            _ => None,
        }
    }

    pub fn page(&self) -> (page: Option<&Slug>)
        ensures
            match page {
                Some(p) => refs_of(self@).page == Some(p@),
                None => refs_of(self@).page is None,
            },
    {
        match self {
            Subject::Promotion { page, .. } => Some(page),
            _ => None,
        }
    }

    /// The references this subject would write into an event file.
    pub fn references(&self) -> (refs: References)
        ensures
            refs@ == refs_of(self@),
    {
        let idea = match self.idea() {
            Some(id) => Some(id.clone()),
            None => None,
        };
        let capture = match self.capture() {
            Some(id) => Some(id.clone()),
            None => None,
        };
        let other_capture = match self.other_capture() {
            Some(id) => Some(id.clone()),
            None => None,
        };
        let page = match self.page() {
            Some(p) => Some(p.clone()),
            None => None,
        };
        References { idea, capture, other_capture, page }
    }

    /// This subject, checked against the kind of event it would belong to.
    ///
    /// Runs the reader's validation over what a writer would put in the file,
    /// so a subject that comes back from here is one the next startup can
    /// parse; a capture pair comes back in canonical order.
    pub fn checked_for(self, kind: EventKind) -> (r: Result<Self, RecordError>)
        ensures
            outcome(r) == read_spec(kind, refs_of(self@)),
    {
        let refs = self.references();
        Self::read(kind, &refs)
    }

    /// Reads a subject from the references an event file carries.
    pub fn read(kind: EventKind, refs: &References) -> (r: Result<Self, RecordError>)
        ensures
            outcome(r) == read_spec(kind, refs@),
    {
        match kind {
            EventKind::CaptureConnected | EventKind::CaptureDisconnected => {
                let idea = match refs.required_idea(kind) {
                    Ok(id) => id,
                    Err(e) => return Err(e),
                };
                let capture = match refs.required_capture(kind) {
                    Ok(id) => id,
                    Err(e) => return Err(e),
                };
                match refs.refuse(kind, &[Reference::OtherCapture, Reference::Page]) {
                    Ok(()) => {},
                    Err(e) => {
                        assert(seq![Reference::OtherCapture, Reference::Page] =~= [
                            Reference::OtherCapture,
                            Reference::Page,
                        ]@);
                        return Err(e);
                    },
                }
                assert(seq![Reference::OtherCapture, Reference::Page] =~= [
                    Reference::OtherCapture,
                    Reference::Page,
                ]@);
                Ok(Subject::IdeaCapture { idea, capture })
            },
            EventKind::CandidateRejected | EventKind::CandidateReconsidered => {
                assert(seq![Reference::Page] =~= [Reference::Page]@);
                match refs.refuse(kind, &[Reference::Page]) {
                    Ok(()) => {},
                    Err(e) => return Err(e),
                }
                match (&refs.idea, &refs.capture, &refs.other_capture) {
                    (Some(idea), Some(capture), None) => Ok(
                        Subject::IdeaCapture { idea: idea.clone(), capture: capture.clone() },
                    ),
                    (None, Some(capture), Some(other)) => {
                        if capture.same_as(other) {
                            Err(RecordError::SelfPair)
                        } else {
                            Ok(Self::pair(capture.clone(), other.clone()))
                        }
                    },
                    _ => Err(RecordError::CandidateShape { event: kind }),
                }
            },
            EventKind::InterestAffirmed
            | EventKind::IdeaRetired
            | EventKind::IdeaReopened
            | EventKind::RediscoveryDismissed => {
                let idea = match refs.required_idea(kind) {
                    Ok(id) => id,
                    Err(e) => return Err(e),
                };
                assert(seq![Reference::Capture, Reference::OtherCapture, Reference::Page] =~= [
                    Reference::Capture,
                    Reference::OtherCapture,
                    Reference::Page,
                ]@);
                match refs.refuse(
                    kind,
                    &[Reference::Capture, Reference::OtherCapture, Reference::Page],
                ) {
                    Ok(()) => {},
                    Err(e) => return Err(e),
                }
                Ok(Subject::Idea { idea })
            },
            EventKind::CaptureArchived | EventKind::CaptureRestored | EventKind::CaptureDeleted => {
                let capture = match refs.required_capture(kind) {
                    Ok(id) => id,
                    Err(e) => return Err(e),
                };
                assert(seq![Reference::Idea, Reference::OtherCapture, Reference::Page] =~= [
                    Reference::Idea,
                    Reference::OtherCapture,
                    Reference::Page,
                ]@);
                match refs.refuse(
                    kind,
                    &[Reference::Idea, Reference::OtherCapture, Reference::Page],
                ) {
                    Ok(()) => {},
                    Err(e) => return Err(e),
                }
                Ok(Subject::Capture { capture })
            },
            EventKind::IdeaPromoted => {
                let idea = match refs.required_idea(kind) {
                    Ok(id) => id,
                    Err(e) => return Err(e),
                };
                let page = match &refs.page {
                    Some(page) => page.clone(),
                    None => {
                        return Err(
                            RecordError::MissingReference {
                                event: kind,
                                field: Reference::Page.as_str(),
                            },
                        )
                    },
                };
                assert(seq![Reference::Capture, Reference::OtherCapture] =~= [
                    Reference::Capture,
                    Reference::OtherCapture,
                ]@);
                match refs.refuse(kind, &[Reference::Capture, Reference::OtherCapture]) {
                    Ok(()) => {},
                    Err(e) => return Err(e),
                }
                Ok(Subject::Promotion { idea, page })
            },
        }
    }
}

} // verus!

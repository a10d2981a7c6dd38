//! The three authored records, once their frontmatter has been read.
//!
//! A capture, an idea and an event are each a frontmatter block and a body.
//! Reading the YAML is the frontmatter reader's job; what is here decides
//! whether the fields it found make a record, and fills in what a file may
//! leave out.
use vstd::prelude::*;

use crate::calendar::{second_of, stamp_of_seconds, stamp_text, split_instant};
use crate::ideas::ids::{id_instant, mintable, CaptureId, EventId, IdeaId};
use crate::ideas::records::{
    outcome, read_spec, EventKind, Owner, RecordError, RecordKind, References, RefsView,
    Subject, SubjectView, MAX_SEEDS,
};
use crate::slug::Slug;
use crate::text::{chars_of, is_whitespace, same_text, whitespace};

verus! {

/// Whether every character of `s` is whitespace, which is whether trimming it
/// leaves nothing.
pub open spec fn blank(s: Seq<char>) -> bool {
    forall|i: int| 0 <= i < s.len() ==> whitespace(#[trigger] s[i])
}

pub fn is_blank_text(s: &str) -> (r: bool)
    ensures
        r == blank(s@),
{
    let cs = chars_of(s);
    let mut i: usize = 0;
    while i < cs.len()
        invariant
            i <= cs@.len(),
            cs@ == s@,
            forall|j: int| 0 <= j < i ==> whitespace(#[trigger] cs@[j]),
        decreases cs@.len() - i,
    {
        if !is_whitespace(cs[i]) {
            return false;
        }
        i = i + 1;
    }
    true
}

/// The ids of a list, by their text.
pub open spec fn id_texts(ids: Seq<CaptureId>) -> Seq<Seq<char>> {
    ids.map_values(|id: CaptureId| id@)
}

/// The first mention of each id, in order.
pub open spec fn first_mentions(s: Seq<Seq<char>>) -> Seq<Seq<char>>
    decreases s.len(),
{
    if s.len() == 0 {
        seq![]
    } else {
        let kept = first_mentions(s.drop_last());
        if kept.contains(s.last()) {
            kept
        } else {
            kept.push(s.last())
        }
    }
}

/// Whether `ids` holds `id`.
pub fn holds(ids: &Vec<CaptureId>, id: &CaptureId) -> (r: bool)
    ensures
        r == id_texts(ids@).contains(id@),
{
    let mut i: usize = 0;
    while i < ids.len()
        invariant
            i <= ids@.len(),
            forall|j: int| 0 <= j < i ==> ids@[j]@ != id@,
        decreases ids@.len() - i,
    {
        if ids[i].same_as(id) {
            assert(id_texts(ids@)[i as int] == id@);
            return true;
        }
        i = i + 1;
    }
    proof {
        if id_texts(ids@).contains(id@) {
            let k = choose|k: int| 0 <= k < id_texts(ids@).len() && id_texts(ids@)[k] == id@;
            assert(ids@[k]@ == id@);
        }
    }
    false
}

/// Keeps the first mention of each capture and drops the rest.
pub fn dedupe(seeds: &[CaptureId]) -> (kept: Vec<CaptureId>)
    ensures
        id_texts(kept@) == first_mentions(id_texts(seeds@)),
{
    let mut kept: Vec<CaptureId> = Vec::new();
    let mut i: usize = 0;
    assert(id_texts(seeds@).take(0) =~= Seq::<Seq<char>>::empty());
    while i < seeds.len()
        invariant
            i <= seeds@.len(),
            id_texts(kept@) == first_mentions(id_texts(seeds@).take(i as int)),
        decreases seeds@.len() - i,
    {
        let ghost before = id_texts(seeds@).take(i as int);
        assert(id_texts(seeds@).take(i + 1).drop_last() =~= before);
        assert(id_texts(seeds@).take(i + 1).last() == seeds@[i as int]@);
        if !holds(&kept, &seeds[i]) {
            kept.push(seeds[i].clone());
            assert(id_texts(kept@) =~= first_mentions(before).push(seeds@[i as int]@));
        }
        i = i + 1;
    }
    assert(id_texts(seeds@).take(i as int) =~= id_texts(seeds@));
    kept
}

/// A capture's frontmatter, as read from its file.
#[derive(Debug, Default)]
pub struct CaptureFrontmatter {
    /// When the text was captured, in nanoseconds since the epoch.
    pub created: Option<i128>,
    /// The open user on a wiki with no accounts.
    pub owner: Owner,
}

/// An idea thread's frontmatter, as read from its file.
#[derive(Debug, Default)]
pub struct IdeaFrontmatter {
    pub name: Option<String>,
    pub created: Option<i128>,
    pub owner: Owner,
    /// The captures the thread was started from, spelled `captures:`.
    pub captures: Vec<CaptureId>,
}

/// A decision event's frontmatter, as read from its file.
#[derive(Debug, Default)]
pub struct EventFrontmatter {
    pub kind: Option<EventKind>,
    pub created: Option<i128>,
    pub actor: Owner,
    pub idea: Option<IdeaId>,
    pub capture: Option<CaptureId>,
    pub other_capture: Option<CaptureId>,
    pub page: Option<Slug>,
}

/// One captured thought.
#[derive(Debug, Clone, PartialEq, Eq)]
pub struct Capture {
    pub id: CaptureId,
    pub created: i128,
    pub owner: Owner,
    /// The text as it was supplied, without the frontmatter.
    pub body: String,
    /// The file's mtime.
    pub updated: i128,
    /// The file's length in bytes.
    pub size: u64,
}

/// One named thread.
#[derive(Debug, Clone, PartialEq, Eq)]
pub struct Idea {
    pub id: IdeaId,
    pub name: String,
    pub created: i128,
    pub owner: Owner,
    /// The captures it was created from, deduplicated, in file order.
    pub seeds: Vec<CaptureId>,
    /// Working notes, without the frontmatter.
    pub note: String,
    pub updated: i128,
    pub size: u64,
}

/// One decision.
#[derive(Debug, Clone, PartialEq, Eq)]
pub struct Event {
    pub id: EventId,
    pub kind: EventKind,
    pub subject: Subject,
    pub created: i128,
    pub actor: Owner,
    pub updated: i128,
    pub size: u64,
}

impl Capture {
    /// A capture from its id, frontmatter and body.
    ///
    /// A file that is nothing but text is still a capture: there is no field
    /// worth refusing it over. An absent `created` is the instant the id names,
    /// which is exact, because the id was minted from it.
    pub fn from_fields(
        id: CaptureId,
        fields: CaptureFrontmatter,
        body: String,
        updated: i128,
        size: u64,
    ) -> (capture: Self)
        ensures
            capture.id@ == id@,
            capture.created == match fields.created {
                Some(at) => at as int,
                None => id_instant(id@),
            },
            capture.owner@ == fields.owner@,
            capture.body@ == body@,
            capture.updated == updated,
            capture.size == size,
    {
        let created = match fields.created {
            Some(at) => at,
            None => id.instant(),
        };
        Capture { id, created, owner: fields.owner, body, updated, size }
    }

    /// Whether there is any text here at all.
    pub fn is_blank(&self) -> (r: bool)
        ensures
            r == blank(self.body@),
    {
        is_blank_text(self.body.as_str())
    }
}

impl Idea {
    /// An idea from its id, frontmatter and note.
    ///
    /// A name is the one thing nothing may invent, and an idea is started from
    /// at least one capture and at most [`MAX_SEEDS`], counted after repeats
    /// are dropped.
    pub fn from_fields(
        id: IdeaId,
        fields: IdeaFrontmatter,
        note: String,
        updated: i128,
        size: u64,
    ) -> (r: Result<Self, RecordError>)
        ensures
            fields.name is None ==> r == Err::<Self, RecordError>(
                RecordError::MissingField { record: RecordKind::Idea, field: "name" },
            ),
            fields.name is Some && first_mentions(id_texts(fields.captures@)).len() == 0 ==> r
                == Err::<Self, RecordError>(RecordError::NoSeeds),
            fields.name is Some && first_mentions(id_texts(fields.captures@)).len() > MAX_SEEDS
                ==> r == Err::<Self, RecordError>(
                RecordError::TooManySeeds {
                    count: first_mentions(id_texts(fields.captures@)).len() as usize,
                },
            ),
            r is Ok <==> fields.name is Some && 0 < first_mentions(id_texts(fields.captures@)).len()
                <= MAX_SEEDS,
            r matches Ok(idea) ==> {
                &&& idea.id@ == id@
                &&& Some(idea.name) == fields.name
                &&& idea.created == match fields.created {
                    Some(at) => at as int,
                    None => id_instant(id@),
                }
                &&& idea.owner@ == fields.owner@
                &&& id_texts(idea.seeds@) == first_mentions(id_texts(fields.captures@))
                &&& idea.note@ == note@
                &&& idea.updated == updated
                &&& idea.size == size
            },
    {
        let name = match fields.name {
            Some(name) => name,
            None => {
                return Err(RecordError::MissingField { record: RecordKind::Idea, field: "name" })
            },
        };
        let seeds = dedupe(fields.captures.as_slice());
        if seeds.len() == 0 {
            return Err(RecordError::NoSeeds);
        }
        if seeds.len() > MAX_SEEDS {
            return Err(RecordError::TooManySeeds { count: seeds.len() });
        }
        let created = match fields.created {
            Some(at) => at,
            None => id.instant(),
        };
        Ok(Idea { id, name, created, owner: fields.owner, seeds, note, updated, size })
    }
}

/// What `created_agreeing_with` answers for an event id and the `created` its
/// file carries.
pub open spec fn agreeing_created(id: Seq<char>, created: Option<i128>) -> Option<int> {
    match created {
        None => Some(id_instant(id)),
        Some(at) => if stamp_text(second_of(at as int)) == id.take(15) {
            Some(at as int)
        } else {
            None
        },
    }
}

/// The instant an event happened, refusing a file whose `created` contradicts
/// its own id.
///
/// An id is the claim about when the decision was taken, and events are folded
/// in id order, so a file with two answers to that question is refused. An
/// absent `created` is filled in from the id, nanoseconds included.
pub fn created_agreeing_with(id: &EventId, created: Option<i128>) -> (r: Result<i128, RecordError>)
    requires
        created matches Some(at) ==> mintable(at as int),
    ensures
        match agreeing_created(id@, created) {
            Some(at) => r matches Ok(x) && x as int == at,
            None => r matches Err(RecordError::IdDisagreement { expected, found }) && expected@
                == id@.take(15) && found@ == stamp_text(second_of(created->0 as int)),
        },
{
    let at = match created {
        None => return Ok(id.instant()),
        Some(at) => at,
    };
    let (seconds, _) = split_instant(at);
    let found = stamp_of_seconds(seconds);
    let expected = id.stamp();
    if !same_text(found.as_str(), expected.as_str()) {
        return Err(RecordError::IdDisagreement { expected, found });
    }
    Ok(at)
}

impl EventFrontmatter {
    /// The reference half of the frontmatter.
    pub fn references(&self) -> (refs: References)
        ensures
            refs@ == (RefsView {
                idea: crate::ideas::records::opt_view(self.idea),
                capture: crate::ideas::records::opt_view(self.capture),
                other: crate::ideas::records::opt_view(self.other_capture),
                page: crate::ideas::records::opt_view(self.page),
            }),
    {
        let idea = match &self.idea {
            Some(id) => Some(id.clone()),
            None => None,
        };
        let capture = match &self.capture {
            Some(id) => Some(id.clone()),
            None => None,
        };
        let other_capture = match &self.other_capture {
            Some(id) => Some(id.clone()),
            None => None,
        };
        let page = match &self.page {
            Some(p) => Some(p.clone()),
            None => None,
        };
        References { idea, capture, other_capture, page }
    }
}

impl Event {
    /// An event from its id and frontmatter; anything after the frontmatter
    /// is not part of an event.
    pub fn from_fields(id: EventId, fields: EventFrontmatter, updated: i128, size: u64) -> (r:
        Result<Self, RecordError>)
        requires
            fields.created matches Some(at) ==> mintable(at as int),
        ensures
            fields.kind is None ==> r == Err::<Self, RecordError>(
                RecordError::MissingField { record: RecordKind::Event, field: "kind" },
            ),
            fields.kind is Some && read_spec(fields.kind->0, fields.references_view()) is Err ==> r
                == Err::<Self, RecordError>(
                read_spec(fields.kind->0, fields.references_view())->Err_0,
            ),
            fields.kind is Some && read_spec(fields.kind->0, fields.references_view()) is Ok
                && agreeing_created(id@, fields.created) is None ==> r matches Err(
                RecordError::IdDisagreement { .. },
            ),
            r is Ok <==> fields.kind is Some && read_spec(fields.kind->0, fields.references_view())
                is Ok && agreeing_created(id@, fields.created) is Some,
            r matches Ok(event) ==> {
                &&& event.id@ == id@
                &&& Some(event.kind) == fields.kind
                &&& Ok::<SubjectView, RecordError>(event.subject@) == read_spec(
                    event.kind,
                    fields.references_view(),
                )
                &&& Some(event.created as int) == agreeing_created(id@, fields.created)
                &&& event.actor@ == fields.actor@
                &&& event.updated == updated
                &&& event.size == size
            },
    {
        let kind = match fields.kind {
            Some(kind) => kind,
            None => {
                return Err(RecordError::MissingField { record: RecordKind::Event, field: "kind" })
            },
        };
        let refs = fields.references();
        let subject = match Subject::read(kind, &refs) {
            Ok(subject) => subject,
            Err(e) => return Err(e),
        };
        let created = match created_agreeing_with(&id, fields.created) {
            Ok(at) => at,
            Err(e) => return Err(e),
        };
        Ok(Event { id, kind, subject, created, actor: fields.actor, updated, size })
    }
}

impl EventFrontmatter {
    pub open spec fn references_view(&self) -> RefsView {
        RefsView {
            idea: crate::ideas::records::opt_view(self.idea),
            capture: crate::ideas::records::opt_view(self.capture),
            other: crate::ideas::records::opt_view(self.other_capture),
            page: crate::ideas::records::opt_view(self.page),
        }
    }
}

} // verus!

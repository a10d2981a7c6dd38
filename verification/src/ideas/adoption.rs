//! Handing the open user's records to the first account.
//!
//! A capture written while the wiki had no accounts has no owner, so once an
//! account exists it belongs to nobody. Creating the first account therefore
//! stamps that account onto every unowned capture, thread and event. Two
//! accounts and unowned records is a question only a person can answer, so it
//! is reported rather than resolved.
use vstd::prelude::*;

use crate::users::Username;

verus! {

/// What one run of adoption found and did.
#[derive(Debug, Clone, PartialEq, Eq)]
pub enum Adoption {
    /// No accounts, so the records already belong to the one user there is.
    NotNeeded,
    /// Every record already has an owner.
    NothingToAdopt,
    /// Records were handed to the only account there is.
    Adopted { owner: Username, captures: usize, ideas: usize, events: usize },
    /// More than one account, and records belonging to none of them.
    Ambiguous { accounts: usize, records: usize },
}

impl Adoption {
    pub fn adopted_anything(&self) -> (r: bool)
        ensures
            r == (*self is Adopted),
    {
        match self {
            Adoption::Adopted { .. } => true,
            _ => false,
        }
    }
}

/// What adoption is to do, decided from the accounts and from how many
/// unowned captures, ideas and events the index counts.
#[derive(Debug, Clone, PartialEq, Eq)]
pub enum Plan {
    /// Nothing is to be written; this is the answer.
    Done(Adoption),
    /// Every unowned record is to be given to this account.
    AdoptFor(Username),
}

/// Decide what adoption has to do. No accounts: nothing is needed. No unowned
/// record: nothing to adopt. One account: it adopts them. More than one: the
/// question is reported, with how many accounts and records there are.
pub fn plan(accounts: &Vec<Username>, captures: usize, ideas: usize, events: usize) -> (p: Plan)
    requires
        captures + ideas + events <= usize::MAX,
    ensures
        accounts@.len() == 0 ==> p == Plan::Done(Adoption::NotNeeded),
        accounts@.len() > 0 && captures + ideas + events == 0 ==> p == Plan::Done(Adoption::NothingToAdopt),
        accounts@.len() == 1 && captures + ideas + events > 0 ==> (p matches Plan::AdoptFor(owner) && owner@
            == accounts@[0]@),
        accounts@.len() > 1 && captures + ideas + events > 0 ==> p == Plan::Done(
            Adoption::Ambiguous { accounts: accounts@.len() as usize, records: (captures + ideas + events) as usize },
        ),
{
    if accounts.len() == 0 {
        return Plan::Done(Adoption::NotNeeded);
    }
    let records = captures + ideas + events;
    if records == 0 {
        return Plan::Done(Adoption::NothingToAdopt);
    }
    if accounts.len() == 1 {
        Plan::AdoptFor(accounts[0].clone())
    } else {
        Plan::Done(Adoption::Ambiguous { accounts: accounts.len(), records })
    }
}

} // verus!

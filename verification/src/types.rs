//! The ticket data model.

use vstd::prelude::*;
use crate::text::{chars_of, owned, push_str};

verus! {

/// Priority: 0-4, 0=highest, default 2.
#[derive(Debug, Clone, Copy, PartialEq, Eq, Structural, PartialOrd, Ord)]
pub enum Priority {
    P0,
    P1,
    P2,
    P3,
    P4,
}

impl Priority {
    /// The number of the priority.
    pub open spec fn value(self) -> nat {
        match self {
            Priority::P0 => 0,
            Priority::P1 => 1,
            Priority::P2 => 2,
            Priority::P3 => 3,
            Priority::P4 => 4,
        }
    }

    /// The priority numbered `v`, if `v` is one.
    pub fn from_u8(v: u8) -> (r: Option<Self>)
        ensures
            match r {
                Some(p) => v < 5 && p.value() == v,
                None => v >= 5,
            },
    {
        match v {
            0 => Some(Priority::P0),
            1 => Some(Priority::P1),
            2 => Some(Priority::P2),
            3 => Some(Priority::P3),
            4 => Some(Priority::P4),
            _ => None,
        }
    }

    /// The number of the priority.
    pub fn to_u8(self) -> (r: u8)
        ensures
            r == self.value(),
            r < 5,
    {
        match self {
            Priority::P0 => 0,
            Priority::P1 => 1,
            Priority::P2 => 2,
            Priority::P3 => 3,
            Priority::P4 => 4,
        }
    }
}

/// Status lifecycle: open → in_progress → closed (reopen goes back to open).
#[derive(Debug, Clone, Copy, PartialEq, Eq, Structural)]
pub enum Status {
    Open,
    InProgress,
    Closed,
}

/// Type: bug, feature, task, epic, chore.
#[derive(Debug, Clone, Copy, PartialEq, Eq, Structural)]
pub enum TicketType {
    Bug,
    Feature,
    Task,
    Epic,
    Chore,
}

/// The name of a ticket type.
pub open spec fn ticket_type_name(t: TicketType) -> Seq<char> {
    match t {
        TicketType::Bug => seq!['b', 'u', 'g'],
        TicketType::Feature => seq!['f', 'e', 'a', 't', 'u', 'r', 'e'],
        TicketType::Task => seq!['t', 'a', 's', 'k'],
        TicketType::Epic => seq!['e', 'p', 'i', 'c'],
        TicketType::Chore => seq!['c', 'h', 'o', 'r', 'e'],
    }
}

/// The message of a refused ticket type name.
pub open spec fn unknown_type_message(s: Seq<char>) -> Seq<char> {
    seq!['u', 'n', 'k', 'n', 'o', 'w', 'n', ' ', 't', 'y', 'p', 'e', ':', ' '] + s
}

impl TicketType {
    /// The ticket type named `s`; an error message for any other name.
    pub fn parse_name(s: &str) -> (r: Result<TicketType, String>)
        ensures
            match r {
                Ok(t) => ticket_type_name(t) == s@,
                Err(m) => (forall|t: TicketType| ticket_type_name(t) != s@)
                    && m@ == unknown_type_message(s@),
            },
    {
        let v = chars_of(s);
        let n0 = chars_of("bug");
        let n1 = chars_of("feature");
        let n2 = chars_of("task");
        let n3 = chars_of("epic");
        let n4 = chars_of("chore");
        proof {
            reveal_strlit("bug");
            reveal_strlit("feature");
            reveal_strlit("task");
            reveal_strlit("epic");
            reveal_strlit("chore");
            assert(n0@ =~= ticket_type_name(TicketType::Bug));
            assert(n1@ =~= ticket_type_name(TicketType::Feature));
            assert(n2@ =~= ticket_type_name(TicketType::Task));
            assert(n3@ =~= ticket_type_name(TicketType::Epic));
            assert(n4@ =~= ticket_type_name(TicketType::Chore));
        }
        if chars_eq(&v, &n0) {
            Ok(TicketType::Bug)
        } else if chars_eq(&v, &n1) {
            Ok(TicketType::Feature)
        } else if chars_eq(&v, &n2) {
            Ok(TicketType::Task)
        } else if chars_eq(&v, &n3) {
            Ok(TicketType::Epic)
        } else if chars_eq(&v, &n4) {
            Ok(TicketType::Chore)
        } else {
            let mut m = owned("unknown type: ");
            push_str(&mut m, s);
            proof {
                reveal_strlit("unknown type: ");
                assert(m@ =~= unknown_type_message(s@));
                assert forall|t: TicketType| ticket_type_name(t) != s@ by {
                    match t {
                        TicketType::Bug => {},
                        TicketType::Feature => {},
                        TicketType::Task => {},
                        TicketType::Epic => {},
                        TicketType::Chore => {},
                    }
                }
            }
            Err(m)
        }
    }
}

/// The label of a status, as the front matter writes it.
pub open spec fn status_name(s: Status) -> Seq<char> {
    match s {
        Status::Open => seq!['o', 'p', 'e', 'n'],
        Status::InProgress => seq!['i', 'n', '_', 'p', 'r', 'o', 'g', 'r', 'e', 's', 's'],
        Status::Closed => seq!['c', 'l', 'o', 's', 'e', 'd'],
    }
}

/// The message of a refused status label.
pub open spec fn invalid_status_message(s: Seq<char>) -> Seq<char> {
    seq!['i', 'n', 'v', 'a', 'l', 'i', 'd', ' ', 's', 't', 'a', 't', 'u', 's', ':', ' '] + s
}

/// The status labelled `s` (`open`, `in_progress` or `closed`); an error
/// message for any other label.
pub fn parse_status_label(s: &str) -> (r: Result<Status, String>)
    ensures
        match r {
            Ok(st) => status_name(st) == s@,
            Err(m) => (forall|st: Status| status_name(st) != s@)
                && m@ == invalid_status_message(s@),
        },
{
    let v = chars_of(s);
    let n0 = chars_of("open");
    let n1 = chars_of("in_progress");
    let n2 = chars_of("closed");
    proof {
        reveal_strlit("open");
        reveal_strlit("in_progress");
        reveal_strlit("closed");
        assert(n0@ =~= status_name(Status::Open));
        assert(n1@ =~= status_name(Status::InProgress));
        assert(n2@ =~= status_name(Status::Closed));
    }
    if chars_eq(&v, &n0) {
        Ok(Status::Open)
    } else if chars_eq(&v, &n1) {
        Ok(Status::InProgress)
    } else if chars_eq(&v, &n2) {
        Ok(Status::Closed)
    } else {
        let mut m = owned("invalid status: ");
        push_str(&mut m, s);
        proof {
            reveal_strlit("invalid status: ");
            assert(m@ =~= invalid_status_message(s@));
            assert forall|st: Status| status_name(st) != s@ by {
                match st {
                    Status::Open => {},
                    Status::InProgress => {},
                    Status::Closed => {},
                }
            }
        }
        Err(m)
    }
}

impl std::str::FromStr for TicketType {
    type Err = String;

    fn from_str(s: &str) -> (r: Result<Self, Self::Err>)
        ensures
            match r {
                Ok(t) => ticket_type_name(t) == s@,
                Err(m) => (forall|t: TicketType| ticket_type_name(t) != s@)
                    && m@ == unknown_type_message(s@),
            },
    {
        TicketType::parse_name(s)
    }
}

/// Front matter of a ticket file.
#[derive(Debug, Clone)]
pub struct Metadata {
    pub id: String,
    /// Status label as read from the file; `parse_status_label` accepts
    /// `open`, `in_progress` and `closed` when a status is set.
    pub status: String,
    /// Whether the ticket is active; `false` once it is closed.
    pub open: bool,
    pub deps: Vec<String>,
    pub links: Vec<String>,
    pub created: String,
    /// Free-form type label (`task`, `bug`, ...).
    pub metadata_type: String,
    pub priority: Priority,
    pub assignee: Option<String>,
    pub external_ref: Option<String>,
    pub parent: Option<String>,
    pub tags: Option<Vec<String>>,
}

/// A timestamped note appended to a ticket.
#[derive(Debug, Clone)]
pub struct Note {
    pub timestamp: String,
    pub body: String,
}

/// Body of a ticket file (the markdown after the front matter).
#[derive(Debug, Clone)]
pub struct Data {
    pub title: String,
    pub description: Option<String>,
    pub design: Option<String>,
    pub acceptance: Option<String>,
    pub notes: Option<Vec<Note>>,
}

/// Options for creating a new ticket.
#[derive(Debug, Clone)]
pub struct CreateOptions {
    pub title: Option<String>,
    pub description: Option<String>,
    pub design: Option<String>,
    pub acceptance: Option<String>,
    pub create_type: Option<String>,
    pub priority: Option<Priority>,
    pub assignee: Option<String>,
    pub external_ref: Option<String>,
    pub parent: Option<String>,
    pub tags: Option<Vec<String>>,
}

/// Filter for listing or searching tickets.
#[derive(Debug, Clone, Default)]
pub struct Filter {
    pub status: Option<Status>,
    pub assignee: Option<String>,
    pub filter_type: Option<TicketType>,
    pub tags: Option<Vec<String>>,
}

/// Equality of two character vectors.
pub fn chars_eq(a: &Vec<char>, b: &Vec<char>) -> (r: bool)
    ensures
        r == (a@ == b@),
{
    if a.len() != b.len() {
        return false;
    }
    let mut i: usize = 0;
    while i < a.len()
        invariant
            i <= a.len() == b.len(),
            forall|j: int| 0 <= j < i ==> a@[j] == b@[j],
        decreases a.len() - i,
    {
        if a[i] != b[i] {
            return false;
        }
        i = i + 1;
    }
    assert(a@ =~= b@);
    true
}

} // verus!

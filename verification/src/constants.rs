use vstd::prelude::*;

verus! {

/// Why a master password was refused.
#[derive(Debug, Clone, Copy, PartialEq, Eq, Structural)]
pub enum Reason {
    PasswordEmpty,
    PasswordInvalid,
}

/// The text the daemon answers for each refusal.
pub open spec fn reason_text(r: Reason) -> Seq<char> {
    match r {
        Reason::PasswordInvalid => "Password is invalid"@,
        Reason::PasswordEmpty => "Password is empty"@,
    }
}

impl Reason {
    pub fn to_string(&self) -> (s: String)
        ensures
            s@ == reason_text(*self),
    {
        match self {
            Reason::PasswordInvalid => String::from_str("Password is invalid"),
            Reason::PasswordEmpty => String::from_str("Password is empty"),
        }
    }
}

/// The kinds of request a client sends to the daemon; the first byte of a
/// request names one of them.
#[derive(Debug, Clone, Copy, PartialEq, Eq, Structural)]
pub enum Event {
    New,
    Get,
    Validate,
    List,
    ChangeMP,
    Init,
    Delete,
    Change,
}

/// The byte that stands for each kind of request on the wire.
pub open spec fn event_code(e: Event) -> u8 {
    match e {
        Event::New => 1,
        Event::Get => 2,
        Event::Validate => 3,
        Event::List => 4,
        Event::ChangeMP => 5,
        Event::Init => 6,
        Event::Delete => 7,
        Event::Change => 8,
    }
}

/// The kind of request that a byte names; a byte that names none is read
/// as a validation request.
pub open spec fn event_of_code(b: u8) -> Event {
    if b == 1 {
        Event::New
    } else if b == 2 {
        Event::Get
    } else if b == 4 {
        Event::List
    } else if b == 5 {
        Event::ChangeMP
    } else if b == 6 {
        Event::Init
    } else if b == 7 {
        Event::Delete
    } else if b == 8 {
        Event::Change
    } else {
        Event::Validate
    }
}

impl Event {
    pub fn to_u8(&self) -> (b: u8)
        ensures
            b == event_code(*self),
    {
        match self {
            Event::New => 1,
            Event::Get => 2,
            Event::Validate => 3,
            Event::List => 4,
            Event::ChangeMP => 5,
            Event::Init => 6,
            Event::Delete => 7,
            Event::Change => 8,
        }
    }
}

impl From<&u8> for Event {
    fn from(i: &u8) -> (e: Event) {
        match *i {
            1 => Event::New,
            2 => Event::Get,
            3 => Event::Validate,
            4 => Event::List,
            5 => Event::ChangeMP,
            6 => Event::Init,
            7 => Event::Delete,
            8 => Event::Change,
            _ => Event::Validate,
        }
    }
}

impl vstd::std_specs::convert::FromSpecImpl<&u8> for Event {
    open spec fn obeys_from_spec() -> bool {
        true
    }

    open spec fn from_spec(i: &u8) -> Event {
        event_of_code(*i)
    }
}

/// Every kind of request is named by a byte from 1 to 8, and reading that
/// byte back gives the same kind of request.
pub proof fn law_event_code_round_trip(e: Event)
    ensures
        1 <= event_code(e) <= 8,
        event_of_code(event_code(e)) == e,
{
}

/// Distinct kinds of request are sent as distinct bytes.
pub proof fn law_event_code_injective(a: Event, b: Event)
    ensures
        event_code(a) == event_code(b) ==> a == b,
{
}

} // verus!

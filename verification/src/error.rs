//! Why an action could not be carried out.
use vstd::prelude::*;
use vstd::string::StringExecFns;

verus! {

#[derive(Debug, Clone)]
pub enum Error {
    Obstructed,
    OutOfBounds,
    OutOfRange,
    NoSuchCreature,
    NoSuchPart,
    NoSuchCard,
    NoSuchStat,
    NoSuchStatus,
    DeadCreature,
    BrokenPart,
    NotEnough(String),
    InvalidAction,
    UnhandledAction,
}

/// The name of an error's variant.
pub open spec fn variant_name(e: Error) -> Seq<char> {
    match e {
        Error::Obstructed => "Obstructed"@,
        Error::OutOfBounds => "OutOfBounds"@,
        Error::OutOfRange => "OutOfRange"@,
        Error::NoSuchCreature => "NoSuchCreature"@,
        Error::NoSuchPart => "NoSuchPart"@,
        Error::NoSuchCard => "NoSuchCard"@,
        Error::NoSuchStat => "NoSuchStat"@,
        Error::NoSuchStatus => "NoSuchStatus"@,
        Error::DeadCreature => "DeadCreature"@,
        Error::BrokenPart => "BrokenPart"@,
        Error::NotEnough(_) => "NotEnough"@,
        Error::InvalidAction => "InvalidAction"@,
        Error::UnhandledAction => "UnhandledAction"@,
    }
}

/// The text that `format!("{:?}", ..)` writes for a string: quoted, with its special
/// characters escaped.
pub uninterp spec fn debug_quoted(s: Seq<char>) -> Seq<char>;

/// `format!("{:?}", s)` on a string. Claimed: the text is the one named `debug_quoted`
/// for the string's text, and depends on nothing else.
#[verifier::external_body]
pub(crate) fn quoted(s: &str) -> (r: String)
    ensures
        r@ == debug_quoted(s@),
{
    format!("{:?}", s)
}

/// The text that describes a failed action: the variant's name, and for `NotEnough` the
/// missing resource quoted in brackets.
pub open spec fn debug_text(e: Error) -> Seq<char> {
    match e {
        Error::NotEnough(s) => "NotEnough("@ + debug_quoted(s@) + ")"@,
        _ => variant_name(e),
    }
}

/// The message shown to a player for an error.
pub open spec fn message_text(e: Error) -> Seq<char> {
    match e {
        Error::Obstructed => "Obstructed"@,
        Error::OutOfBounds => "Out of bounds"@,
        Error::OutOfRange => "Out of range"@,
        Error::NoSuchCreature => "No such creature"@,
        Error::NoSuchPart => "No such part"@,
        Error::NoSuchCard => "No such card"@,
        Error::NoSuchStat => "No such stat"@,
        Error::NoSuchStatus => "No such status"@,
        Error::DeadCreature => "Dead creature"@,
        Error::BrokenPart => "Broken part"@,
        Error::NotEnough(s) => "Not enough "@ + s@,
        Error::InvalidAction => "Invalid action"@,
        Error::UnhandledAction => "Unhandled action"@,
    }
}

impl Error {
    /// An error saying that too little of `what` is left.
    pub fn not_enough(what: &str) -> (r: Error)
        ensures
            r matches Error::NotEnough(s) && s@ == what@,
    {
        Error::NotEnough(String::from_str(what))
    }

    /// The text that a failed event carries for this error.
    pub fn debug_text(&self) -> (r: String)
        ensures
            r@ == debug_text(*self),
    {
        match self {
            Error::Obstructed => String::from_str("Obstructed"),
            Error::OutOfBounds => String::from_str("OutOfBounds"),
            Error::OutOfRange => String::from_str("OutOfRange"),
            Error::NoSuchCreature => String::from_str("NoSuchCreature"),
            Error::NoSuchPart => String::from_str("NoSuchPart"),
            Error::NoSuchCard => String::from_str("NoSuchCard"),
            Error::NoSuchStat => String::from_str("NoSuchStat"),
            Error::NoSuchStatus => String::from_str("NoSuchStatus"),
            Error::DeadCreature => String::from_str("DeadCreature"),
            Error::BrokenPart => String::from_str("BrokenPart"),
            Error::NotEnough(s) => {
                let mut out = String::from_str("NotEnough(");
                let q = quoted(s.as_str());
                out.append(q.as_str());
                out.append(")");
                out
            },
            Error::InvalidAction => String::from_str("InvalidAction"),
            Error::UnhandledAction => String::from_str("UnhandledAction"),
        }
    }

    /// The message shown to a player for this error.
    pub fn message(&self) -> (r: String)
        ensures
            r@ == message_text(*self),
    {
        match self {
            Error::Obstructed => String::from_str("Obstructed"),
            Error::OutOfBounds => String::from_str("Out of bounds"),
            Error::OutOfRange => String::from_str("Out of range"),
            Error::NoSuchCreature => String::from_str("No such creature"),
            Error::NoSuchPart => String::from_str("No such part"),
            Error::NoSuchCard => String::from_str("No such card"),
            Error::NoSuchStat => String::from_str("No such stat"),
            Error::NoSuchStatus => String::from_str("No such status"),
            Error::DeadCreature => String::from_str("Dead creature"),
            Error::BrokenPart => String::from_str("Broken part"),
            Error::NotEnough(s) => {
                let mut out = String::from_str("Not enough ");
                out.append(s.as_str());
                out
            },
            Error::InvalidAction => String::from_str("Invalid action"),
            Error::UnhandledAction => String::from_str("Unhandled action"),
        }
    }
}

} // verus!

//! The borrow state of a shared cell: how many readers hold it, or whether a writer does.
use vstd::prelude::*;

verus! {

/// Who holds a shared cell: `count` readers, or one writer.
#[derive(Debug, Clone, Copy, PartialEq, Eq, Structural)]
pub enum Borrow {
    Ref { count: usize },
    RefMut,
}

/// The state once another reader takes the cell; none while a writer holds it.
pub open spec fn after_read(b: Borrow) -> Option<Borrow> {
    match b {
        Borrow::Ref { count } => Some(Borrow::Ref { count: (count + 1) as usize }),
        Borrow::RefMut => None,
    }
}

/// The state once a reader lets go.
pub open spec fn after_read_end(b: Borrow) -> Borrow {
    match b {
        Borrow::Ref { count } => Borrow::Ref { count: (count - 1) as usize },
        Borrow::RefMut => Borrow::RefMut,
    }
}

/// The state once a writer takes the cell; none unless nobody holds it.
pub open spec fn after_write(b: Borrow) -> Option<Borrow> {
    if b == (Borrow::Ref { count: 0 }) {
        Some(Borrow::RefMut)
    } else {
        None
    }
}

impl Borrow {
    /// Nobody holds the cell.
    pub fn free() -> (r: Borrow)
        ensures
            r == (Borrow::Ref { count: 0 }),
    {
        Borrow::Ref { count: 0 }
    }

    /// The state once another reader takes the cell; none while a writer holds it.
    pub fn start_read(self) -> (r: Option<Borrow>)
        requires
            self matches Borrow::Ref { count } ==> count < usize::MAX,
        ensures
            r == after_read(self),
    {
        match self {
            Borrow::Ref { count } => Some(Borrow::Ref { count: count + 1 }),
            Borrow::RefMut => None,
        }
    }

    /// The state once a reader lets go of the cell.
    pub fn end_read(self) -> (r: Borrow)
        requires
            self matches Borrow::Ref { count } && count > 0,
        ensures
            r == after_read_end(self),
    {
        match self {
            Borrow::Ref { count } => Borrow::Ref { count: count - 1 },
            Borrow::RefMut => Borrow::RefMut,
        }
    }

    /// The state once a writer takes the cell; none unless nobody holds it.
    pub fn start_write(self) -> (r: Option<Borrow>)
        ensures
            r == after_write(self),
    {
        match self {
            Borrow::Ref { count } => if count == 0 {
                Some(Borrow::RefMut)
            } else {
                None
            },
            Borrow::RefMut => None,
        }
    }

    /// The state once the writer lets go of the cell.
    pub fn end_write(self) -> (r: Borrow)
        requires
            self is RefMut,
        ensures
            r == (Borrow::Ref { count: 0 }),
    {
        Borrow::Ref { count: 0 }
    }

    /// How many readers hold the cell; none while a writer does.
    pub fn count(self) -> (r: Option<usize>)
        ensures
            match self {
                Borrow::Ref { count } => r == Some(count),
                Borrow::RefMut => r is None,
            },
    {
        match self {
            Borrow::Ref { count } => Some(count),
            Borrow::RefMut => None,
        }
    }
}

/// A reader that takes the cell and lets go leaves it as it was; a writer can take it only
/// while nobody holds it, and then no reader can.
pub proof fn law_borrow_round_trip(b: Borrow)
    requires
        b matches Borrow::Ref { count } ==> count < usize::MAX,
    ensures
        after_read(b) matches Some(b2) ==> after_read_end(b2) == b,
        after_write(b) is Some <==> b == (Borrow::Ref { count: 0 }),
        after_write(b) matches Some(b2) ==> after_read(b2) is None && after_write(b2) is None,
{
}

} // verus!

//! The orders and the filters of the project list, each a ring that the user
//! steps through in both directions.

use vstd::prelude::*;

verus! {

/// What the project list is ordered by.
#[derive(Debug, Clone, Copy, PartialEq, Eq, Structural)]
pub enum Sorting {
    Name,
    Size,
    Commits,
    CreationDate,
    ModificationDate,
    Loc,
}

impl Sorting {
    /// The place of the order in its ring, from 0.
    pub open spec fn index(self) -> int {
        match self {
            Sorting::Name => 0,
            Sorting::Size => 1,
            Sorting::Commits => 2,
            Sorting::CreationDate => 3,
            Sorting::ModificationDate => 4,
            Sorting::Loc => 5,
        }
    }

    /// The order at a place of the ring.
    pub open spec fn at(index: int) -> Sorting {
        if index == 0 {
            Sorting::Name
        } else if index == 1 {
            Sorting::Size
        } else if index == 2 {
            Sorting::Commits
        } else if index == 3 {
            Sorting::CreationDate
        } else if index == 4 {
            Sorting::ModificationDate
        } else {
            Sorting::Loc
        }
    }

    /// The order one step on in the ring; after the last comes the first.
    pub fn next(&self) -> (following: Self)
        ensures
            following == Sorting::at((self.index() + 1) % 6),
    {
        match *self {
            Self::Name => Self::Size,
            Self::Size => Self::Commits,
            Self::Commits => Self::CreationDate,
            Self::CreationDate => Self::ModificationDate,
            Self::ModificationDate => Self::Loc,
            Self::Loc => Self::Name,
        }
    }

    /// The order one step back in the ring; before the first comes the last.
    pub fn previous(&self) -> (preceding: Self)
        ensures
            preceding == Sorting::at((self.index() + 5) % 6),
    {
        match *self {
            Self::Loc => Self::ModificationDate,
            Self::ModificationDate => Self::CreationDate,
            Self::CreationDate => Self::Commits,
            Self::Commits => Self::Size,
            Self::Size => Self::Name,
            Self::Name => Self::Loc,
        }
    }

    /// The name of the order as the list's title shows it.
    pub fn label(&self) -> (text: &'static str)
        ensures
            text@ == match *self {
                Sorting::Name => "Name"@,
                Sorting::Size => "Size"@,
                Sorting::Commits => "Commits"@,
                Sorting::CreationDate => "Creation Date"@,
                Sorting::ModificationDate => "Modification Date"@,
                Sorting::Loc => "Lines of Code"@,
            },
    {
        match self {
            Self::Name => "Name",
            Self::Size => "Size",
            Self::Commits => "Commits",
            Self::CreationDate => "Creation Date",
            Self::ModificationDate => "Modification Date",
            Self::Loc => "Lines of Code",
        }
    }
}

/// Which projects the list shows.
#[derive(Debug, Clone, Copy, PartialEq, Eq, Structural)]
pub enum Filter {
    All,
    Owned,
    NotOwned,
    HasRemote,
    NoRemote,
}

impl Filter {
    /// The place of the filter in its ring, from 0.
    pub open spec fn index(self) -> int {
        match self {
            Filter::All => 0,
            Filter::Owned => 1,
            Filter::NotOwned => 2,
            Filter::HasRemote => 3,
            Filter::NoRemote => 4,
        }
    }

    /// The filter at a place of the ring.
    pub open spec fn at(index: int) -> Filter {
        if index == 0 {
            Filter::All
        } else if index == 1 {
            Filter::Owned
        } else if index == 2 {
            Filter::NotOwned
        } else if index == 3 {
            Filter::HasRemote
        } else {
            Filter::NoRemote
        }
    }

    /// The filter one step on in the ring; after the last comes the first.
    pub fn next(&self) -> (following: Self)
        ensures
            following == Filter::at((self.index() + 1) % 5),
    {
        match self {
            Self::All => Self::Owned,
            Self::Owned => Self::NotOwned,
            Self::NotOwned => Self::HasRemote,
            Self::HasRemote => Self::NoRemote,
            Self::NoRemote => Self::All,
        }
    }

    /// The filter one step back in the ring; before the first comes the
    /// last.
    pub fn previous(&self) -> (preceding: Self)
        ensures
            preceding == Filter::at((self.index() + 4) % 5),
    {
        match self {
            Self::NoRemote => Self::HasRemote,
            Self::HasRemote => Self::NotOwned,
            Self::NotOwned => Self::Owned,
            Self::Owned => Self::All,
            Self::All => Self::NoRemote,
        }
    }

    /// The name of the filter as the list's title shows it.
    pub fn label(&self) -> (text: &'static str)
        ensures
            text@ == match *self {
                Filter::All => "All"@,
                Filter::Owned => "Owned"@,
                Filter::NotOwned => "Not Owned"@,
                Filter::HasRemote => "Has Remote"@,
                Filter::NoRemote => "No Remote"@,
            },
    {
        match self {
            Self::All => "All",
            Self::Owned => "Owned",
            Self::NotOwned => "Not Owned",
            Self::HasRemote => "Has Remote",
            Self::NoRemote => "No Remote",
        }
    }
}

/// A step on and a step back lead to where one was, in either order, for the
/// orders and for the filters alike.
pub proof fn law_steps_cancel(sorting: Sorting, filter: Filter)
    ensures
        Sorting::at((Sorting::at((sorting.index() + 1) % 6).index() + 5) % 6) == sorting,
        Sorting::at((Sorting::at((sorting.index() + 5) % 6).index() + 1) % 6) == sorting,
        Filter::at((Filter::at((filter.index() + 1) % 5).index() + 4) % 5) == filter,
        Filter::at((Filter::at((filter.index() + 4) % 5).index() + 1) % 5) == filter,
{
}

} // verus!

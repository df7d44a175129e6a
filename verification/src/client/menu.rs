//! The start menu of the client.
use vstd::prelude::*;

verus! {

/// The entries of the menu.
#[derive(Clone, Copy, Debug, PartialEq, Eq, Structural)]
pub enum Entries {
    Start,
    Exit,
}

impl Entries {
    /// The entry that follows this one; the first follows the last.
    pub open spec fn following(self) -> Entries {
        match self {
            Entries::Start => Entries::Exit,
            Entries::Exit => Entries::Start,
        }
    }

    /// Moves on to the entry that follows this one.
    pub fn next(&mut self)
        ensures
            *final(self) == old(self).following(),
    {
        *self = match *self {
            Entries::Start => Entries::Exit,
            Entries::Exit => Entries::Start,
        };
    }
}

/// The menu and the entry that is selected in it.
#[derive(Clone, Copy, Debug)]
pub struct Menu {
    selected_entry: Entries,
}

impl Menu {
    /// The entry that is selected.
    pub closed spec fn selected(&self) -> Entries {
        self.selected_entry
    }

    /// A menu with its first entry selected.
    pub fn new() -> (menu: Menu)
        ensures
            menu.selected() == Entries::Start,
    {
        Menu { selected_entry: Entries::Start }
    }

    pub fn get_selected_entry(&self) -> (entry: Entries)
        ensures
            entry == self.selected(),
    {
        self.selected_entry
    }

    /// Selects the entry before the selected one. With two entries that is
    /// the entry that follows it.
    pub fn previous(&mut self)
        ensures
            final(self).selected() == old(self).selected().following(),
    {
        self.selected_entry.next();
    }

    /// Selects the entry that follows the selected one.
    pub fn next(&mut self)
        ensures
            final(self).selected() == old(self).selected().following(),
    {
        self.selected_entry.next();
    }
}

/// Moving on twice leads back to the entry.
pub proof fn lemma_following_twice(entry: Entries)
    ensures
        entry.following().following() == entry,
{
}

} // verus!

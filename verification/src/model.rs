//! Catalog entity types, per-entity mutable state records, and the search /
//! filter / sort option enums of the presentation engine.

use vstd::prelude::*;

verus! {

/// An immutable console catalog entry.
pub struct Console {
    pub id: String,
    pub name: String,
    pub manufacturer: String,
    pub year: u32,
    pub variant: Option<String>,
}

/// An immutable game catalog entry. `id` is derived from the owning console
/// id and a content hash of the title; `console_id` is the foreign key to
/// `Console::id`.
pub struct Game {
    pub id: String,
    pub title: String,
    pub year: u32,
    pub publisher: String,
    pub console_id: String,
}

/// Mutable user annotations for one game, keyed by `game_id`.
pub struct GameState {
    pub game_id: String,
    pub owned: bool,
    pub favorite: bool,
    pub wishlist: bool,
    pub notes: String,
}

/// Mutable user annotations for one console, keyed by `console_id`.
pub struct ConsoleState {
    pub console_id: String,
    pub owned: bool,
    pub favorite: bool,
    pub wishlist: bool,
    pub notes: String,
}

impl Clone for Console {
    fn clone(&self) -> (r: Self)
        ensures
            r == *self,
    {
        Console {
            id: self.id.clone(),
            name: self.name.clone(),
            manufacturer: self.manufacturer.clone(),
            year: self.year,
            variant: match &self.variant {
                Some(v) => Some(v.clone()),
                None => None,
            },
        }
    }
}

impl Clone for Game {
    fn clone(&self) -> (r: Self)
        ensures
            r == *self,
    {
        Game {
            id: self.id.clone(),
            title: self.title.clone(),
            year: self.year,
            publisher: self.publisher.clone(),
            console_id: self.console_id.clone(),
        }
    }
}

impl Clone for GameState {
    fn clone(&self) -> (r: Self)
        ensures
            r == *self,
    {
        GameState {
            game_id: self.game_id.clone(),
            owned: self.owned,
            favorite: self.favorite,
            wishlist: self.wishlist,
            notes: self.notes.clone(),
        }
    }
}

impl Clone for ConsoleState {
    fn clone(&self) -> (r: Self)
        ensures
            r == *self,
    {
        ConsoleState {
            console_id: self.console_id.clone(),
            owned: self.owned,
            favorite: self.favorite,
            wishlist: self.wishlist,
            notes: self.notes.clone(),
        }
    }
}

/// Status filter applied to a record's three flags.
#[derive(Clone, Copy, PartialEq, Eq, Structural, Debug)]
pub enum FilterOption {
    All,
    Owned,
    Favorites,
    Wishlist,
    NotOwned,
}

/// Sort orders for games and consoles.
#[derive(Clone, Copy, PartialEq, Eq, Structural, Debug)]
pub enum SortOption {
    Title,
    Year,
    Status,
}

/// Sort orders for LEGO Dimensions figures.
#[derive(Clone, Copy, PartialEq, Eq, Structural, Debug)]
pub enum LegoSortOption {
    Name,
    Category,
    Year,
    Pack,
}

/// Sort orders for Skylanders.
#[derive(Clone, Copy, PartialEq, Eq, Structural, Debug)]
pub enum SkylandersSortOption {
    Name,
    Game,
    BaseColor,
    Category,
}

/// Whether a record with the given flags passes a status filter. A missing
/// record is represented by three `false` flags.
pub open spec fn filter_passes(filter: FilterOption, owned: bool, favorite: bool, wishlist: bool) -> bool {
    match filter {
        FilterOption::All => true,
        FilterOption::Owned => owned,
        FilterOption::Favorites => favorite,
        FilterOption::Wishlist => wishlist,
        FilterOption::NotOwned => !owned,
    }
}

/// Executable status filter, equal to `filter_passes`.
pub fn filter_allows(filter: FilterOption, owned: bool, favorite: bool, wishlist: bool) -> (r: bool)
    ensures
        r == filter_passes(filter, owned, favorite, wishlist),
{
    match filter {
        FilterOption::All => true,
        FilterOption::Owned => owned,
        FilterOption::Favorites => favorite,
        FilterOption::Wishlist => wishlist,
        FilterOption::NotOwned => !owned,
    }
}

/// Filter exclusivity: a record with no flag set passes `All` and
/// `NotOwned`, and fails `Owned`, `Favorites` and `Wishlist`.
pub proof fn lemma_filter_exclusivity(owned: bool, favorite: bool, wishlist: bool)
    requires
        !owned,
        !favorite,
        !wishlist,
    ensures
        filter_passes(FilterOption::All, owned, favorite, wishlist),
        filter_passes(FilterOption::NotOwned, owned, favorite, wishlist),
        !filter_passes(FilterOption::Owned, owned, favorite, wishlist),
        !filter_passes(FilterOption::Favorites, owned, favorite, wishlist),
        !filter_passes(FilterOption::Wishlist, owned, favorite, wishlist),
{
}

} // verus!

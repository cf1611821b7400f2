//! Skylanders figures and the derivation of their stable identifiers.

use vstd::prelude::*;
use vstd::string::StringExecFns;

use crate::text::slug_of;
use crate::text::slugify;

verus! {

/// One catalog entry for a Skylanders figure.
pub struct Skylander {
    pub name: String,
    pub game: String,
    pub base_color: String,
    pub category: String,
}

/// Mutable user annotations for one Skylander, keyed by the derived id.
pub struct SkylanderState {
    pub skylander_id: String,
    pub owned: bool,
    pub favorite: bool,
    pub wishlist: bool,
    pub notes: String,
}

impl Clone for Skylander {
    fn clone(&self) -> (r: Self)
        ensures
            r == *self,
    {
        Skylander {
            name: self.name.clone(),
            game: self.game.clone(),
            base_color: self.base_color.clone(),
            category: self.category.clone(),
        }
    }
}

impl Clone for SkylanderState {
    fn clone(&self) -> (r: Self)
        ensures
            r == *self,
    {
        SkylanderState {
            skylander_id: self.skylander_id.clone(),
            owned: self.owned,
            favorite: self.favorite,
            wishlist: self.wishlist,
            notes: self.notes.clone(),
        }
    }
}

/// The id derived for a Skylander: the `skylander` namespace prefix and the
/// slugified game, name and category, joined by hyphens.
pub open spec fn skylander_id_seq(game: Seq<char>, name: Seq<char>, category: Seq<char>) -> Seq<
    char,
> {
    seq!['s', 'k', 'y', 'l', 'a', 'n', 'd', 'e', 'r', '-'] + slug_of(game) + seq!['-'] + slug_of(
        name,
    ) + seq!['-'] + slug_of(category)
}

/// Derives the stable id under which a Skylander's user state is keyed. The
/// id depends only on the game, name and category fields.
pub fn skylander_id(skylander: &Skylander) -> (r: String)
    ensures
        r@ == skylander_id_seq(skylander.game@, skylander.name@, skylander.category@),
{
    let game_slug = slugify(skylander.game.as_str());
    let name_slug = slugify(skylander.name.as_str());
    let category_slug = slugify(skylander.category.as_str());
    let mut out = "skylander-".to_owned();
    out.append(game_slug.as_str());
    out.append("-");
    out.append(name_slug.as_str());
    out.append("-");
    out.append(category_slug.as_str());
    proof {
        reveal_strlit("skylander-");
        reveal_strlit("-");
        assert("skylander-"@ =~= seq!['s', 'k', 'y', 'l', 'a', 'n', 'd', 'e', 'r', '-']);
        assert("-"@ =~= seq!['-']);
        assert(out@ =~= skylander_id_seq(skylander.game@, skylander.name@, skylander.category@));
    }
    out
}

} // verus!

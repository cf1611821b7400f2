//! LEGO Dimensions figures and the derivation of their stable identifiers.

use vstd::prelude::*;
use vstd::string::StringExecFns;

use crate::text::slug_of;
use crate::text::slugify;

verus! {

/// One catalog entry for a LEGO Dimensions figure.
pub struct LegoDimensionFigure {
    pub name: String,
    pub category: String,
    pub year: u8,
    pub pack_id: String,
}

/// Mutable user annotations for one figure, keyed by the derived figure id.
pub struct LegoDimensionState {
    pub figure_id: String,
    pub owned: bool,
    pub favorite: bool,
    pub wishlist: bool,
    pub notes: String,
}

impl Clone for LegoDimensionFigure {
    fn clone(&self) -> (r: Self)
        ensures
            r == *self,
    {
        LegoDimensionFigure {
            name: self.name.clone(),
            category: self.category.clone(),
            year: self.year,
            pack_id: self.pack_id.clone(),
        }
    }
}

impl Clone for LegoDimensionState {
    fn clone(&self) -> (r: Self)
        ensures
            r == *self,
    {
        LegoDimensionState {
            figure_id: self.figure_id.clone(),
            owned: self.owned,
            favorite: self.favorite,
            wishlist: self.wishlist,
            notes: self.notes.clone(),
        }
    }
}

/// The id derived for a figure: the `lego` namespace prefix, the slugified
/// pack id, and the slugified name, joined by hyphens.
pub open spec fn figure_id_seq(pack_id: Seq<char>, name: Seq<char>) -> Seq<char> {
    seq!['l', 'e', 'g', 'o', '-'] + slug_of(pack_id) + seq!['-'] + slug_of(name)
}

/// Derives the stable id under which a figure's user state is keyed. The id
/// depends only on the pack id and the name, so it is stable across reloads
/// of the same catalog content.
pub fn figure_id(figure: &LegoDimensionFigure) -> (r: String)
    ensures
        r@ == figure_id_seq(figure.pack_id@, figure.name@),
{
    let pack_slug = slugify(figure.pack_id.as_str());
    let mut out = "lego-".to_owned();
    out.append(pack_slug.as_str());
    out.append("-");
    let name_slug = slugify(figure.name.as_str());
    out.append(name_slug.as_str());
    proof {
        reveal_strlit("lego-");
        reveal_strlit("-");
        assert("lego-"@ =~= seq!['l', 'e', 'g', 'o', '-']);
        assert("-"@ =~= seq!['-']);
        assert(out@ =~= figure_id_seq(figure.pack_id@, figure.name@));
    }
    out
}

} // verus!

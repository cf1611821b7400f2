//! Per-kind maps of mutable user state records, keyed by entity id, and the
//! store that holds one map per collectible kind.
//!
//! A map is a vector of records with pairwise distinct keys; its view is the
//! mathematical map from key to record. A record's foreign key always equals
//! the key it is stored under, because the key is read from the record.

use vstd::prelude::*;

use crate::lego_dimensions::LegoDimensionState;
use crate::model::ConsoleState;
use crate::model::GameState;
use crate::skylanders::SkylanderState;
use crate::text::str_eq;

verus! {

/// A record of user annotations keyed by the id of the entity it covers.
pub trait KeyedState: Sized {
    /// The record's key: the id of the entity it annotates.
    spec fn skey(&self) -> Seq<char>;

    /// A blank record: no flag set, empty notes.
    spec fn is_blank(&self) -> bool;

    /// The record's three flags: owned, favorite, wishlist.
    spec fn flags(&self) -> (bool, bool, bool);

    /// The key field of the record.
    fn key(&self) -> (r: &String)
        ensures
            r@ == self.skey(),
    ;

    /// A fresh blank record for the given entity id.
    fn make_blank(id: &String) -> (r: Self)
        ensures
            r.skey() == id@,
            r.is_blank(),
    ;

    /// An exact copy of the record.
    fn copy_rec(&self) -> (r: Self)
        ensures
            r == *self,
    ;
}

impl KeyedState for GameState {
    open spec fn skey(&self) -> Seq<char> {
        self.game_id@
    }

    open spec fn is_blank(&self) -> bool {
        !self.owned && !self.favorite && !self.wishlist && self.notes@.len() == 0
    }

    open spec fn flags(&self) -> (bool, bool, bool) {
        (self.owned, self.favorite, self.wishlist)
    }

    fn key(&self) -> (r: &String) {
        &self.game_id
    }

    fn make_blank(id: &String) -> (r: Self) {
        GameState {
            game_id: id.clone(),
            owned: false,
            favorite: false,
            wishlist: false,
            notes: String::new(),
        }
    }

    fn copy_rec(&self) -> (r: Self) {
        self.clone()
    }
}

impl KeyedState for ConsoleState {
    open spec fn skey(&self) -> Seq<char> {
        self.console_id@
    }

    open spec fn is_blank(&self) -> bool {
        !self.owned && !self.favorite && !self.wishlist && self.notes@.len() == 0
    }

    open spec fn flags(&self) -> (bool, bool, bool) {
        (self.owned, self.favorite, self.wishlist)
    }

    fn key(&self) -> (r: &String) {
        &self.console_id
    }

    fn make_blank(id: &String) -> (r: Self) {
        ConsoleState {
            console_id: id.clone(),
            owned: false,
            favorite: false,
            wishlist: false,
            notes: String::new(),
        }
    }

    fn copy_rec(&self) -> (r: Self) {
        self.clone()
    }
}

impl KeyedState for LegoDimensionState {
    open spec fn skey(&self) -> Seq<char> {
        self.figure_id@
    }

    open spec fn is_blank(&self) -> bool {
        !self.owned && !self.favorite && !self.wishlist && self.notes@.len() == 0
    }

    open spec fn flags(&self) -> (bool, bool, bool) {
        (self.owned, self.favorite, self.wishlist)
    }

    fn key(&self) -> (r: &String) {
        &self.figure_id
    }

    fn make_blank(id: &String) -> (r: Self) {
        LegoDimensionState {
            figure_id: id.clone(),
            owned: false,
            favorite: false,
            wishlist: false,
            notes: String::new(),
        }
    }

    fn copy_rec(&self) -> (r: Self) {
        self.clone()
    }
}

impl KeyedState for SkylanderState {
    open spec fn skey(&self) -> Seq<char> {
        self.skylander_id@
    }

    open spec fn is_blank(&self) -> bool {
        !self.owned && !self.favorite && !self.wishlist && self.notes@.len() == 0
    }

    open spec fn flags(&self) -> (bool, bool, bool) {
        (self.owned, self.favorite, self.wishlist)
    }

    fn key(&self) -> (r: &String) {
        &self.skylander_id
    }

    fn make_blank(id: &String) -> (r: Self) {
        SkylanderState {
            skylander_id: id.clone(),
            owned: false,
            favorite: false,
            wishlist: false,
            notes: String::new(),
        }
    }

    fn copy_rec(&self) -> (r: Self) {
        self.clone()
    }
}

/// The map described by a sequence of records: each record binds its key,
/// and a later record with the same key wins.
pub open spec fn as_map<T: KeyedState>(s: Seq<T>) -> Map<Seq<char>, T>
    decreases s.len(),
{
    if s.len() == 0 {
        Map::empty()
    } else {
        as_map(s.drop_last()).insert(s.last().skey(), s.last())
    }
}

/// A key is bound by `as_map(s)` exactly when some record of `s` carries it.
pub proof fn lemma_as_map_dom<T: KeyedState>(s: Seq<T>)
    ensures
        forall|k: Seq<char>|
            as_map(s).dom().contains(k) <==> exists|i: int| 0 <= i < s.len() && (#[trigger] s[i]).skey() == k,
    decreases s.len(),
{
    if s.len() == 0 {
    } else {
        lemma_as_map_dom(s.drop_last());
        assert forall|k: Seq<char>|
            as_map(s).dom().contains(k) implies exists|i: int|
            0 <= i < s.len() && (#[trigger] s[i]).skey() == k by {
            if k == s.last().skey() {
                assert(s[s.len() - 1].skey() == k);
            } else {
                assert(as_map(s.drop_last()).dom().contains(k));
                let i = choose|i: int|
                    0 <= i < s.drop_last().len() && (#[trigger] s.drop_last()[i]).skey() == k;
                assert(s.drop_last()[i] == s[i]);
                assert(s[i].skey() == k);
            }
        };
        assert forall|k: Seq<char>|
            (exists|i: int| 0 <= i < s.len() && (#[trigger] s[i]).skey() == k) implies as_map(
            s,
        ).dom().contains(k) by {
            let i = choose|i: int| 0 <= i < s.len() && (#[trigger] s[i]).skey() == k;
            if i < s.len() - 1 {
                assert(s.drop_last()[i] == s[i]);
                assert(s.drop_last()[i].skey() == k);
                assert(as_map(s.drop_last()).dom().contains(k));
            } else {
                assert(k == s.last().skey());
            }
        };
    }
}

/// A state record's foreign key always matches the key it is stored
/// under: the map binds `k` only to records whose own key is `k`.
pub proof fn lemma_as_map_key_matches<T: KeyedState>(s: Seq<T>)
    ensures
        forall|k: Seq<char>| #[trigger]
            as_map(s).dom().contains(k) ==> as_map(s)[k].skey() == k,
    decreases s.len(),
{
    if s.len() > 0 {
        lemma_as_map_key_matches(s.drop_last());
        assert forall|k: Seq<char>| #[trigger]
            as_map(s).dom().contains(k) implies as_map(s)[k].skey() == k by {
            if k != s.last().skey() {
                assert(as_map(s.drop_last()).dom().contains(k));
            }
        };
    }
}

/// Pairwise distinct keys.
pub open spec fn distinct_keys<T: KeyedState>(s: Seq<T>) -> bool {
    forall|i: int, j: int|
        0 <= i < j < s.len() ==> (#[trigger] s[i]).skey() != (#[trigger] s[j]).skey()
}

/// With distinct keys, each record is the one its key binds to.
pub proof fn lemma_as_map_get<T: KeyedState>(s: Seq<T>, i: int)
    requires
        distinct_keys(s),
        0 <= i < s.len(),
    ensures
        as_map(s).dom().contains(s[i].skey()),
        as_map(s)[s[i].skey()] == s[i],
    decreases s.len(),
{
    if i == s.len() - 1 {
    } else {
        assert(distinct_keys(s.drop_last()));
        assert(s.drop_last()[i] == s[i]);
        lemma_as_map_get(s.drop_last(), i);
        assert(s[i].skey() != s.last().skey());
    }
}

/// Removing a record removes exactly its binding.
pub proof fn lemma_as_map_remove<T: KeyedState>(s: Seq<T>, i: int)
    requires
        distinct_keys(s),
        0 <= i < s.len(),
    ensures
        as_map(s.remove(i)) == as_map(s).remove(s[i].skey()),
    decreases s.len(),
{
    if i == s.len() - 1 {
        assert(s.remove(i) =~= s.drop_last());
        lemma_as_map_dom(s.drop_last());
        assert(forall|j: int|
            0 <= j < s.drop_last().len() ==> (#[trigger] s.drop_last()[j]).skey() != s.last().skey());
        assert(!as_map(s.drop_last()).dom().contains(s.last().skey()));
        assert(as_map(s.drop_last()) =~= as_map(s).remove(s.last().skey()));
    } else {
        assert(s.remove(i).drop_last() =~= s.drop_last().remove(i));
        assert(s.remove(i).last() == s.last());
        assert(distinct_keys(s.drop_last()));
        assert(s.drop_last()[i] == s[i]);
        lemma_as_map_remove(s.drop_last(), i);
        assert(s[i].skey() != s.last().skey());
        assert(as_map(s.drop_last()).remove(s[i].skey()).insert(s.last().skey(), s.last())
            =~= as_map(s.drop_last()).insert(s.last().skey(), s.last()).remove(s[i].skey()));
    }
}

/// A map of state records, keyed by the id each record carries.
pub struct StateMap<T: KeyedState> {
    pub records: Vec<T>,
}

impl<T: KeyedState> View for StateMap<T> {
    type V = Map<Seq<char>, T>;

    open spec fn view(&self) -> Map<Seq<char>, T> {
        as_map(self.records@)
    }
}

impl<T: KeyedState> StateMap<T> {
    /// Well-formed: no two records share a key.
    pub open spec fn wf(&self) -> bool {
        distinct_keys(self.records@)
    }

    /// An empty map.
    pub fn new() -> (r: Self)
        ensures
            r.wf(),
            r@ == Map::<Seq<char>, T>::empty(),
            r.records@.len() == 0,
    {
        StateMap { records: Vec::new() }
    }

    /// Number of records held.
    pub fn len(&self) -> (r: usize)
        ensures
            r == self.records@.len(),
    {
        self.records.len()
    }

    /// Looks a record up by entity id.
    pub fn get<'a>(&'a self, id: &str) -> (r: Option<&'a T>)
        requires
            self.wf(),
        ensures
            match r {
                Some(rec) => self@.dom().contains(id@) && *rec == self@[id@] && rec.skey() == id@,
                None => !self@.dom().contains(id@),
            },
    {
        let n = self.records.len();
        let mut i: usize = 0;
        while i < n
            invariant
                self.wf(),
                n == self.records@.len(),
                i <= n,
                forall|j: int| 0 <= j < i ==> (#[trigger] self.records@[j]).skey() != id@,
            decreases n - i,
        {
            if str_eq(self.records[i].key().as_str(), id) {
                proof {
                    lemma_as_map_get(self.records@, i as int);
                }
                return Some(&self.records[i]);
            }
            i = i + 1;
        }
        proof {
            lemma_as_map_dom(self.records@);
        }
        None
    }

    /// Inserts a record, replacing any record already stored under the same
    /// key.
    pub fn upsert(&mut self, rec: T)
        requires
            old(self).wf(),
        ensures
            final(self).wf(),
            final(self)@ == old(self)@.insert(rec.skey(), rec),
            final(self).records@.len() <= old(self).records@.len() + 1,
    {
        let n = self.records.len();
        let mut i: usize = 0;
        while i < n
            invariant
                self.wf(),
                self == old(self),
                n == self.records@.len(),
                i <= n,
                forall|j: int| 0 <= j < i ==> (#[trigger] self.records@[j]).skey() != rec.skey(),
            decreases n - i,
        {
            if str_eq(self.records[i].key().as_str(), rec.key().as_str()) {
                proof {
                    lemma_as_map_remove(self.records@, i as int);
                }
                let ghost before = self.records@;
                self.records.remove(i);
                self.records.push(rec);
                proof {
                    assert(self.records@.drop_last() =~= before.remove(i as int));
                    assert(self.records@.last() == rec);
                    assert(old(self)@.remove(before[i as int].skey()).insert(rec.skey(), rec)
                        =~= old(self)@.insert(rec.skey(), rec));
                    assert forall|a: int, b: int|
                        0 <= a < b < self.records@.len() implies (#[trigger] self.records@[a]).skey()
                        != (#[trigger] self.records@[b]).skey() by {
                        if b < self.records@.len() - 1 {
                            let a0 = if a < i as int {
                                a
                            } else {
                                a + 1
                            };
                            let b0 = if b < i as int {
                                b
                            } else {
                                b + 1
                            };
                            assert(before[a0] == self.records@[a] && before[b0]
                                == self.records@[b]);
                        } else {
                            let a0 = if a < i as int {
                                a
                            } else {
                                a + 1
                            };
                            assert(before[a0] == self.records@[a]);
                        }
                    };
                }
                return ;
            }
            i = i + 1;
        }
        proof {
            lemma_as_map_dom(self.records@);
        }
        self.records.push(rec);
        proof {
            assert(self.records@.drop_last() =~= old(self).records@);
        }
    }

    /// Creates a blank record for `id` if none exists yet; an existing
    /// record is left untouched. This is the lazy creation of state the
    /// first time an entity is displayed.
    pub fn ensure_default(&mut self, id: &String)
        requires
            old(self).wf(),
        ensures
            final(self).wf(),
            old(self)@.dom().contains(id@) ==> *final(self) == *old(self),
            !old(self)@.dom().contains(id@) ==> exists|rec: T|
                rec.skey() == id@ && #[trigger] rec.is_blank() && final(self)@ == old(
                    self,
                )@.insert(id@, rec),
    {
        let missing = match self.get(id.as_str()) {
            Some(_) => false,
            None => true,
        };
        if missing {
            let rec = T::make_blank(id);
            self.upsert(rec);
        }
    }

    /// Exact copies of all records, in storage order.
    pub fn to_vec(&self) -> (r: Vec<T>)
        ensures
            r@ == self.records@,
    {
        let mut out: Vec<T> = Vec::new();
        let n = self.records.len();
        let mut i: usize = 0;
        while i < n
            invariant
                n == self.records@.len(),
                i <= n,
                out@ =~= self.records@.take(i as int),
            decreases n - i,
        {
            out.push(self.records[i].copy_rec());
            proof {
                assert(out@ =~= self.records@.take(i + 1));
            }
            i = i + 1;
        }
        proof {
            assert(self.records@.take(n as int) =~= self.records@);
        }
        out
    }
}

} // verus!

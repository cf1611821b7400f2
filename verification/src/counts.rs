//! Aggregate per-console counts over the game state map: how many of a
//! console's games are owned, favorite, or wishlisted. The table is a cache
//! derived from the game states; it is recomputed whenever they change and
//! is never a source of truth.

use vstd::prelude::*;

use crate::game_data::first_hyphen;
use crate::game_data::get_console_from_id;
use crate::model::GameState;
use crate::seq_util::lemma_filter_of_none;
use crate::seq_util::lemma_filter_push;
use crate::store::StateMap;
use crate::text::str_eq;

verus! {

/// The console id a game state belongs to, derived from its game id.
pub open spec fn console_of(game_id: Seq<char>) -> Seq<char> {
    game_id.take(first_hyphen(game_id))
}

/// How many records of `recs` belong to console `cid` and are owned.
pub open spec fn count_owned(recs: Seq<GameState>, cid: Seq<char>) -> int {
    recs.filter(|r: GameState| console_of(r.game_id@) == cid && r.owned).len() as int
}

/// How many records of `recs` belong to console `cid` and are favorites.
pub open spec fn count_favorite(recs: Seq<GameState>, cid: Seq<char>) -> int {
    recs.filter(|r: GameState| console_of(r.game_id@) == cid && r.favorite).len() as int
}

/// How many records of `recs` belong to console `cid` and are wishlisted.
pub open spec fn count_wishlist(recs: Seq<GameState>, cid: Seq<char>) -> int {
    recs.filter(|r: GameState| console_of(r.game_id@) == cid && r.wishlist).len() as int
}

/// Some record of `recs` belongs to console `cid`.
pub open spec fn has_console(recs: Seq<GameState>, cid: Seq<char>) -> bool {
    exists|i: int| 0 <= i < recs.len() && console_of((#[trigger] recs[i]).game_id@) == cid
}

/// Appending one record changes each console's counts by its own flags.
proof fn lemma_counts_push(prefix: Seq<GameState>, x: GameState, c: Seq<char>)
    ensures
        count_owned(prefix.push(x), c) == count_owned(prefix, c) + (
        if console_of(x.game_id@) == c && x.owned {
            1int
        } else {
            0int
        }),
        count_favorite(prefix.push(x), c) == count_favorite(prefix, c) + (
        if console_of(x.game_id@) == c && x.favorite {
            1int
        } else {
            0int
        }),
        count_wishlist(prefix.push(x), c) == count_wishlist(prefix, c) + (
        if console_of(x.game_id@) == c && x.wishlist {
            1int
        } else {
            0int
        }),
{
    lemma_filter_push(prefix, x, |r: GameState| console_of(r.game_id@) == c && r.owned);
    lemma_filter_push(prefix, x, |r: GameState| console_of(r.game_id@) == c && r.favorite);
    lemma_filter_push(prefix, x, |r: GameState| console_of(r.game_id@) == c && r.wishlist);
}

/// A console with no record has all three counts zero.
pub proof fn lemma_counts_absent(recs: Seq<GameState>, c: Seq<char>)
    requires
        !has_console(recs, c),
    ensures
        count_owned(recs, c) == 0,
        count_favorite(recs, c) == 0,
        count_wishlist(recs, c) == 0,
{
    assert(forall|i: int|
        0 <= i < recs.len() ==> console_of((#[trigger] recs[i]).game_id@) != c);
    lemma_filter_of_none(recs, |r: GameState| console_of(r.game_id@) == c && r.owned);
    lemma_filter_of_none(recs, |r: GameState| console_of(r.game_id@) == c && r.favorite);
    lemma_filter_of_none(recs, |r: GameState| console_of(r.game_id@) == c && r.wishlist);
}

proof fn lemma_counts_bounded(recs: Seq<GameState>, c: Seq<char>)
    ensures
        0 <= count_owned(recs, c) <= recs.len(),
        0 <= count_favorite(recs, c) <= recs.len(),
        0 <= count_wishlist(recs, c) <= recs.len(),
{
    recs.lemma_filter_len(|r: GameState| console_of(r.game_id@) == c && r.owned);
    recs.lemma_filter_len(|r: GameState| console_of(r.game_id@) == c && r.favorite);
    recs.lemma_filter_len(|r: GameState| console_of(r.game_id@) == c && r.wishlist);
}

/// One row of the aggregate table: the three counts for one console.
pub struct ConsoleCounts {
    pub console_id: String,
    pub owned: usize,
    pub favorite: usize,
    pub wishlist: usize,
}

impl Clone for ConsoleCounts {
    fn clone(&self) -> (r: Self)
        ensures
            r == *self,
    {
        ConsoleCounts {
            console_id: self.console_id.clone(),
            owned: self.owned,
            favorite: self.favorite,
            wishlist: self.wishlist,
        }
    }
}

/// The aggregate table: one row per console that has at least one game
/// state record.
pub struct CountsTable {
    pub rows: Vec<ConsoleCounts>,
}

impl CountsTable {
    /// Well-formed: no two rows cover the same console.
    pub open spec fn wf(&self) -> bool {
        forall|i: int, j: int|
            0 <= i < j < self.rows@.len() ==> (#[trigger] self.rows@[i]).console_id@ != (
            #[trigger] self.rows@[j]).console_id@
    }

    /// The table states exactly the counts of `recs`: every row carries the
    /// counts of its console, and every console that occurs in `recs` has a
    /// row.
    pub open spec fn matches(&self, recs: Seq<GameState>) -> bool {
        &&& forall|i: int|
            0 <= i < self.rows@.len() ==> {
                let row = #[trigger] self.rows@[i];
                &&& row.owned == count_owned(recs, row.console_id@)
                &&& row.favorite == count_favorite(recs, row.console_id@)
                &&& row.wishlist == count_wishlist(recs, row.console_id@)
                &&& has_console(recs, row.console_id@)
            }
        &&& forall|cid: Seq<char>|
            #[trigger] has_console(recs, cid) ==> exists|i: int|
                0 <= i < self.rows@.len() && (#[trigger] self.rows@[i]).console_id@ == cid
    }

    /// The counts the table reports for one console: a row without a
    /// console reports zero.
    pub fn get(&self, console_id: &str) -> (r: (usize, usize, usize))
        requires
            self.wf(),
        ensures
            forall|recs: Seq<GameState>|
                #[trigger] self.matches(recs) ==> r.0 == count_owned(recs, console_id@) && r.1
                    == count_favorite(recs, console_id@) && r.2 == count_wishlist(
                    recs,
                    console_id@,
                ),
    {
        let n = self.rows.len();
        let mut i: usize = 0;
        while i < n
            invariant
                n == self.rows@.len(),
                i <= n,
                forall|j: int| 0 <= j < i ==> (#[trigger] self.rows@[j]).console_id@ != console_id@,
            decreases n - i,
        {
            if str_eq(self.rows[i].console_id.as_str(), console_id) {
                let row = &self.rows[i];
                return (row.owned, row.favorite, row.wishlist);
            }
            i = i + 1;
        }
        proof {
            assert forall|recs: Seq<GameState>| #[trigger] self.matches(recs) implies 0
                == count_owned(recs, console_id@) && 0 == count_favorite(recs, console_id@) && 0
                == count_wishlist(recs, console_id@) by {
                if has_console(recs, console_id@) {
                    assert(false);
                } else {
                    lemma_counts_absent(recs, console_id@);
                }
            };
        }
        (0, 0, 0)
    }
}

/// Recomputes the aggregate table from the game state map.
pub fn compute_game_counts(states: &StateMap<GameState>) -> (t: CountsTable)
    ensures
        t.wf(),
        t.matches(states.records@),
{
    let recs = &states.records;
    let n = recs.len();
    let mut t = CountsTable { rows: Vec::new() };
    let mut k: usize = 0;
    while k < n
        invariant
            n == recs@.len(),
            k <= n,
            t.wf(),
            t.matches(recs@.take(k as int)),
        decreases n - k,
    {
        let ghost prefix = recs@.take(k as int);
        let ghost x = recs@[k as int];
        let rec = &recs[k];
        let cid: &str = get_console_from_id(rec.game_id.as_str());
        proof {
            assert(recs@.take(k + 1) =~= prefix.push(x));
        }
        let m = t.rows.len();
        let mut idx: usize = 0;
        let mut found: bool = false;
        while !found && idx < m
            invariant
                m == t.rows@.len(),
                idx <= m,
                forall|j: int| 0 <= j < idx ==> (#[trigger] t.rows@[j]).console_id@ != cid@,
                found ==> idx < m && t.rows@[idx as int].console_id@ == cid@,
            decreases 2 * (m - idx) + (if found {
                0int
            } else {
                1int
            }),
        {
            if str_eq(t.rows[idx].console_id.as_str(), cid) {
                found = true;
            } else {
                idx = idx + 1;
            }
        }
        let ghost orig_rows = t.rows@;
        if !found {
            proof {
                if has_console(prefix, cid@) {
                    assert(false);
                }
                lemma_counts_absent(prefix, cid@);
            }
            t.rows.push(ConsoleCounts {
                console_id: cid.to_owned(),
                owned: 0,
                favorite: 0,
                wishlist: 0,
            });
        }
        let ghost rows_before = t.rows@;
        proof {
            // Every row's counts over the prefix hold, the chosen row covers
            // `cid`, no other row does, and the rows are still distinct.
            assert(rows_before[idx as int].console_id@ == cid@);
            assert forall|a: int, b: int|
                0 <= a < b < rows_before.len() implies (#[trigger] rows_before[a]).console_id@ != (
            #[trigger] rows_before[b]).console_id@ by {
                if b < orig_rows.len() {
                    assert(rows_before[a] == orig_rows[a] && rows_before[b] == orig_rows[b]);
                } else {
                    assert(rows_before[a] == orig_rows[a]);
                }
            };
            assert forall|j: int|
                0 <= j < rows_before.len() && j != idx as int implies (
            #[trigger] rows_before[j]).console_id@ != cid@ by {
                if j < orig_rows.len() {
                    assert(rows_before[j] == orig_rows[j]);
                }
            };
            assert forall|j: int| 0 <= j < rows_before.len() implies {
                let row = #[trigger] rows_before[j];
                &&& row.owned == count_owned(prefix, row.console_id@)
                &&& row.favorite == count_favorite(prefix, row.console_id@)
                &&& row.wishlist == count_wishlist(prefix, row.console_id@)
            } by {
                if j < orig_rows.len() {
                    assert(rows_before[j] == orig_rows[j]);
                }
            };
        }
        let mut row = t.rows.remove(idx);
        proof {
            lemma_counts_bounded(prefix, row.console_id@);
        }
        if rec.owned {
            row.owned = row.owned + 1;
        }
        if rec.favorite {
            row.favorite = row.favorite + 1;
        }
        if rec.wishlist {
            row.wishlist = row.wishlist + 1;
        }
        t.rows.insert(idx, row);
        proof {
            assert(t.rows@ =~= rows_before.update(idx as int, row));
            let now = recs@.take(k + 1);
            assert(console_of(x.game_id@) == cid@);
            assert(now[k as int] == x);
            assert forall|j: int| 0 <= j < t.rows@.len() implies {
                let r2 = #[trigger] t.rows@[j];
                &&& r2.owned == count_owned(now, r2.console_id@)
                &&& r2.favorite == count_favorite(now, r2.console_id@)
                &&& r2.wishlist == count_wishlist(now, r2.console_id@)
                &&& has_console(now, r2.console_id@)
            } by {
                lemma_counts_push(prefix, x, t.rows@[j].console_id@);
                if j == idx as int {
                    assert(console_of(now[k as int].game_id@) == t.rows@[j].console_id@);
                } else {
                    assert(t.rows@[j] == rows_before[j]);
                    if j < orig_rows.len() {
                        assert(has_console(prefix, t.rows@[j].console_id@));
                        let w = choose|i: int|
                            0 <= i < prefix.len() && console_of(
                                (#[trigger] prefix[i]).game_id@,
                            ) == t.rows@[j].console_id@;
                        assert(now[w] == prefix[w]);
                        assert(console_of(now[w].game_id@) == t.rows@[j].console_id@);
                    } else {
                        assert(false);
                    }
                }
            };
            assert forall|c: Seq<char>| #[trigger] has_console(now, c) implies exists|i: int|
                0 <= i < t.rows@.len() && (#[trigger] t.rows@[i]).console_id@ == c by {
                let w = choose|i: int|
                    0 <= i < now.len() && console_of((#[trigger] now[i]).game_id@) == c;
                if w < k as int {
                    assert(prefix[w] == now[w]);
                    assert(has_console(prefix, c));
                    let j = choose|i: int|
                        0 <= i < orig_rows.len() && (#[trigger] orig_rows[i]).console_id@ == c;
                    assert(rows_before[j] == orig_rows[j]);
                    assert(t.rows@[j].console_id@ == c || (j == idx as int
                        && t.rows@[j].console_id@ == c));
                } else {
                    assert(c == cid@);
                    assert(t.rows@[idx as int].console_id@ == c);
                }
            };
            assert forall|a: int, b: int|
                0 <= a < b < t.rows@.len() implies (#[trigger] t.rows@[a]).console_id@ != (
            #[trigger] t.rows@[b]).console_id@ by {
                assert(t.rows@[a].console_id@ == rows_before[a].console_id@);
                assert(t.rows@[b].console_id@ == rows_before[b].console_id@);
            };
        }
        k = k + 1;
    }
    proof {
        assert(recs@.take(n as int) =~= recs@);
    }
    t
}

} // verus!

//! The list presentation engine: given a catalog list and a state map,
//! apply search, status filter, multi-key sort, and pagination, and produce
//! the page of entities to render.
//!
//! Sorting works on rows of normalized keys: a numeric key, up to three
//! string keys, and the entity's position in the filtered list. The
//! position breaks every tie, so the sort order is total and the sort is
//! stable by construction.

use vstd::multiset::Multiset;
use vstd::prelude::*;

use crate::lego_dimensions::LegoDimensionFigure;
use crate::lego_dimensions::LegoDimensionState;
use crate::lego_dimensions::figure_id;
use crate::lego_dimensions::figure_id_seq;
use crate::model::Console;
use crate::model::ConsoleState;
use crate::model::FilterOption;
use crate::model::Game;
use crate::model::GameState;
use crate::model::LegoSortOption;
use crate::model::SkylandersSortOption;
use crate::model::SortOption;
use crate::skylanders::Skylander;
use crate::skylanders::SkylanderState;
use crate::skylanders::skylander_id;
use crate::skylanders::skylander_id_seq;
use crate::model::filter_allows;
use crate::model::filter_passes;
use crate::seq_util::lemma_filter_push;
use crate::store::KeyedState;
use crate::store::StateMap;
use crate::text::Cmp;
use crate::text::field_matches;
use crate::text::lex_le;
use crate::text::lower_of;
use crate::text::lowercase;
use crate::text::match_field;
use crate::text::lemma_lex_lt_trans;
use crate::text::lemma_lex_trichotomy;
use crate::text::lex_lt;
use crate::text::str_cmp;
use crate::text::str_eq;

verus! {

/// The sort key of one row, as mathematical values.
pub ghost struct RowKey {
    pub num: int,
    pub a: Seq<char>,
    pub b: Seq<char>,
    pub c: Seq<char>,
    pub slot: int,
}

/// Strict lexicographic order on keys: numeric key first, then the three
/// string keys, then the slot. Distinct slots make it total.
pub open spec fn key_lt(x: RowKey, y: RowKey) -> bool {
    ||| x.num < y.num
    ||| (x.num == y.num && lex_lt(x.a, y.a))
    ||| (x.num == y.num && x.a == y.a && lex_lt(x.b, y.b))
    ||| (x.num == y.num && x.a == y.a && x.b == y.b && lex_lt(x.c, y.c))
    ||| (x.num == y.num && x.a == y.a && x.b == y.b && x.c == y.c && x.slot < y.slot)
}

/// Keys are totally ordered: two keys are ordered one way, the other way,
/// or equal, and never both ways.
pub proof fn lemma_key_order(x: RowKey, y: RowKey)
    ensures
        key_lt(x, y) || key_lt(y, x) || x == y,
        !(key_lt(x, y) && key_lt(y, x)),
        x == y ==> !key_lt(x, y),
{
    lemma_lex_trichotomy(x.a, y.a);
    lemma_lex_trichotomy(x.b, y.b);
    lemma_lex_trichotomy(x.c, y.c);
}

/// Transitivity of the key order.
pub proof fn lemma_key_lt_trans(x: RowKey, y: RowKey, z: RowKey)
    requires
        key_lt(x, y),
        key_lt(y, z),
    ensures
        key_lt(x, z),
{
    if lex_lt(x.a, y.a) && lex_lt(y.a, z.a) {
        lemma_lex_lt_trans(x.a, y.a, z.a);
    }
    if lex_lt(x.b, y.b) && lex_lt(y.b, z.b) {
        lemma_lex_lt_trans(x.b, y.b, z.b);
    }
    if lex_lt(x.c, y.c) && lex_lt(y.c, z.c) {
        lemma_lex_lt_trans(x.c, y.c, z.c);
    }
}

/// If `x` comes before `y`, and `z` does not, then `x` comes before `z`.
pub proof fn lemma_key_lt_le_trans(x: RowKey, y: RowKey, z: RowKey)
    requires
        key_lt(x, y),
        !key_lt(z, y),
    ensures
        key_lt(x, z),
{
    lemma_key_order(y, z);
    if key_lt(y, z) {
        lemma_key_lt_trans(x, y, z);
    }
}

/// A row prepared for sorting: the key fields as runtime values, and the
/// slot of the entity in the filtered list.
pub struct SortRow {
    pub num: u64,
    pub a: String,
    pub b: String,
    pub c: String,
    pub slot: usize,
}

/// The mathematical key a row carries.
pub open spec fn key_of_row(r: SortRow) -> RowKey {
    RowKey { num: r.num as int, a: r.a@, b: r.b@, c: r.c@, slot: r.slot as int }
}

/// The keys of a row sequence, in order.
pub open spec fn keys_of(s: Seq<SortRow>) -> Seq<RowKey> {
    Seq::new(s.len(), |i: int| key_of_row(s[i]))
}

fn row_before(x: &SortRow, y: &SortRow) -> (r: bool)
    ensures
        r == key_lt(key_of_row(*x), key_of_row(*y)),
{
    if x.num != y.num {
        return x.num < y.num;
    }
    match str_cmp(x.a.as_str(), y.a.as_str()) {
        Cmp::Lt => return true,
        Cmp::Gt => {
            proof {
                lemma_lex_trichotomy(x.a@, y.a@);
            }
            return false;
        },
        Cmp::Eq => {},
    }
    match str_cmp(x.b.as_str(), y.b.as_str()) {
        Cmp::Lt => return true,
        Cmp::Gt => {
            proof {
                lemma_lex_trichotomy(x.b@, y.b@);
            }
            return false;
        },
        Cmp::Eq => {},
    }
    match str_cmp(x.c.as_str(), y.c.as_str()) {
        Cmp::Lt => return true,
        Cmp::Gt => {
            proof {
                lemma_lex_trichotomy(x.c@, y.c@);
            }
            return false;
        },
        Cmp::Eq => {},
    }
    x.slot < y.slot
}

/// Inserts key `x` into a sorted key sequence, after every key it does not
/// strictly precede: an incoming row lands after the rows it ties with.
pub open spec fn insert_key(s: Seq<RowKey>, x: RowKey) -> Seq<RowKey>
    decreases s.len(),
{
    if s.len() == 0 {
        seq![x]
    } else if !key_lt(x, s.last()) {
        s.push(x)
    } else {
        insert_key(s.drop_last(), x).push(s.last())
    }
}

/// Insertion sort of a key sequence, keeping ties in input order.
pub open spec fn sort_keys(s: Seq<RowKey>) -> Seq<RowKey>
    decreases s.len(),
{
    if s.len() == 0 {
        Seq::<RowKey>::empty()
    } else {
        insert_key(sort_keys(s.drop_last()), s.last())
    }
}

/// Where `insert_key` puts the new key: at the first position from the
/// right whose predecessor does not come after `x`.
proof fn lemma_insert_key_at(s: Seq<RowKey>, x: RowKey, p: int)
    requires
        0 <= p <= s.len(),
        forall|j: int| p <= j < s.len() ==> key_lt(x, #[trigger] s[j]),
        p > 0 ==> !key_lt(x, s[p - 1]),
    ensures
        insert_key(s, x) == s.take(p) + seq![x] + s.skip(p),
    decreases s.len(),
{
    if s.len() == 0 {
        assert(insert_key(s, x) =~= s.take(p) + seq![x] + s.skip(p));
    } else if !key_lt(x, s.last()) {
        assert(p == s.len());
        assert(s.take(p) =~= s);
        assert(s.skip(p) =~= Seq::<RowKey>::empty());
        assert(insert_key(s, x) =~= s.take(p) + seq![x] + s.skip(p));
    } else {
        assert(p < s.len());
        assert(forall|j: int|
            p <= j < s.drop_last().len() ==> key_lt(x, #[trigger] s.drop_last()[j]));
        lemma_insert_key_at(s.drop_last(), x, p);
        assert(insert_key(s, x) =~= s.take(p) + seq![x] + s.skip(p));
    }
}

/// Sortedness: no later key strictly precedes an earlier one.
pub open spec fn sorted_keys(s: Seq<RowKey>) -> bool {
    forall|i: int, j: int| 0 <= i < j < s.len() ==> !key_lt(#[trigger] s[j], #[trigger] s[i])
}

proof fn lemma_insert_key_sorted(s: Seq<RowKey>, x: RowKey)
    requires
        sorted_keys(s),
    ensures
        sorted_keys(insert_key(s, x)),
    decreases s.len(),
{
    broadcast use vstd::seq_lib::group_to_multiset_ensures;

    if s.len() == 0 {
    } else if !key_lt(x, s.last()) {
        let t = s.push(x);
        assert forall|i: int, j: int| 0 <= i < j < t.len() implies !key_lt(t[j], t[i]) by {
            if j == t.len() - 1 {
                if key_lt(x, s[i]) {
                    lemma_key_lt_le_trans(x, s[i], s.last());
                    if i < s.len() - 1 {
                        assert(!key_lt(s.last(), s[i]));
                    }
                    assert(false);
                }
            }
        };
    } else {
        assert(sorted_keys(s.drop_last()));
        lemma_insert_key_sorted(s.drop_last(), x);
        let u = insert_key(s.drop_last(), x);
        let t = u.push(s.last());
        lemma_insert_key_multiset(s.drop_last(), x);
        assert forall|i: int, j: int| 0 <= i < j < t.len() implies !key_lt(t[j], t[i]) by {
            if j == t.len() - 1 {
                // t[j] is s.last(); t[i] is a key of u: either x or an old key.
                assert(u[i] == t[i]);
                assert(u.to_multiset().contains(t[i]));
                if t[i] == x {
                    lemma_key_order(x, s.last());
                } else {
                    assert(s.drop_last().to_multiset().contains(t[i]));
                    let w = choose|w: int|
                        0 <= w < s.drop_last().len() && s.drop_last()[w] == t[i];
                    assert(s[w] == t[i]);
                    assert(!key_lt(s.last(), s[w]));
                }
            } else {
                assert(u[i] == t[i] && u[j] == t[j]);
            }
        };
    }
}

proof fn lemma_insert_key_multiset(s: Seq<RowKey>, x: RowKey)
    ensures
        insert_key(s, x).to_multiset() == s.to_multiset().insert(x),
    decreases s.len(),
{
    broadcast use vstd::seq_lib::group_to_multiset_ensures;

    if s.len() == 0 {
        assert(insert_key(s, x) =~= Seq::<RowKey>::empty().push(x));
        assert(Seq::<RowKey>::empty().to_multiset() =~= Multiset::<RowKey>::empty());
        assert(insert_key(s, x).to_multiset() =~= s.to_multiset().insert(x));
    } else if !key_lt(x, s.last()) {
        assert(s.push(x).to_multiset() =~= s.to_multiset().insert(x));
    } else {
        lemma_insert_key_multiset(s.drop_last(), x);
        assert(s.drop_last().push(s.last()) =~= s);
        assert(insert_key(s, x).to_multiset() =~= insert_key(
            s.drop_last(),
            x,
        ).to_multiset().insert(s.last()));
        assert(s.drop_last().to_multiset().insert(s.last()) =~= s.to_multiset());
        assert(insert_key(s, x).to_multiset() =~= s.to_multiset().insert(x));
    }
}

/// Sorting keeps exactly the input keys.
pub proof fn lemma_sort_keys_multiset(s: Seq<RowKey>)
    ensures
        sort_keys(s).to_multiset() == s.to_multiset(),
        sort_keys(s).len() == s.len(),
    decreases s.len(),
{
    broadcast use vstd::seq_lib::group_to_multiset_ensures;

    if s.len() == 0 {
    } else {
        lemma_sort_keys_multiset(s.drop_last());
        lemma_insert_key_multiset(sort_keys(s.drop_last()), s.last());
        assert(s.drop_last().push(s.last()) =~= s);
        assert(s.drop_last().to_multiset().insert(s.last()) =~= s.to_multiset());
    }
    assert(sort_keys(s).to_multiset().len() == sort_keys(s).len());
    assert(s.to_multiset().len() == s.len());
}

/// Sorting sorts.
pub proof fn lemma_sort_keys_sorted(s: Seq<RowKey>)
    ensures
        sorted_keys(sort_keys(s)),
    decreases s.len(),
{
    if s.len() > 0 {
        lemma_sort_keys_sorted(s.drop_last());
        lemma_insert_key_sorted(sort_keys(s.drop_last()), s.last());
    }
}

/// Every key of the sorted sequence is one of the input keys.
pub proof fn lemma_sort_keys_element(s: Seq<RowKey>, k: int)
    requires
        0 <= k < sort_keys(s).len(),
    ensures
        exists|i: int| 0 <= i < s.len() && #[trigger] s[i] == sort_keys(s)[k],
{
    broadcast use vstd::seq_lib::group_to_multiset_ensures;

    lemma_sort_keys_multiset(s);
    assert(sort_keys(s).to_multiset().contains(sort_keys(s)[k]));
    assert(s.to_multiset().contains(sort_keys(s)[k]));
}

/// Conversely, every input key appears in the sorted sequence.
pub proof fn lemma_sort_keys_covers(s: Seq<RowKey>, i: int)
    requires
        0 <= i < s.len(),
    ensures
        exists|k: int| 0 <= k < sort_keys(s).len() && #[trigger] sort_keys(s)[k] == s[i],
{
    broadcast use vstd::seq_lib::group_to_multiset_ensures;

    lemma_sort_keys_multiset(s);
    assert(s.to_multiset().contains(s[i]));
    assert(sort_keys(s).to_multiset().contains(s[i]));
}

/// The sort is stable: when the slots count off the input positions, two
/// sorted keys whose visible fields tie stand in the order of the
/// entities they came from.
pub proof fn lemma_sort_keys_stable(s: Seq<RowKey>, u: int, v: int)
    requires
        forall|i: int| 0 <= i < s.len() ==> (#[trigger] s[i]).slot == i,
        0 <= u < v < sort_keys(s).len(),
        sort_keys(s)[u].num == sort_keys(s)[v].num,
        sort_keys(s)[u].a == sort_keys(s)[v].a,
        sort_keys(s)[u].b == sort_keys(s)[v].b,
        sort_keys(s)[u].c == sort_keys(s)[v].c,
    ensures
        sort_keys(s)[u].slot < sort_keys(s)[v].slot,
{
    let sk = sort_keys(s);
    lemma_sort_keys_sorted(s);
    lemma_sort_keys_multiset(s);
    assert(s.no_duplicates()) by {
        assert forall|a: int, b: int| 0 <= a < b < s.len() implies s[a] != s[b] by {
            assert(s[a].slot == a && s[b].slot == b);
        };
    };
    s.lemma_multiset_has_no_duplicates();
    sk.lemma_multiset_has_no_duplicates_conv();
    assert(sk[u] != sk[v]);
    assert(!key_lt(sk[v], sk[u]));
    assert(sk[u].slot != sk[v].slot);
}

/// Sorts the rows by their keys, stably: ties keep their slot order.
fn sort_rows(rows: Vec<SortRow>) -> (out: Vec<SortRow>)
    ensures
        keys_of(out@) == sort_keys(keys_of(rows@)),
{
    let n = rows.len();
    let mut out: Vec<SortRow> = Vec::new();
    let mut k: usize = 0;
    proof {
        assert(keys_of(rows@.take(0)) =~= Seq::<RowKey>::empty());
        assert(keys_of(out@) =~= sort_keys(keys_of(rows@.take(0))));
    }
    while k < n
        invariant
            n == rows@.len(),
            k <= n,
            keys_of(out@) == sort_keys(keys_of(rows@.take(k as int))),
        decreases n - k,
    {
        let x = SortRow {
            num: rows[k].num,
            a: rows[k].a.clone(),
            b: rows[k].b.clone(),
            c: rows[k].c.clone(),
            slot: rows[k].slot,
        };
        let ghost kx = key_of_row(rows@[k as int]);
        assert(key_of_row(x) == kx);
        let ghost ks = keys_of(out@);
        let mut pos: usize = out.len();
        while pos > 0 && row_before(&x, &out[pos - 1])
            invariant
                pos <= out@.len(),
                ks == keys_of(out@),
                key_of_row(x) == kx,
                forall|j: int| pos <= j < out@.len() ==> key_lt(kx, #[trigger] ks[j]),
            decreases pos,
        {
            pos = pos - 1;
        }
        let ghost before = out@;
        out.insert(pos, x);
        proof {
            lemma_insert_key_at(ks, kx, pos as int);
            assert(out@ =~= before.take(pos as int) + seq![x] + before.skip(pos as int));
            assert(keys_of(out@) =~= ks.take(pos as int) + seq![kx] + ks.skip(pos as int));
            assert(keys_of(out@) == insert_key(ks, kx));
            let tk1 = keys_of(rows@.take(k + 1));
            assert(tk1.drop_last() =~= keys_of(rows@.take(k as int)));
            assert(tk1.last() == kx);
            assert(sort_keys(tk1) == insert_key(sort_keys(tk1.drop_last()), tk1.last()));
            assert(keys_of(out@) == sort_keys(tk1));
        }
        k = k + 1;
    }
    proof {
        assert(rows@.take(n as int) =~= rows@);
    }
    out
}

/// One page of presented entities, with the figures the caller renders
/// beside it.
pub struct Page<T> {
    pub items: Vec<T>,
    pub total: usize,
    pub total_pages: usize,
    pub page: usize,
}

/// Number of pages shown for `total` entities at `size` per page: at least
/// one page, even when the list is empty.
pub open spec fn pages_of(total: int, size: int) -> int {
    if total == 0 {
        1
    } else {
        (total + size - 1) / size
    }
}

/// The page actually shown: a request at or past the last page resets to
/// the first page, never to the last one.
pub open spec fn effective_page(page: int, total_pages: int) -> int {
    if page >= total_pages {
        0
    } else {
        page
    }
}

/// Status rank used by the status sort: owned entities first, then
/// favorites, then wishlisted, then unmarked.
pub open spec fn status_rank(owned: bool, favorite: bool, wishlist: bool) -> int {
    if owned {
        0
    } else if favorite {
        1
    } else if wishlist {
        2
    } else {
        3
    }
}

/// The three flags a state map holds for an entity id; an absent record
/// counts as all false.
pub open spec fn flags_of<T: KeyedState>(states: Map<Seq<char>, T>, id: Seq<char>) -> (
    bool,
    bool,
    bool,
) {
    if states.dom().contains(id) {
        states[id].flags()
    } else {
        (false, false, false)
    }
}

/// Whether a game is shown: it belongs to the selected console (`"all"`
/// selects every console), its title contains the search query after case
/// folding, and its state passes the status filter.
pub open spec fn game_passes(
    g: Game,
    states: Map<Seq<char>, GameState>,
    sel: Seq<char>,
    q: Seq<char>,
    f: FilterOption,
) -> bool {
    let flags = flags_of(states, g.id@);
    &&& (sel == "all"@ || g.console_id@ == sel)
    &&& field_matches(g.title@, q)
    &&& filter_passes(f, flags.0, flags.1, flags.2)
}

/// The games that pass search, console selection and status filter, in
/// catalog order.
pub open spec fn games_filtered(
    games: Seq<Game>,
    states: Map<Seq<char>, GameState>,
    sel: Seq<char>,
    q: Seq<char>,
    f: FilterOption,
) -> Seq<Game> {
    games.filter(|g: Game| game_passes(g, states, sel, q, f))
}

/// The sort key of one filtered game under the chosen sort order.
pub open spec fn game_key(
    g: Game,
    states: Map<Seq<char>, GameState>,
    sort: SortOption,
    slot: int,
) -> RowKey {
    match sort {
        SortOption::Title => (RowKey {
            num: 0,
            a: g.title@,
            b: Seq::empty(),
            c: Seq::empty(),
            slot,
        }),
        SortOption::Year => (RowKey {
            num: g.year as int,
            a: Seq::empty(),
            b: Seq::empty(),
            c: Seq::empty(),
            slot,
        }),
        SortOption::Status => {
            let flags = flags_of(states, g.id@);
            RowKey {
                num: status_rank(flags.0, flags.1, flags.2),
                a: Seq::empty(),
                b: Seq::empty(),
                c: Seq::empty(),
                slot,
            }
        },
    }
}

/// The sort keys of the filtered games, slot `i` for position `i`.
pub open spec fn games_keys(
    fil: Seq<Game>,
    states: Map<Seq<char>, GameState>,
    sort: SortOption,
) -> Seq<RowKey> {
    Seq::new(fil.len(), |i: int| game_key(fil[i], states, sort, i))
}

/// The exact content of the requested page: the slice of the stably sorted
/// filtered games that the effective page covers.
pub open spec fn games_page_items(
    games: Seq<Game>,
    states: Map<Seq<char>, GameState>,
    sel: Seq<char>,
    q: Seq<char>,
    f: FilterOption,
    sort: SortOption,
    page: int,
) -> Seq<Game> {
    let fil = games_filtered(games, states, sel, q, f);
    let sorted = sort_keys(games_keys(fil, states, sort));
    let total = fil.len() as int;
    let tp = pages_of(total, 50);
    let ep = effective_page(page, tp);
    let start = ep * 50;
    let end = if start + 50 <= total {
        start + 50
    } else {
        total
    };
    Seq::new((end - start) as nat, |j: int| fil[sorted[start + j].slot])
}

/// Presents the games tab: filters by selected console, search query and
/// status filter, sorts stably by the chosen order, and returns the
/// requested page (fifty games per page). An out-of-range page request
/// resets to the first page.
pub fn present_games(
    games: &Vec<Game>,
    states: &StateMap<GameState>,
    selected_console: &str,
    search_query: &str,
    filter_by: FilterOption,
    sort_by: SortOption,
    page: usize,
) -> (r: Page<Game>)
    requires
        states.wf(),
        games@.len() + 50 <= usize::MAX,
    ensures
        r.total == games_filtered(games@, states@, selected_console@, search_query@, filter_by).len(),
        r.total_pages == pages_of(r.total as int, 50),
        r.page == effective_page(page as int, r.total_pages as int),
        r.items@ == games_page_items(
            games@,
            states@,
            selected_console@,
            search_query@,
            filter_by,
            sort_by,
            page as int,
        ),
{
    let ghost pred = |g: Game|
        game_passes(g, states@, selected_console@, search_query@, filter_by);
    let all_selected = str_eq(selected_console, "all");
    let q_lower = lowercase(search_query);
    let mut fil: Vec<Game> = Vec::new();
    let n = games.len();
    let mut i: usize = 0;
    proof {
        assert(games@.take(0).filter(pred) =~= Seq::<Game>::empty());
    }
    while i < n
        invariant
            states.wf(),
            n == games@.len(),
            i <= n,
            all_selected == (selected_console@ == "all"@),
            q_lower@ == lower_of(search_query@),
            pred == (|g: Game|
                game_passes(g, states@, selected_console@, search_query@, filter_by)),
            fil@ == games@.take(i as int).filter(pred),
        decreases n - i,
    {
        let g = &games[i];
        let sel_ok = all_selected || str_eq(g.console_id.as_str(), selected_console);
        let search_ok = match_field(g.title.as_str(), search_query, q_lower.as_str());
        let st = states.get(g.id.as_str());
        let owned: bool;
        let favorite: bool;
        let wishlist: bool;
        match st {
            Some(rec) => {
                owned = rec.owned;
                favorite = rec.favorite;
                wishlist = rec.wishlist;
            },
            None => {
                owned = false;
                favorite = false;
                wishlist = false;
            },
        }
        let pass = sel_ok && search_ok && filter_allows(filter_by, owned, favorite, wishlist);
        proof {
            assert(pass == pred(games@[i as int]));
            lemma_filter_push(games@.take(i as int), games@[i as int], pred);
            assert(games@.take(i + 1) =~= games@.take(i as int).push(games@[i as int]));
        }
        if pass {
            fil.push(g.clone());
        }
        i = i + 1;
    }
    proof {
        assert(games@.take(n as int) =~= games@);
        games@.lemma_filter_len(pred);
    }
    let ghost filv = fil@;
    let total = fil.len();
    let mut rows: Vec<SortRow> = Vec::new();
    let mut i2: usize = 0;
    while i2 < total
        invariant
            states.wf(),
            total == filv.len(),
            fil@ == filv,
            i2 <= total,
            rows@.len() == i2,
            forall|j: int|
                0 <= j < i2 ==> key_of_row(#[trigger] rows@[j]) == game_key(
                    filv[j],
                    states@,
                    sort_by,
                    j,
                ),
        decreases total - i2,
    {
        let g = &fil[i2];
        let row: SortRow;
        match sort_by {
            SortOption::Title => {
                row = SortRow {
                    num: 0,
                    a: g.title.clone(),
                    b: String::new(),
                    c: String::new(),
                    slot: i2,
                };
            },
            SortOption::Year => {
                row = SortRow {
                    num: g.year as u64,
                    a: String::new(),
                    b: String::new(),
                    c: String::new(),
                    slot: i2,
                };
            },
            SortOption::Status => {
                let st = states.get(g.id.as_str());
                let rank: u64 = match st {
                    Some(rec) => {
                        if rec.owned {
                            0
                        } else if rec.favorite {
                            1
                        } else if rec.wishlist {
                            2
                        } else {
                            3
                        }
                    },
                    None => 3,
                };
                row = SortRow {
                    num: rank,
                    a: String::new(),
                    b: String::new(),
                    c: String::new(),
                    slot: i2,
                };
            },
        }
        rows.push(row);
        i2 = i2 + 1;
    }
    proof {
        assert(keys_of(rows@) =~= games_keys(filv, states@, sort_by));
    }
    let sorted = sort_rows(rows);
    let ghost sk = sort_keys(games_keys(filv, states@, sort_by));
    proof {
        lemma_sort_keys_multiset(games_keys(filv, states@, sort_by));
        assert(sorted@.len() == keys_of(sorted@).len());
        assert(sorted@.len() == total);
    }
    let total_pages: usize = if total == 0 {
        1
    } else {
        (total + 49) / 50
    };
    let page_shown: usize = if page >= total_pages {
        0
    } else {
        page
    };
    proof {
        if total > 0 {
            assert(50 * ((total + 49) as int / 50) <= total + 49);
            assert(page_shown < total_pages);
            assert((total_pages - 1) * 50 < total);
        }
    }
    let start: usize = page_shown * 50;
    let end: usize = if start + 50 <= total {
        start + 50
    } else {
        total
    };
    let mut items: Vec<Game> = Vec::new();
    let mut k: usize = 0;
    while k < end - start
        invariant
            filv == fil@,
            total == filv.len(),
            sorted@.len() == total,
            keys_of(sorted@) == sk,
            sk == sort_keys(games_keys(filv, states@, sort_by)),
            sk.len() == total,
            start <= end <= total,
            k <= end - start,
            items@.len() == k,
            forall|j: int| 0 <= j < k ==> #[trigger] items@[j] == filv[sk[start + j].slot],
        decreases end - start - k,
    {
        proof {
            lemma_sort_keys_element(games_keys(filv, states@, sort_by), start + k);
            let w = choose|w: int|
                0 <= w < games_keys(filv, states@, sort_by).len() && #[trigger] games_keys(
                    filv,
                    states@,
                    sort_by,
                )[w] == sk[start + k];
            assert(games_keys(filv, states@, sort_by)[w].slot == w);
            assert(key_of_row(sorted@[start + k]) == sk[start + k]);
        }
        let slot = sorted[start + k].slot;
        items.push(fil[slot].clone());
        k = k + 1;
    }
    proof {
        assert(items@ =~= games_page_items(
            games@,
            states@,
            selected_console@,
            search_query@,
            filter_by,
            sort_by,
            page as int,
        ));
    }
    Page { items, total, total_pages, page: page_shown }
}

/// Whether a console is shown: its name or manufacturer contains the
/// search query after case folding, and its state passes the status
/// filter.
pub open spec fn console_passes(
    c: Console,
    states: Map<Seq<char>, ConsoleState>,
    q: Seq<char>,
    f: FilterOption,
) -> bool {
    let flags = flags_of(states, c.id@);
    &&& (field_matches(c.name@, q) || field_matches(c.manufacturer@, q))
    &&& filter_passes(f, flags.0, flags.1, flags.2)
}

/// The consoles that pass search and status filter, in catalog order.
pub open spec fn consoles_filtered(
    consoles: Seq<Console>,
    states: Map<Seq<char>, ConsoleState>,
    q: Seq<char>,
    f: FilterOption,
) -> Seq<Console> {
    consoles.filter(|c: Console| console_passes(c, states, q, f))
}

/// The sort key of one filtered console under the chosen sort order.
pub open spec fn console_key(
    c: Console,
    states: Map<Seq<char>, ConsoleState>,
    sort: SortOption,
    slot: int,
) -> RowKey {
    match sort {
        SortOption::Title => (RowKey {
            num: 0,
            a: c.name@,
            b: Seq::empty(),
            c: Seq::empty(),
            slot,
        }),
        SortOption::Year => (RowKey {
            num: c.year as int,
            a: Seq::empty(),
            b: Seq::empty(),
            c: Seq::empty(),
            slot,
        }),
        SortOption::Status => {
            let flags = flags_of(states, c.id@);
            RowKey {
                num: status_rank(flags.0, flags.1, flags.2),
                a: Seq::empty(),
                b: Seq::empty(),
                c: Seq::empty(),
                slot,
            }
        },
    }
}

/// The sort keys of the filtered consoles.
pub open spec fn consoles_keys(
    fil: Seq<Console>,
    states: Map<Seq<char>, ConsoleState>,
    sort: SortOption,
) -> Seq<RowKey> {
    Seq::new(fil.len(), |i: int| console_key(fil[i], states, sort, i))
}

/// The exact content of the requested console page (twenty per page).
pub open spec fn consoles_page_items(
    consoles: Seq<Console>,
    states: Map<Seq<char>, ConsoleState>,
    q: Seq<char>,
    f: FilterOption,
    sort: SortOption,
    page: int,
) -> Seq<Console> {
    let fil = consoles_filtered(consoles, states, q, f);
    let sorted = sort_keys(consoles_keys(fil, states, sort));
    let total = fil.len() as int;
    let tp = pages_of(total, 20);
    let ep = effective_page(page, tp);
    let start = ep * 20;
    let end = if start + 20 <= total {
        start + 20
    } else {
        total
    };
    Seq::new((end - start) as nat, |j: int| fil[sorted[start + j].slot])
}

/// Presents the consoles tab: filters by search query and status filter,
/// sorts stably, and returns the requested page (twenty consoles per
/// page). An out-of-range page request resets to the first page.
pub fn present_consoles(
    consoles: &Vec<Console>,
    states: &StateMap<ConsoleState>,
    search_query: &str,
    filter_by: FilterOption,
    sort_by: SortOption,
    page: usize,
) -> (r: Page<Console>)
    requires
        states.wf(),
        consoles@.len() + 20 <= usize::MAX,
    ensures
        r.total == consoles_filtered(consoles@, states@, search_query@, filter_by).len(),
        r.total_pages == pages_of(r.total as int, 20),
        r.page == effective_page(page as int, r.total_pages as int),
        r.items@ == consoles_page_items(
            consoles@,
            states@,
            search_query@,
            filter_by,
            sort_by,
            page as int,
        ),
{
    let ghost pred = |c: Console| console_passes(c, states@, search_query@, filter_by);
    let q_lower = lowercase(search_query);
    let mut fil: Vec<Console> = Vec::new();
    let n = consoles.len();
    let mut i: usize = 0;
    proof {
        assert(consoles@.take(0).filter(pred) =~= Seq::<Console>::empty());
    }
    while i < n
        invariant
            states.wf(),
            n == consoles@.len(),
            i <= n,
            q_lower@ == lower_of(search_query@),
            pred == (|c: Console| console_passes(c, states@, search_query@, filter_by)),
            fil@ == consoles@.take(i as int).filter(pred),
        decreases n - i,
    {
        let c = &consoles[i];
        let search_ok = match_field(c.name.as_str(), search_query, q_lower.as_str())
            || match_field(c.manufacturer.as_str(), search_query, q_lower.as_str());
        let st = states.get(c.id.as_str());
        let owned: bool;
        let favorite: bool;
        let wishlist: bool;
        match st {
            Some(rec) => {
                owned = rec.owned;
                favorite = rec.favorite;
                wishlist = rec.wishlist;
            },
            None => {
                owned = false;
                favorite = false;
                wishlist = false;
            },
        }
        let pass = search_ok && filter_allows(filter_by, owned, favorite, wishlist);
        proof {
            assert(pass == pred(consoles@[i as int]));
            lemma_filter_push(consoles@.take(i as int), consoles@[i as int], pred);
            assert(consoles@.take(i + 1) =~= consoles@.take(i as int).push(consoles@[i as int]));
        }
        if pass {
            fil.push(c.clone());
        }
        i = i + 1;
    }
    proof {
        assert(consoles@.take(n as int) =~= consoles@);
        consoles@.lemma_filter_len(pred);
    }
    let ghost filv = fil@;
    let total = fil.len();
    let mut rows: Vec<SortRow> = Vec::new();
    let mut i2: usize = 0;
    while i2 < total
        invariant
            states.wf(),
            total == filv.len(),
            fil@ == filv,
            i2 <= total,
            rows@.len() == i2,
            forall|j: int|
                0 <= j < i2 ==> key_of_row(#[trigger] rows@[j]) == console_key(
                    filv[j],
                    states@,
                    sort_by,
                    j,
                ),
        decreases total - i2,
    {
        let c = &fil[i2];
        let row: SortRow;
        match sort_by {
            SortOption::Title => {
                row = SortRow {
                    num: 0,
                    a: c.name.clone(),
                    b: String::new(),
                    c: String::new(),
                    slot: i2,
                };
            },
            SortOption::Year => {
                row = SortRow {
                    num: c.year as u64,
                    a: String::new(),
                    b: String::new(),
                    c: String::new(),
                    slot: i2,
                };
            },
            SortOption::Status => {
                let st = states.get(c.id.as_str());
                let rank: u64 = match st {
                    Some(rec) => {
                        if rec.owned {
                            0
                        } else if rec.favorite {
                            1
                        } else if rec.wishlist {
                            2
                        } else {
                            3
                        }
                    },
                    None => 3,
                };
                row = SortRow {
                    num: rank,
                    a: String::new(),
                    b: String::new(),
                    c: String::new(),
                    slot: i2,
                };
            },
        }
        rows.push(row);
        i2 = i2 + 1;
    }
    proof {
        assert(keys_of(rows@) =~= consoles_keys(filv, states@, sort_by));
    }
    let sorted = sort_rows(rows);
    let ghost sk = sort_keys(consoles_keys(filv, states@, sort_by));
    proof {
        lemma_sort_keys_multiset(consoles_keys(filv, states@, sort_by));
        assert(sorted@.len() == keys_of(sorted@).len());
        assert(sorted@.len() == total);
    }
    let total_pages: usize = if total == 0 {
        1
    } else {
        (total + 19) / 20
    };
    let page_shown: usize = if page >= total_pages {
        0
    } else {
        page
    };
    proof {
        if total > 0 {
            assert(20 * ((total + 19) as int / 20) <= total + 19);
            assert(page_shown < total_pages);
            assert((total_pages - 1) * 20 < total);
        }
    }
    let start: usize = page_shown * 20;
    let end: usize = if start + 20 <= total {
        start + 20
    } else {
        total
    };
    let mut items: Vec<Console> = Vec::new();
    let mut k: usize = 0;
    while k < end - start
        invariant
            filv == fil@,
            total == filv.len(),
            sorted@.len() == total,
            keys_of(sorted@) == sk,
            sk == sort_keys(consoles_keys(filv, states@, sort_by)),
            sk.len() == total,
            start <= end <= total,
            k <= end - start,
            items@.len() == k,
            forall|j: int| 0 <= j < k ==> #[trigger] items@[j] == filv[sk[start + j].slot],
        decreases end - start - k,
    {
        proof {
            lemma_sort_keys_element(consoles_keys(filv, states@, sort_by), start + k);
            let w = choose|w: int|
                0 <= w < consoles_keys(filv, states@, sort_by).len() && #[trigger] consoles_keys(
                    filv,
                    states@,
                    sort_by,
                )[w] == sk[start + k];
            assert(consoles_keys(filv, states@, sort_by)[w].slot == w);
            assert(key_of_row(sorted@[start + k]) == sk[start + k]);
        }
        let slot = sorted[start + k].slot;
        items.push(fil[slot].clone());
        k = k + 1;
    }
    proof {
        assert(items@ =~= consoles_page_items(
            consoles@,
            states@,
            search_query@,
            filter_by,
            sort_by,
            page as int,
        ));
    }
    Page { items, total, total_pages, page: page_shown }
}

/// Whether a figure is shown: its name, category or pack id contains the
/// search query after case folding, and its state, looked up under its
/// derived id, passes the status filter.
pub open spec fn figure_passes(
    fig: LegoDimensionFigure,
    states: Map<Seq<char>, LegoDimensionState>,
    q: Seq<char>,
    f: FilterOption,
) -> bool {
    let flags = flags_of(states, figure_id_seq(fig.pack_id@, fig.name@));
    &&& (field_matches(fig.name@, q) || field_matches(fig.category@, q) || field_matches(
        fig.pack_id@,
        q,
    ))
    &&& filter_passes(f, flags.0, flags.1, flags.2)
}

/// The figures that pass search and status filter, in catalog order.
pub open spec fn figures_filtered(
    figures: Seq<LegoDimensionFigure>,
    states: Map<Seq<char>, LegoDimensionState>,
    q: Seq<char>,
    f: FilterOption,
) -> Seq<LegoDimensionFigure> {
    figures.filter(|fig: LegoDimensionFigure| figure_passes(fig, states, q, f))
}

/// The sort key of one filtered figure: each order carries its documented
/// tie-break chain.
pub open spec fn figure_key(fig: LegoDimensionFigure, sort: LegoSortOption, slot: int) -> RowKey {
    match sort {
        LegoSortOption::Name => (RowKey {
            num: 0,
            a: fig.name@,
            b: Seq::empty(),
            c: Seq::empty(),
            slot,
        }),
        LegoSortOption::Category => (RowKey {
            num: 0,
            a: fig.category@,
            b: fig.name@,
            c: fig.pack_id@,
            slot,
        }),
        LegoSortOption::Year => (RowKey {
            num: fig.year as int,
            a: fig.category@,
            b: fig.name@,
            c: Seq::empty(),
            slot,
        }),
        LegoSortOption::Pack => (RowKey {
            num: 0,
            a: fig.pack_id@,
            b: fig.category@,
            c: fig.name@,
            slot,
        }),
    }
}

/// The sort keys of the filtered figures.
pub open spec fn figures_keys(fil: Seq<LegoDimensionFigure>, sort: LegoSortOption) -> Seq<RowKey> {
    Seq::new(fil.len(), |i: int| figure_key(fil[i], sort, i))
}

/// The full sorted filtered figure list (this kind is not paginated).
pub open spec fn figures_items(
    figures: Seq<LegoDimensionFigure>,
    states: Map<Seq<char>, LegoDimensionState>,
    q: Seq<char>,
    f: FilterOption,
    sort: LegoSortOption,
) -> Seq<LegoDimensionFigure> {
    let fil = figures_filtered(figures, states, q, f);
    let sorted = sort_keys(figures_keys(fil, sort));
    Seq::new(fil.len(), |j: int| fil[sorted[j].slot])
}

/// Presents the LEGO Dimensions tab: filters by search query and status
/// filter and sorts stably. The whole list is one page.
pub fn present_lego_figures(
    figures: &Vec<LegoDimensionFigure>,
    states: &StateMap<LegoDimensionState>,
    search_query: &str,
    filter_by: FilterOption,
    sort_by: LegoSortOption,
) -> (r: Page<LegoDimensionFigure>)
    requires
        states.wf(),
    ensures
        r.total == figures_filtered(figures@, states@, search_query@, filter_by).len(),
        r.total_pages == 1,
        r.page == 0,
        r.items@ == figures_items(figures@, states@, search_query@, filter_by, sort_by),
{
    let ghost pred = |fig: LegoDimensionFigure|
        figure_passes(fig, states@, search_query@, filter_by);
    let q_lower = lowercase(search_query);
    let mut fil: Vec<LegoDimensionFigure> = Vec::new();
    let n = figures.len();
    let mut i: usize = 0;
    proof {
        assert(figures@.take(0).filter(pred) =~= Seq::<LegoDimensionFigure>::empty());
    }
    while i < n
        invariant
            states.wf(),
            n == figures@.len(),
            i <= n,
            q_lower@ == lower_of(search_query@),
            pred == (|fig: LegoDimensionFigure|
                figure_passes(fig, states@, search_query@, filter_by)),
            fil@ == figures@.take(i as int).filter(pred),
        decreases n - i,
    {
        let fig = &figures[i];
        let search_ok = match_field(fig.name.as_str(), search_query, q_lower.as_str())
            || match_field(fig.category.as_str(), search_query, q_lower.as_str())
            || match_field(fig.pack_id.as_str(), search_query, q_lower.as_str());
        let fid = figure_id(fig);
        let st = states.get(fid.as_str());
        let owned: bool;
        let favorite: bool;
        let wishlist: bool;
        match st {
            Some(rec) => {
                owned = rec.owned;
                favorite = rec.favorite;
                wishlist = rec.wishlist;
            },
            None => {
                owned = false;
                favorite = false;
                wishlist = false;
            },
        }
        let pass = search_ok && filter_allows(filter_by, owned, favorite, wishlist);
        proof {
            assert(pass == pred(figures@[i as int]));
            lemma_filter_push(figures@.take(i as int), figures@[i as int], pred);
            assert(figures@.take(i + 1) =~= figures@.take(i as int).push(figures@[i as int]));
        }
        if pass {
            fil.push(fig.clone());
        }
        i = i + 1;
    }
    proof {
        assert(figures@.take(n as int) =~= figures@);
    }
    let ghost filv = fil@;
    let total = fil.len();
    let mut rows: Vec<SortRow> = Vec::new();
    let mut i2: usize = 0;
    while i2 < total
        invariant
            total == filv.len(),
            fil@ == filv,
            i2 <= total,
            rows@.len() == i2,
            forall|j: int|
                0 <= j < i2 ==> key_of_row(#[trigger] rows@[j]) == figure_key(
                    filv[j],
                    sort_by,
                    j,
                ),
        decreases total - i2,
    {
        let fig = &fil[i2];
        let row: SortRow;
        match sort_by {
            LegoSortOption::Name => {
                row = SortRow {
                    num: 0,
                    a: fig.name.clone(),
                    b: String::new(),
                    c: String::new(),
                    slot: i2,
                };
            },
            LegoSortOption::Category => {
                row = SortRow {
                    num: 0,
                    a: fig.category.clone(),
                    b: fig.name.clone(),
                    c: fig.pack_id.clone(),
                    slot: i2,
                };
            },
            LegoSortOption::Year => {
                row = SortRow {
                    num: fig.year as u64,
                    a: fig.category.clone(),
                    b: fig.name.clone(),
                    c: String::new(),
                    slot: i2,
                };
            },
            LegoSortOption::Pack => {
                row = SortRow {
                    num: 0,
                    a: fig.pack_id.clone(),
                    b: fig.category.clone(),
                    c: fig.name.clone(),
                    slot: i2,
                };
            },
        }
        rows.push(row);
        i2 = i2 + 1;
    }
    proof {
        assert(keys_of(rows@) =~= figures_keys(filv, sort_by));
    }
    let sorted = sort_rows(rows);
    let ghost sk = sort_keys(figures_keys(filv, sort_by));
    proof {
        lemma_sort_keys_multiset(figures_keys(filv, sort_by));
        assert(sorted@.len() == keys_of(sorted@).len());
        assert(sorted@.len() == total);
    }
    let mut items: Vec<LegoDimensionFigure> = Vec::new();
    let mut k: usize = 0;
    while k < total
        invariant
            filv == fil@,
            total == filv.len(),
            sorted@.len() == total,
            keys_of(sorted@) == sk,
            sk == sort_keys(figures_keys(filv, sort_by)),
            sk.len() == total,
            k <= total,
            items@.len() == k,
            forall|j: int| 0 <= j < k ==> #[trigger] items@[j] == filv[sk[j].slot],
        decreases total - k,
    {
        proof {
            lemma_sort_keys_element(figures_keys(filv, sort_by), k as int);
            let w = choose|w: int|
                0 <= w < figures_keys(filv, sort_by).len() && #[trigger] figures_keys(
                    filv,
                    sort_by,
                )[w] == sk[k as int];
            assert(figures_keys(filv, sort_by)[w].slot == w);
            assert(key_of_row(sorted@[k as int]) == sk[k as int]);
        }
        let slot = sorted[k].slot;
        items.push(fil[slot].clone());
        k = k + 1;
    }
    proof {
        assert(items@ =~= figures_items(figures@, states@, search_query@, filter_by, sort_by));
    }
    Page { items, total, total_pages: 1, page: 0 }
}

/// Whether a Skylander is shown: its name, game, base color or category
/// contains the search query after case folding, and its state, looked up
/// under its derived id, passes the status filter.
pub open spec fn skylander_passes(
    s: Skylander,
    states: Map<Seq<char>, SkylanderState>,
    q: Seq<char>,
    f: FilterOption,
) -> bool {
    let flags = flags_of(states, skylander_id_seq(s.game@, s.name@, s.category@));
    &&& (field_matches(s.name@, q) || field_matches(s.game@, q) || field_matches(
        s.base_color@,
        q,
    ) || field_matches(s.category@, q))
    &&& filter_passes(f, flags.0, flags.1, flags.2)
}

/// The Skylanders that pass search and status filter, in catalog order.
pub open spec fn skylanders_filtered(
    skylanders: Seq<Skylander>,
    states: Map<Seq<char>, SkylanderState>,
    q: Seq<char>,
    f: FilterOption,
) -> Seq<Skylander> {
    skylanders.filter(|s: Skylander| skylander_passes(s, states, q, f))
}

/// The sort key of one filtered Skylander: each order carries its
/// documented tie-break chain.
pub open spec fn skylander_key(s: Skylander, sort: SkylandersSortOption, slot: int) -> RowKey {
    match sort {
        SkylandersSortOption::Name => (RowKey {
            num: 0,
            a: s.name@,
            b: Seq::empty(),
            c: Seq::empty(),
            slot,
        }),
        SkylandersSortOption::Game => (RowKey {
            num: 0,
            a: s.game@,
            b: s.name@,
            c: s.base_color@,
            slot,
        }),
        SkylandersSortOption::BaseColor => (RowKey {
            num: 0,
            a: s.base_color@,
            b: s.game@,
            c: s.name@,
            slot,
        }),
        SkylandersSortOption::Category => (RowKey {
            num: 0,
            a: s.category@,
            b: s.game@,
            c: s.name@,
            slot,
        }),
    }
}

/// The sort keys of the filtered Skylanders.
pub open spec fn skylanders_keys(fil: Seq<Skylander>, sort: SkylandersSortOption) -> Seq<RowKey> {
    Seq::new(fil.len(), |i: int| skylander_key(fil[i], sort, i))
}

/// The full sorted filtered Skylander list (this kind is not paginated).
pub open spec fn skylanders_items(
    skylanders: Seq<Skylander>,
    states: Map<Seq<char>, SkylanderState>,
    q: Seq<char>,
    f: FilterOption,
    sort: SkylandersSortOption,
) -> Seq<Skylander> {
    let fil = skylanders_filtered(skylanders, states, q, f);
    let sorted = sort_keys(skylanders_keys(fil, sort));
    Seq::new(fil.len(), |j: int| fil[sorted[j].slot])
}

/// Presents the Skylanders tab: filters by search query and status filter
/// and sorts stably. The whole list is one page.
pub fn present_skylanders(
    skylanders: &Vec<Skylander>,
    states: &StateMap<SkylanderState>,
    search_query: &str,
    filter_by: FilterOption,
    sort_by: SkylandersSortOption,
) -> (r: Page<Skylander>)
    requires
        states.wf(),
    ensures
        r.total == skylanders_filtered(skylanders@, states@, search_query@, filter_by).len(),
        r.total_pages == 1,
        r.page == 0,
        r.items@ == skylanders_items(skylanders@, states@, search_query@, filter_by, sort_by),
{
    let ghost pred = |s: Skylander| skylander_passes(s, states@, search_query@, filter_by);
    let q_lower = lowercase(search_query);
    let mut fil: Vec<Skylander> = Vec::new();
    let n = skylanders.len();
    let mut i: usize = 0;
    proof {
        assert(skylanders@.take(0).filter(pred) =~= Seq::<Skylander>::empty());
    }
    while i < n
        invariant
            states.wf(),
            n == skylanders@.len(),
            i <= n,
            q_lower@ == lower_of(search_query@),
            pred == (|s: Skylander| skylander_passes(s, states@, search_query@, filter_by)),
            fil@ == skylanders@.take(i as int).filter(pred),
        decreases n - i,
    {
        let s = &skylanders[i];
        let search_ok = match_field(s.name.as_str(), search_query, q_lower.as_str())
            || match_field(s.game.as_str(), search_query, q_lower.as_str())
            || match_field(s.base_color.as_str(), search_query, q_lower.as_str())
            || match_field(s.category.as_str(), search_query, q_lower.as_str());
        let sid = skylander_id(s);
        let st = states.get(sid.as_str());
        let owned: bool;
        let favorite: bool;
        let wishlist: bool;
        match st {
            Some(rec) => {
                owned = rec.owned;
                favorite = rec.favorite;
                wishlist = rec.wishlist;
            },
            None => {
                owned = false;
                favorite = false;
                wishlist = false;
            },
        }
        let pass = search_ok && filter_allows(filter_by, owned, favorite, wishlist);
        proof {
            assert(pass == pred(skylanders@[i as int]));
            lemma_filter_push(skylanders@.take(i as int), skylanders@[i as int], pred);
            assert(skylanders@.take(i + 1) =~= skylanders@.take(i as int).push(
                skylanders@[i as int],
            ));
        }
        if pass {
            fil.push(s.clone());
        }
        i = i + 1;
    }
    proof {
        assert(skylanders@.take(n as int) =~= skylanders@);
    }
    let ghost filv = fil@;
    let total = fil.len();
    let mut rows: Vec<SortRow> = Vec::new();
    let mut i2: usize = 0;
    while i2 < total
        invariant
            total == filv.len(),
            fil@ == filv,
            i2 <= total,
            rows@.len() == i2,
            forall|j: int|
                0 <= j < i2 ==> key_of_row(#[trigger] rows@[j]) == skylander_key(
                    filv[j],
                    sort_by,
                    j,
                ),
        decreases total - i2,
    {
        let s = &fil[i2];
        let row: SortRow;
        match sort_by {
            SkylandersSortOption::Name => {
                row = SortRow {
                    num: 0,
                    a: s.name.clone(),
                    b: String::new(),
                    c: String::new(),
                    slot: i2,
                };
            },
            SkylandersSortOption::Game => {
                row = SortRow {
                    num: 0,
                    a: s.game.clone(),
                    b: s.name.clone(),
                    c: s.base_color.clone(),
                    slot: i2,
                };
            },
            SkylandersSortOption::BaseColor => {
                row = SortRow {
                    num: 0,
                    a: s.base_color.clone(),
                    b: s.game.clone(),
                    c: s.name.clone(),
                    slot: i2,
                };
            },
            SkylandersSortOption::Category => {
                row = SortRow {
                    num: 0,
                    a: s.category.clone(),
                    b: s.game.clone(),
                    c: s.name.clone(),
                    slot: i2,
                };
            },
        }
        rows.push(row);
        i2 = i2 + 1;
    }
    proof {
        assert(keys_of(rows@) =~= skylanders_keys(filv, sort_by));
    }
    let sorted = sort_rows(rows);
    let ghost sk = sort_keys(skylanders_keys(filv, sort_by));
    proof {
        lemma_sort_keys_multiset(skylanders_keys(filv, sort_by));
        assert(sorted@.len() == keys_of(sorted@).len());
        assert(sorted@.len() == total);
    }
    let mut items: Vec<Skylander> = Vec::new();
    let mut k: usize = 0;
    while k < total
        invariant
            filv == fil@,
            total == filv.len(),
            sorted@.len() == total,
            keys_of(sorted@) == sk,
            sk == sort_keys(skylanders_keys(filv, sort_by)),
            sk.len() == total,
            k <= total,
            items@.len() == k,
            forall|j: int| 0 <= j < k ==> #[trigger] items@[j] == filv[sk[j].slot],
        decreases total - k,
    {
        proof {
            lemma_sort_keys_element(skylanders_keys(filv, sort_by), k as int);
            let w = choose|w: int|
                0 <= w < skylanders_keys(filv, sort_by).len() && #[trigger] skylanders_keys(
                    filv,
                    sort_by,
                )[w] == sk[k as int];
            assert(skylanders_keys(filv, sort_by)[w].slot == w);
            assert(key_of_row(sorted@[k as int]) == sk[k as int]);
        }
        let slot = sorted[k].slot;
        items.push(fil[slot].clone());
        k = k + 1;
    }
    proof {
        assert(items@ =~= skylanders_items(
            skylanders@,
            states@,
            search_query@,
            filter_by,
            sort_by,
        ));
    }
    Page { items, total, total_pages: 1, page: 0 }
}

/// The caller-held list state behind one paginated tab: the current page
/// index, and the search text and console selection it was computed
/// against. This replaces process-wide mutable state with an explicit
/// field the caller passes in.
pub struct ListSelection {
    pub page: usize,
    pub last_search: String,
    pub last_selected: String,
}

impl ListSelection {
    /// Fresh state: first page, nothing remembered.
    pub fn new() -> (r: Self)
        ensures
            r.page == 0,
            r.last_search@ == Seq::<char>::empty(),
            r.last_selected@ == Seq::<char>::empty(),
    {
        ListSelection { page: 0, last_search: String::new(), last_selected: String::new() }
    }

    /// Notes the search text and console selection of this frame: if
    /// either changed since the last frame, the page index resets to the
    /// first page; otherwise it stays.
    pub fn note_query(&mut self, search: &str, selected: &str)
        ensures
            final(self).last_search@ == search@,
            final(self).last_selected@ == selected@,
            (old(self).last_search@ != search@ || old(self).last_selected@ != selected@)
                ==> final(self).page == 0,
            (old(self).last_search@ == search@ && old(self).last_selected@ == selected@)
                ==> final(self).page == old(self).page,
    {
        let same = str_eq(self.last_search.as_str(), search) && str_eq(
            self.last_selected.as_str(),
            selected,
        );
        if !same {
            self.page = 0;
            self.last_search = search.to_owned();
            self.last_selected = selected.to_owned();
        }
    }

    /// Moves to the page the user picked.
    pub fn set_page(&mut self, page: usize)
        ensures
            final(self).page == page,
            final(self).last_search == old(self).last_search,
            final(self).last_selected == old(self).last_selected,
    {
        self.page = page;
    }
}

/// The console ids that occur among the games, each once, in ascending
/// lexicographic order: the choices of the games tab's console selector.
pub fn console_ids_of_games(games: &Vec<Game>) -> (r: Vec<String>)
    ensures
        forall|i: int, j: int|
            0 <= i < j < r@.len() ==> lex_lt((#[trigger] r@[i])@, (#[trigger] r@[j])@),
        forall|i: int|
            0 <= i < r@.len() ==> exists|g: int|
                0 <= g < games@.len() && (#[trigger] games@[g]).console_id@ == (#[trigger] r@[i])@,
        forall|g: int|
            0 <= g < games@.len() ==> exists|i: int|
                0 <= i < r@.len() && (#[trigger] r@[i])@ == (#[trigger] games@[g]).console_id@,
{
    let n = games.len();
    let mut ids: Vec<String> = Vec::new();
    let mut g: usize = 0;
    while g < n
        invariant
            n == games@.len(),
            g <= n,
            forall|i: int, j: int|
                0 <= i < j < ids@.len() ==> (#[trigger] ids@[i])@ != (#[trigger] ids@[j])@,
            forall|i: int|
                0 <= i < ids@.len() ==> exists|gx: int|
                    0 <= gx < n && (#[trigger] games@[gx]).console_id@ == (#[trigger] ids@[i])@,
            forall|gx: int|
                0 <= gx < g ==> exists|i: int|
                    0 <= i < ids@.len() && (#[trigger] ids@[i])@ == (
                    #[trigger] games@[gx]).console_id@,
        decreases n - g,
    {
        let cid = games[g].console_id.as_str();
        let m = ids.len();
        let mut i: usize = 0;
        let mut found: bool = false;
        while !found && i < m
            invariant
                m == ids@.len(),
                i <= m,
                cid@ == games@[g as int].console_id@,
                found ==> i < m && ids@[i as int]@ == cid@,
                forall|j: int| 0 <= j < i ==> (#[trigger] ids@[j])@ != cid@,
            decreases 2 * (m - i) + (if found {
                0int
            } else {
                1int
            }),
        {
            if str_eq(ids[i].as_str(), cid) {
                found = true;
            } else {
                i = i + 1;
            }
        }
        let ghost before = ids@;
        if !found {
            ids.push(cid.to_owned());
            proof {
                assert(ids@.drop_last() =~= before);
                assert(ids@.last()@ == cid@);
                assert forall|a: int, b: int|
                    0 <= a < b < ids@.len() implies (#[trigger] ids@[a])@ != (
                #[trigger] ids@[b])@ by {
                    assert(ids@[a] == before[a]);
                    if b < ids@.len() - 1 {
                        assert(ids@[b] == before[b]);
                    } else {
                        assert(ids@[b]@ == cid@);
                        assert(before[a]@ != cid@);
                    }
                };
                assert forall|i2: int|
                    0 <= i2 < ids@.len() implies exists|gx: int|
                    0 <= gx < n && (#[trigger] games@[gx]).console_id@ == (
                #[trigger] ids@[i2])@ by {
                    if i2 < ids@.len() - 1 {
                        assert(ids@[i2] == before[i2]);
                    } else {
                        assert(games@[g as int].console_id@ == ids@[i2]@);
                    }
                };
            }
        }
        proof {
            assert forall|gx: int|
                0 <= gx < g + 1 implies exists|i2: int|
                0 <= i2 < ids@.len() && (#[trigger] ids@[i2])@ == (
            #[trigger] games@[gx]).console_id@ by {
                if gx < g as int {
                    let iw = choose|i2: int|
                        0 <= i2 < before.len() && (#[trigger] before[i2])@ == (
                        #[trigger] games@[gx]).console_id@;
                    assert(ids@[iw] == before[iw]);
                    assert(ids@[iw]@ == games@[gx].console_id@);
                } else {
                    if found {
                        assert(ids@[i as int]@ == games@[gx].console_id@);
                    } else {
                        assert(ids@[ids@.len() - 1]@ == games@[gx].console_id@);
                    }
                }
            };
        }
        g = g + 1;
    }
    let ghost idsv = ids@;
    let total = ids.len();
    let mut rows: Vec<SortRow> = Vec::new();
    let mut k: usize = 0;
    while k < total
        invariant
            total == idsv.len(),
            ids@ == idsv,
            k <= total,
            rows@.len() == k,
            forall|j: int|
                0 <= j < k ==> key_of_row(#[trigger] rows@[j]) == (RowKey {
                    num: 0,
                    a: idsv[j]@,
                    b: Seq::<char>::empty(),
                    c: Seq::<char>::empty(),
                    slot: j,
                }),
        decreases total - k,
    {
        rows.push(SortRow {
            num: 0,
            a: ids[k].clone(),
            b: String::new(),
            c: String::new(),
            slot: k,
        });
        k = k + 1;
    }
    let ghost keys = keys_of(rows@);
    let sorted = sort_rows(rows);
    let ghost sk = sort_keys(keys);
    proof {
        lemma_sort_keys_multiset(keys);
        lemma_sort_keys_sorted(keys);
        assert(sorted@.len() == keys_of(sorted@).len());
        assert(sorted@.len() == total);
        assert forall|j2: int| 0 <= j2 < total implies 0 <= (#[trigger] sk[j2]).slot < total
            && sk[j2].num == 0 && sk[j2].a == idsv[sk[j2].slot]@ && sk[j2].b == Seq::<
            char,
        >::empty() && sk[j2].c == Seq::<char>::empty() by {
            lemma_sort_keys_element(keys, j2);
            let w = choose|w: int| 0 <= w < keys.len() && #[trigger] keys[w] == sk[j2];
        };
        // The sorted keys are pairwise distinct, so the strict order holds
        // between every pair of positions.
        assert(keys.no_duplicates()) by {
            assert forall|a: int, b: int|
                0 <= a < b < keys.len() implies keys[a] != keys[b] by {
                assert(keys[a].slot == a && keys[b].slot == b);
            };
        };
        keys.lemma_multiset_has_no_duplicates();
        sk.lemma_multiset_has_no_duplicates_conv();
        assert forall|a: int, b: int| 0 <= a < b < total implies lex_lt(
            (#[trigger] sk[a]).a,
            (#[trigger] sk[b]).a,
        ) by {
            assert(!key_lt(sk[b], sk[a]));
            assert(sk[a] != sk[b]);
            lemma_lex_trichotomy(sk[a].a, sk[b].a);
            if sk[a].a == sk[b].a {
                let sa = sk[a].slot;
                let sb = sk[b].slot;
                assert(idsv[sa]@ == sk[a].a && idsv[sb]@ == sk[b].a);
                if sa < sb {
                    assert(ids@[sa]@ != ids@[sb]@);
                } else if sb < sa {
                    assert(ids@[sb]@ != ids@[sa]@);
                } else {
                    assert(sk[a] == sk[b]);
                }
                assert(false);
            }
        };
    }
    let mut out: Vec<String> = Vec::new();
    let mut j: usize = 0;
    while j < total
        invariant
            total == idsv.len(),
            ids@ == idsv,
            sorted@.len() == total,
            keys_of(sorted@) == sk,
            sk.len() == total,
            forall|j2: int| 0 <= j2 < total ==> 0 <= (#[trigger] sk[j2]).slot < total && sk[j2].a
                == idsv[sk[j2].slot]@,
            j <= total,
            out@.len() == j,
            forall|j2: int| 0 <= j2 < j ==> (#[trigger] out@[j2])@ == sk[j2].a,
        decreases total - j,
    {
        proof {
            assert(key_of_row(sorted@[j as int]) == sk[j as int]);
        }
        let slot = sorted[j].slot;
        out.push(ids[slot].clone());
        j = j + 1;
    }
    proof {
        assert forall|a: int, b: int| 0 <= a < b < out@.len() implies lex_lt(
            (#[trigger] out@[a])@,
            (#[trigger] out@[b])@,
        ) by {
            assert(out@[a]@ == sk[a].a && out@[b]@ == sk[b].a);
            assert(lex_lt((sk[a]).a, (sk[b]).a));
        };
        assert forall|i2: int|
            0 <= i2 < out@.len() implies exists|g2: int|
            0 <= g2 < games@.len() && (#[trigger] games@[g2]).console_id@ == (
        #[trigger] out@[i2])@ by {
            assert(out@[i2]@ == idsv[sk[i2].slot]@);
        };
        assert forall|g2: int|
            0 <= g2 < games@.len() implies exists|i2: int|
            0 <= i2 < out@.len() && (#[trigger] out@[i2])@ == (
        #[trigger] games@[g2]).console_id@ by {
            let iw = choose|i2: int|
                0 <= i2 < idsv.len() && (#[trigger] idsv[i2])@ == (
                #[trigger] games@[g2]).console_id@;
            lemma_sort_keys_covers(keys, iw);
            let j2 = choose|j2: int| 0 <= j2 < sk.len() && #[trigger] sk[j2] == keys[iw];
            assert(keys[iw].slot == iw && keys[iw].a == idsv[iw]@);
            assert(out@[j2]@ == sk[j2].a);
            assert(out@[j2]@ == games@[g2].console_id@);
        };
    }
    out
}

/// The games page under no search, no console selection, the `All` filter
/// and the title sort.
pub open spec fn title_page(games: Seq<Game>, states: Map<Seq<char>, GameState>, p: int) -> Seq<
    Game,
> {
    games_page_items(
        games,
        states,
        "all"@,
        Seq::<char>::empty(),
        FilterOption::All,
        SortOption::Title,
        p,
    )
}

/// With an empty search query, every console selected and no status
/// filter, presenting by title shows the whole catalog: every page is
/// sorted by title ascending, every game appears on some page, and the
/// pages hold nothing but the catalog's games.
pub proof fn lemma_title_pages_show_all(games: Seq<Game>, states: Map<Seq<char>, GameState>)
    ensures
        games_filtered(games, states, "all"@, Seq::<char>::empty(), FilterOption::All) == games,
        forall|p: int, k1: int, k2: int| #![trigger title_page(games, states, p)[k1], title_page(games, states, p)[k2]]
            0 <= p < pages_of(games.len() as int, 50) && 0 <= k1 < k2 < title_page(
                games,
                states,
                p,
            ).len() ==> lex_le(
                title_page(games, states, p)[k1].title@,
                title_page(games, states, p)[k2].title@,
            ),
        forall|i: int| #![trigger games[i]]
            0 <= i < games.len() ==> exists|p: int, k: int|
                0 <= p < pages_of(games.len() as int, 50) && 0 <= k < title_page(
                    games,
                    states,
                    p,
                ).len() && #[trigger] title_page(games, states, p)[k] == games[i],
        forall|p: int, k: int|
            0 <= p < pages_of(games.len() as int, 50) && 0 <= k < title_page(
                games,
                states,
                p,
            ).len() ==> exists|i: int|
                0 <= i < games.len() && games[i] == #[trigger] title_page(games, states, p)[k],
{
    let sel = "all"@;
    let q = Seq::<char>::empty();
    let f = FilterOption::All;
    let sort = SortOption::Title;
    let pred = |g: Game| game_passes(g, states, sel, q, f);
    assert forall|i: int| 0 <= i < games.len() implies pred(#[trigger] games[i]) by {
        assert(field_matches(games[i].title@, q));
    };
    crate::seq_util::lemma_filter_of_all(games, pred);
    let fil = games_filtered(games, states, sel, q, f);
    assert(fil == games);
    let keys = games_keys(fil, states, sort);
    let sorted = sort_keys(keys);
    let total = games.len() as int;
    let tp = pages_of(total, 50);
    lemma_sort_keys_multiset(keys);
    lemma_sort_keys_sorted(keys);
    assert(sorted.len() == total);
    // Each position of the sorted key sequence carries a title and a slot
    // of the catalog.
    assert forall|j: int| 0 <= j < total implies 0 <= (#[trigger] sorted[j]).slot < total
        && sorted[j].num == 0 && sorted[j].a == fil[sorted[j].slot].title@ by {
        lemma_sort_keys_element(keys, j);
        let w = choose|w: int| 0 <= w < keys.len() && #[trigger] keys[w] == sorted[j];
        assert(keys[w] == game_key(fil[w], states, sort, w));
    };
    // Page structure: page p covers global positions p * 50 .. end.
    assert forall|p: int| 0 <= p < tp implies title_page(games, states, p) == Seq::new(
        ((if p * 50 + 50 <= total {
            p * 50 + 50
        } else {
            total
        }) - p * 50) as nat,
        |k: int| fil[sorted[p * 50 + k].slot],
    ) && p * 50 <= total by {
        assert(effective_page(p, tp) == p);
        if total > 0 {
            assert(50 * ((total + 49) / 50) <= total + 49);
            assert((tp - 1) * 50 < total);
            assert(p * 50 <= (tp - 1) * 50) by (nonlinear_arith)
                requires
                    p <= tp - 1,
            ;
        }
    };
    assert forall|p: int, k1: int, k2: int| #![trigger title_page(games, states, p)[k1], title_page(games, states, p)[k2]]
        0 <= p < tp && 0 <= k1 < k2 < title_page(games, states, p).len() implies lex_le(
        title_page(games, states, p)[k1].title@,
        title_page(games, states, p)[k2].title@,
    ) by {
        let j1 = p * 50 + k1;
        let j2 = p * 50 + k2;
        assert(title_page(games, states, p).len() <= 50);
        assert(j2 < total);
        assert(!key_lt(sorted[j2], sorted[j1]));
        let a1 = sorted[j1].a;
        let a2 = sorted[j2].a;
        lemma_lex_trichotomy(a1, a2);
        assert(lex_le(a1, a2));
        assert(title_page(games, states, p)[k1].title@ == a1);
        assert(title_page(games, states, p)[k2].title@ == a2);
    };
    assert forall|i: int| #![trigger games[i]] 0 <= i < games.len() implies exists|p: int, k: int|
        0 <= p < tp && 0 <= k < title_page(games, states, p).len() && #[trigger] title_page(
            games,
            states,
            p,
        )[k] == games[i] by {
        lemma_sort_keys_covers(keys, i);
        let j = choose|j: int| 0 <= j < sorted.len() && #[trigger] sorted[j] == keys[i];
        assert(keys[i] == game_key(fil[i], states, sort, i));
        assert(sorted[j].slot == i);
        let p = j / 50;
        let k = j % 50;
        assert(j == p * 50 + k && 0 <= k < 50);
        assert(0 <= p) by (nonlinear_arith)
            requires
                j >= 0,
                p == j / 50,
        ;
        assert(p < tp) by {
            assert(total > 0);
            assert(50 * tp >= total) by {
                assert(50 * ((total + 49) / 50) >= total + 49 - 49);
            };
            assert(p * 50 + k == j < total <= 50 * tp);
            assert(p < tp) by (nonlinear_arith)
                requires
                    p * 50 + k < 50 * tp,
                    0 <= k < 50,
            ;
        };
        assert(0 <= k < title_page(games, states, p).len());
        assert(title_page(games, states, p)[k] == fil[sorted[j].slot]);
        assert(title_page(games, states, p)[k] == games[i]);
    };
    assert forall|p: int, k: int|
        0 <= p < tp && 0 <= k < title_page(games, states, p).len() implies exists|i: int|
        0 <= i < games.len() && games[i] == #[trigger] title_page(games, states, p)[k] by {
        let j = p * 50 + k;
        assert(j < total);
        let slot = sorted[j].slot;
        assert(title_page(games, states, p)[k] == fil[slot]);
        assert(games[slot] == title_page(games, states, p)[k]);
    };
}

/// With pairwise distinct game ids — the catalog invariant that
/// `dedup_games_by_id` establishes — no game is repeated across the title
/// pages: two distinct page positions always show different ids, so with
/// the coverage above every game appears exactly once.
pub proof fn lemma_title_pages_each_game_once(
    games: Seq<Game>,
    states: Map<Seq<char>, GameState>,
    p1: int,
    k1: int,
    p2: int,
    k2: int,
)
    requires
        forall|i: int, j: int|
            0 <= i < j < games.len() ==> (#[trigger] games[i]).id@ != (#[trigger] games[j]).id@,
        0 <= p1 < pages_of(games.len() as int, 50),
        0 <= k1 < title_page(games, states, p1).len(),
        0 <= p2 < pages_of(games.len() as int, 50),
        0 <= k2 < title_page(games, states, p2).len(),
        p1 != p2 || k1 != k2,
    ensures
        title_page(games, states, p1)[k1].id@ != title_page(games, states, p2)[k2].id@,
{
    let sel = "all"@;
    let q = Seq::<char>::empty();
    let f = FilterOption::All;
    let sort = SortOption::Title;
    let pred = |g: Game| game_passes(g, states, sel, q, f);
    assert forall|i: int| 0 <= i < games.len() implies pred(#[trigger] games[i]) by {
        assert(field_matches(games[i].title@, q));
    };
    crate::seq_util::lemma_filter_of_all(games, pred);
    let fil = games_filtered(games, states, sel, q, f);
    assert(fil == games);
    let keys = games_keys(fil, states, sort);
    let sorted = sort_keys(keys);
    let total = games.len() as int;
    let tp = pages_of(total, 50);
    lemma_sort_keys_multiset(keys);
    assert(sorted.len() == total);
    assert forall|j: int| 0 <= j < total implies 0 <= (#[trigger] sorted[j]).slot < total
        && sorted[j].num == 0 && sorted[j].a == fil[sorted[j].slot].title@ && sorted[j].b == Seq::<
        char,
    >::empty() && sorted[j].c == Seq::<char>::empty() by {
        lemma_sort_keys_element(keys, j);
        let w = choose|w: int| 0 <= w < keys.len() && #[trigger] keys[w] == sorted[j];
        assert(keys[w] == game_key(fil[w], states, sort, w));
    };
    assert(keys.no_duplicates()) by {
        assert forall|a: int, b: int| 0 <= a < b < keys.len() implies keys[a] != keys[b] by {
            assert(keys[a].slot == a && keys[b].slot == b);
        };
    };
    keys.lemma_multiset_has_no_duplicates();
    sorted.lemma_multiset_has_no_duplicates_conv();
    assert forall|p: int| 0 <= p < tp implies title_page(games, states, p) == Seq::new(
        ((if p * 50 + 50 <= total {
            p * 50 + 50
        } else {
            total
        }) - p * 50) as nat,
        |k: int| fil[sorted[p * 50 + k].slot],
    ) && p * 50 <= total by {
        assert(effective_page(p, tp) == p);
        if total > 0 {
            assert(50 * ((total + 49) / 50) <= total + 49);
            assert((tp - 1) * 50 < total);
            assert(p * 50 <= (tp - 1) * 50) by (nonlinear_arith)
                requires
                    p <= tp - 1,
            ;
        }
    };
    let j1 = p1 * 50 + k1;
    let j2 = p2 * 50 + k2;
    assert(title_page(games, states, p1).len() <= 50);
    assert(title_page(games, states, p2).len() <= 50);
    assert(j1 < total && j2 < total);
    assert(j1 != j2) by {
        if p1 < p2 {
            assert((p1 + 1) * 50 <= p2 * 50) by (nonlinear_arith)
                requires
                    p1 + 1 <= p2,
            ;
        } else if p2 < p1 {
            assert((p2 + 1) * 50 <= p1 * 50) by (nonlinear_arith)
                requires
                    p2 + 1 <= p1,
            ;
        }
    };
    assert(sorted[j1] != sorted[j2]);
    let s1 = sorted[j1].slot;
    let s2 = sorted[j2].slot;
    assert(s1 != s2) by {
        if s1 == s2 {
            assert(sorted[j1] == sorted[j2]);
        }
    };
    assert(title_page(games, states, p1)[k1] == fil[s1]);
    assert(title_page(games, states, p2)[k2] == fil[s2]);
    assert(games[s1].id@ != games[s2].id@);
}

/// The consoles page under no search, the `All` filter and the title
/// sort.
pub open spec fn console_title_page(
    consoles: Seq<Console>,
    states: Map<Seq<char>, ConsoleState>,
    p: int,
) -> Seq<Console> {
    consoles_page_items(
        consoles,
        states,
        Seq::<char>::empty(),
        FilterOption::All,
        SortOption::Title,
        p,
    )
}

/// The console analogue: with an empty search query and no status filter,
/// presenting by title shows the whole console catalog, each page sorted
/// by name ascending.
pub proof fn lemma_console_title_pages_show_all(
    consoles: Seq<Console>,
    states: Map<Seq<char>, ConsoleState>,
)
    ensures
        consoles_filtered(consoles, states, Seq::<char>::empty(), FilterOption::All) == consoles,
        forall|p: int, k1: int, k2: int| #![trigger console_title_page(consoles, states, p)[k1], console_title_page(consoles, states, p)[k2]]
            0 <= p < pages_of(consoles.len() as int, 20) && 0 <= k1 < k2 < console_title_page(
                consoles,
                states,
                p,
            ).len() ==> lex_le(
                console_title_page(consoles, states, p)[k1].name@,
                console_title_page(consoles, states, p)[k2].name@,
            ),
        forall|i: int| #![trigger consoles[i]]
            0 <= i < consoles.len() ==> exists|p: int, k: int|
                0 <= p < pages_of(consoles.len() as int, 20) && 0 <= k < console_title_page(
                    consoles,
                    states,
                    p,
                ).len() && #[trigger] console_title_page(consoles, states, p)[k] == consoles[i],
        forall|p: int, k: int|
            0 <= p < pages_of(consoles.len() as int, 20) && 0 <= k < console_title_page(
                consoles,
                states,
                p,
            ).len() ==> exists|i: int|
                0 <= i < consoles.len() && consoles[i] == #[trigger] console_title_page(
                    consoles,
                    states,
                    p,
                )[k],
{
    let q = Seq::<char>::empty();
    let f = FilterOption::All;
    let sort = SortOption::Title;
    let pred = |c: Console| console_passes(c, states, q, f);
    assert forall|i: int| 0 <= i < consoles.len() implies pred(#[trigger] consoles[i]) by {
        assert(field_matches(consoles[i].name@, q));
    };
    crate::seq_util::lemma_filter_of_all(consoles, pred);
    let fil = consoles_filtered(consoles, states, q, f);
    assert(fil == consoles);
    let keys = consoles_keys(fil, states, sort);
    let sorted = sort_keys(keys);
    let total = consoles.len() as int;
    let tp = pages_of(total, 20);
    lemma_sort_keys_multiset(keys);
    lemma_sort_keys_sorted(keys);
    assert(sorted.len() == total);
    assert forall|j: int| 0 <= j < total implies 0 <= (#[trigger] sorted[j]).slot < total
        && sorted[j].num == 0 && sorted[j].a == fil[sorted[j].slot].name@ by {
        lemma_sort_keys_element(keys, j);
        let w = choose|w: int| 0 <= w < keys.len() && #[trigger] keys[w] == sorted[j];
        assert(keys[w] == console_key(fil[w], states, sort, w));
    };
    assert forall|p: int| 0 <= p < tp implies console_title_page(consoles, states, p) == Seq::new(
        ((if p * 20 + 20 <= total {
            p * 20 + 20
        } else {
            total
        }) - p * 20) as nat,
        |k: int| fil[sorted[p * 20 + k].slot],
    ) && p * 20 <= total by {
        assert(effective_page(p, tp) == p);
        if total > 0 {
            assert(20 * ((total + 19) / 20) <= total + 19);
            assert((tp - 1) * 20 < total);
            assert(p * 20 <= (tp - 1) * 20) by (nonlinear_arith)
                requires
                    p <= tp - 1,
            ;
        }
    };
    assert forall|p: int, k1: int, k2: int| #![trigger console_title_page(consoles, states, p)[k1], console_title_page(consoles, states, p)[k2]]
        0 <= p < tp && 0 <= k1 < k2 < console_title_page(consoles, states, p).len() implies lex_le(
        console_title_page(consoles, states, p)[k1].name@,
        console_title_page(consoles, states, p)[k2].name@,
    ) by {
        let j1 = p * 20 + k1;
        let j2 = p * 20 + k2;
        assert(console_title_page(consoles, states, p).len() <= 20);
        assert(j2 < total);
        assert(!key_lt(sorted[j2], sorted[j1]));
        let a1 = sorted[j1].a;
        let a2 = sorted[j2].a;
        lemma_lex_trichotomy(a1, a2);
        assert(lex_le(a1, a2));
        assert(console_title_page(consoles, states, p)[k1].name@ == a1);
        assert(console_title_page(consoles, states, p)[k2].name@ == a2);
    };
    assert forall|i: int| #![trigger consoles[i]] 0 <= i < consoles.len() implies exists|
        p: int,
        k: int,
    |
        0 <= p < tp && 0 <= k < console_title_page(consoles, states, p).len()
            && #[trigger] console_title_page(consoles, states, p)[k] == consoles[i] by {
        lemma_sort_keys_covers(keys, i);
        let j = choose|j: int| 0 <= j < sorted.len() && #[trigger] sorted[j] == keys[i];
        assert(keys[i] == console_key(fil[i], states, sort, i));
        assert(sorted[j].slot == i);
        let p = j / 20;
        let k = j % 20;
        assert(j == p * 20 + k && 0 <= k < 20);
        assert(0 <= p) by (nonlinear_arith)
            requires
                j >= 0,
                p == j / 20,
        ;
        assert(p < tp) by {
            assert(total > 0);
            assert(20 * tp >= total) by {
                assert(20 * ((total + 19) / 20) >= total + 19 - 19);
            };
            assert(p * 20 + k == j < total <= 20 * tp);
            assert(p < tp) by (nonlinear_arith)
                requires
                    p * 20 + k < 20 * tp,
                    0 <= k < 20,
            ;
        };
        assert(0 <= k < console_title_page(consoles, states, p).len());
        assert(console_title_page(consoles, states, p)[k] == fil[sorted[j].slot]);
        assert(console_title_page(consoles, states, p)[k] == consoles[i]);
    };
    assert forall|p: int, k: int|
        0 <= p < tp && 0 <= k < console_title_page(consoles, states, p).len() implies exists|
        i: int,
    |
        0 <= i < consoles.len() && consoles[i] == #[trigger] console_title_page(
            consoles,
            states,
            p,
        )[k] by {
        let j = p * 20 + k;
        assert(j < total);
        let slot = sorted[j].slot;
        assert(console_title_page(consoles, states, p)[k] == fil[slot]);
        assert(consoles[slot] == console_title_page(consoles, states, p)[k]);
    };
}

} // verus!

//! Game catalog derivation: stable game identifiers (console id plus a
//! content hash of the title), release-year parsing, and the mapping from
//! catalog file names to console ids.

use vstd::prelude::*;
use vstd::string::StrSliceExecFns;
use vstd::string::StringExecFns;

use crate::model::Game;
use crate::text::str_eq;

verus! {

/// Index of the first `'-'` in `s`, or `s.len()` if there is none.
pub open spec fn first_hyphen(s: Seq<char>) -> int
    decreases s.len(),
{
    if s.len() == 0 {
        0
    } else if s[0] == '-' {
        0
    } else {
        1 + first_hyphen(s.drop_first())
    }
}

/// The characteristic properties of `first_hyphen`.
pub proof fn lemma_first_hyphen(s: Seq<char>)
    ensures
        0 <= first_hyphen(s) <= s.len(),
        first_hyphen(s) < s.len() ==> s[first_hyphen(s)] == '-',
        forall|j: int| 0 <= j < first_hyphen(s) ==> s[j] != '-',
    decreases s.len(),
{
    if s.len() == 0 {
    } else if s[0] == '-' {
    } else {
        lemma_first_hyphen(s.drop_first());
        assert forall|j: int| 0 <= j < first_hyphen(s) implies s[j] != '-' by {
            if j > 0 {
                assert(s[j] == s.drop_first()[j - 1]);
            }
        };
    }
}

/// A position with no hyphen before it, and a hyphen at it (or the end of
/// the sequence, if it has no hyphen at all), is the first hyphen.
pub proof fn lemma_first_hyphen_at(s: Seq<char>, k: int)
    requires
        0 <= k <= s.len(),
        forall|j: int| 0 <= j < k ==> s[j] != '-',
        k < s.len() ==> s[k] == '-',
    ensures
        first_hyphen(s) == k,
    decreases s.len(),
{
    if s.len() == 0 {
    } else if s[0] == '-' {
        assert(k == 0);
    } else {
        assert(k >= 1) by {
            assert(0 < s.len() ==> s[0] != '-' ==> k != 0);
        };
        assert(forall|j: int| 0 <= j < k - 1 ==> s.drop_first()[j] == s[j + 1]);
        if k - 1 < s.drop_first().len() {
            assert(s.drop_first()[k - 1] == s[k]);
        }
        lemma_first_hyphen_at(s.drop_first(), k - 1);
    }
}

/// The console-id prefix of a stable game id: everything before the first
/// `'-'`, or the whole id if it has none.
pub fn get_console_from_id<'a>(game_id: &'a str) -> (r: &'a str)
    ensures
        r@ == game_id@.take(first_hyphen(game_id@)),
{
    let n: usize = game_id.unicode_len();
    let mut i: usize = 0;
    let mut stop: bool = false;
    while !stop && i < n
        invariant
            i <= n,
            n == game_id@.len(),
            forall|j: int| 0 <= j < i ==> game_id@[j] != '-',
            stop ==> i < n && game_id@[i as int] == '-',
        decreases 2 * (n - i) + (if stop {
            0int
        } else {
            1int
        }),
    {
        if game_id.get_char(i) == '-' {
            stop = true;
        } else {
            i = i + 1;
        }
    }
    proof {
        lemma_first_hyphen_at(game_id@, i as int);
        assert(game_id@.subrange(0, i as int) =~= game_id@.take(i as int));
    }
    game_id.substring_char(0, i)
}

/// A decimal digit.
pub open spec fn is_digit(c: char) -> bool {
    '0' <= c && c <= '9'
}

/// Numeric value of a decimal digit.
pub open spec fn digit_val(c: char) -> int {
    (c as int) - 48
}

/// All characters of `s` are decimal digits.
pub open spec fn all_digits(s: Seq<char>) -> bool {
    forall|i: int| 0 <= i < s.len() ==> is_digit(s[i])
}

/// Value of a decimal digit string, most significant digit first.
pub open spec fn dec_val(s: Seq<char>) -> int
    decreases s.len(),
{
    if s.len() == 0 {
        0
    } else {
        dec_val(s.drop_last()) * 10 + digit_val(s.last())
    }
}

proof fn lemma_dec_val_nonneg(s: Seq<char>)
    requires
        all_digits(s),
    ensures
        dec_val(s) >= 0,
    decreases s.len(),
{
    if s.len() > 0 {
        assert(all_digits(s.drop_last()));
        lemma_dec_val_nonneg(s.drop_last());
    }
}

proof fn lemma_dec_val_mono(s: Seq<char>, k: int)
    requires
        all_digits(s),
        0 <= k <= s.len(),
    ensures
        dec_val(s) >= dec_val(s.take(k)),
    decreases s.len() - k,
{
    if k == s.len() {
        assert(s.take(k) =~= s);
    } else {
        assert(all_digits(s.drop_last()));
        assert(s.drop_last().take(k) =~= s.take(k));
        lemma_dec_val_mono(s.drop_last(), k);
        lemma_dec_val_nonneg(s.drop_last());
    }
}

/// The digit part of the segment before the first `'-'`: one leading
/// `'+'` sign, if present, is accepted and dropped.
pub open spec fn year_digits(s: Seq<char>) -> Seq<char> {
    let seg = s.take(first_hyphen(s));
    if seg.len() > 0 && seg[0] == '+' {
        seg.drop_first()
    } else {
        seg
    }
}

/// The year encoded by a date string: the value of the digit segment
/// before the first `'-'`, with an optional leading `'+'`. A missing,
/// non-numeric, or out-of-range segment counts as year 0.
pub open spec fn year_of_date(s: Seq<char>) -> int {
    let digits = year_digits(s);
    if digits.len() > 0 && all_digits(digits) && dec_val(digits) <= u32::MAX {
        dec_val(digits)
    } else {
        0
    }
}

/// Parses the leading year out of an ISO-style date string such as
/// `"1996-03-31"`. Unparsable or missing years normalize to 0.
pub fn parse_year_from_iso_date(date_str: &str) -> (r: u32)
    ensures
        r == year_of_date(date_str@),
{
    let ghost s = date_str@;
    let n: usize = date_str.unicode_len();
    let mut start: usize = 0;
    if n > 0 {
        if date_str.get_char(0) == '+' {
            start = 1;
        }
    }
    let mut i: usize = start;
    let mut stop: bool = false;
    let mut acc: u64 = 0;
    proof {
        assert(s.subrange(start as int, start as int) =~= Seq::<char>::empty());
    }
    while !stop && i < n
        invariant
            start <= i <= n,
            start <= 1,
            n == s.len(),
            s == date_str@,
            start == 1 ==> n > 0 && s[0] == '+',
            start == 0 ==> n == 0 || s[0] != '+',
            forall|j: int| start <= j < i ==> s[j] != '-' && is_digit(s[j]),
            stop ==> i < n && s[i as int] == '-',
            acc == dec_val(s.subrange(start as int, i as int)),
            acc <= u32::MAX,
        decreases 2 * (n - i) + (if stop {
            0int
        } else {
            1int
        }),
    {
        let c = date_str.get_char(i);
        if c == '-' {
            stop = true;
        } else {
            proof {
                lemma_first_hyphen(s);
                assert(forall|j: int| 0 <= j <= i ==> s[j] != '-');
                if first_hyphen(s) <= i {
                    assert(s[first_hyphen(s)] == '-');
                }
                assert(i < first_hyphen(s));
            }
            if !(c >= '0' && c <= '9') {
                proof {
                    let seg = s.take(first_hyphen(s));
                    assert(seg[i as int] == s[i as int]);
                    assert(year_digits(s)[i - start] == s[i as int]);
                    assert(!is_digit(year_digits(s)[i - start]));
                }
                return 0;
            }
            let d: u64 = ((c as u32) - 48) as u64;
            let next: u64 = acc * 10 + d;
            proof {
                let t = s.subrange(start as int, i + 1);
                assert(t.drop_last() =~= s.subrange(start as int, i as int));
                assert(t.last() == s[i as int]);
            }
            if next > 0xFFFF_FFFF {
                proof {
                    let digits = year_digits(s);
                    if all_digits(digits) {
                        lemma_dec_val_mono(digits, i + 1 - start);
                        assert(digits.take(i + 1 - start) =~= s.subrange(start as int, i + 1));
                    }
                }
                return 0;
            }
            acc = next;
            i = i + 1;
        }
    }
    proof {
        assert(forall|j: int| 0 <= j < i ==> s[j] != '-');
        lemma_first_hyphen_at(s, i as int);
        assert(year_digits(s) =~= s.subrange(start as int, i as int));
    }
    if i == start {
        return 0;
    }
    proof {
        assert(forall|j: int|
            0 <= j < year_digits(s).len() ==> is_digit(#[trigger] year_digits(s)[j]));
    }
    acc as u32
}

/// FNV-1a offset basis (64-bit).
pub const FNV_OFFSET: u64 = 0xcbf2_9ce4_8422_2325;

/// FNV-1a prime (64-bit).
pub const FNV_PRIME: u64 = 0x0000_0100_0000_01b3;

/// Separator folded between the two hashed fields; above every code point,
/// so no pair of strings can collide with a shifted pair.
pub const FIELD_SEP: u64 = 0x0011_0000;

/// One FNV-1a round: fold one input unit into the running hash.
pub open spec fn fnv_step(h: u64, unit: u64) -> u64 {
    (h ^ unit).wrapping_mul(FNV_PRIME)
}

/// FNV-1a over a character sequence, one round per code point.
pub open spec fn fnv_chars(h: u64, s: Seq<char>) -> u64
    decreases s.len(),
{
    if s.len() == 0 {
        h
    } else {
        fnv_chars(fnv_step(h, s[0] as u64), s.drop_first())
    }
}

/// The content hash behind a stable game id: console id, a field
/// separator, then the title.
pub open spec fn stable_hash(console_id: Seq<char>, title: Seq<char>) -> u64 {
    fnv_chars(fnv_step(fnv_chars(FNV_OFFSET, console_id), FIELD_SEP), title)
}

fn fnv_feed(h0: u64, s: &str) -> (r: u64)
    ensures
        r == fnv_chars(h0, s@),
{
    let n: usize = s.unicode_len();
    let mut h: u64 = h0;
    let mut i: usize = 0;
    proof {
        assert(s@.skip(0) =~= s@);
    }
    while i < n
        invariant
            i <= n,
            n == s@.len(),
            fnv_chars(h, s@.skip(i as int)) == fnv_chars(h0, s@),
        decreases n - i,
    {
        let c = s.get_char(i);
        proof {
            let rest = s@.skip(i as int);
            assert(rest[0] == s@[i as int]);
            assert(rest.drop_first() =~= s@.skip(i + 1));
        }
        h = (h ^ (c as u64)).wrapping_mul(FNV_PRIME);
        i = i + 1;
    }
    h
}

/// Hexadecimal digit for a value below 16, lower case.
pub open spec fn hex_digit(d: int) -> char {
    if d < 10 {
        (48 + d) as char
    } else {
        (87 + d) as char
    }
}

/// Lower-case hexadecimal rendering of `n`, without leading zeros
/// (`0` renders as `"0"`).
pub open spec fn hex_str(n: int) -> Seq<char>
    decreases n,
{
    if n < 16 {
        seq![hex_digit(n)]
    } else {
        hex_str(n / 16).push(hex_digit(n % 16))
    }
}

fn hex_digit_lit(d: u64) -> (r: &'static str)
    requires
        d < 16,
    ensures
        r@ == seq![hex_digit(d as int)],
{
    proof {
        reveal_strlit("0");
        reveal_strlit("1");
        reveal_strlit("2");
        reveal_strlit("3");
        reveal_strlit("4");
        reveal_strlit("5");
        reveal_strlit("6");
        reveal_strlit("7");
        reveal_strlit("8");
        reveal_strlit("9");
        reveal_strlit("a");
        reveal_strlit("b");
        reveal_strlit("c");
        reveal_strlit("d");
        reveal_strlit("e");
        reveal_strlit("f");
    }
    match d {
        0 => "0",
        1 => "1",
        2 => "2",
        3 => "3",
        4 => "4",
        5 => "5",
        6 => "6",
        7 => "7",
        8 => "8",
        9 => "9",
        10 => "a",
        11 => "b",
        12 => "c",
        13 => "d",
        14 => "e",
        _ => "f",
    }
}

fn u64_to_hex(n: u64) -> (s: String)
    ensures
        s@ == hex_str(n as int),
    decreases n,
{
    if n < 16 {
        hex_digit_lit(n).to_owned()
    } else {
        let mut s = u64_to_hex(n / 16);
        s.append(hex_digit_lit(n % 16));
        proof {
            assert(s@ =~= hex_str(n as int));
        }
        s
    }
}

/// The stable id of a game: the console id, a hyphen, then the content
/// hash of the title in hexadecimal.
pub open spec fn stable_id_seq(console_id: Seq<char>, title: Seq<char>) -> Seq<char> {
    console_id + seq!['-'] + hex_str(stable_hash(console_id, title) as int)
}

/// Derives the stable id under which a game's user state is keyed. The id
/// depends only on the console id and the title, so it survives catalog
/// reordering and edits to other fields.
pub fn generate_stable_id(console_id: &str, title: &str) -> (r: String)
    ensures
        r@ == stable_id_seq(console_id@, title@),
{
    let folded: u64 = (fnv_feed(FNV_OFFSET, console_id) ^ FIELD_SEP).wrapping_mul(FNV_PRIME);
    let h: u64 = fnv_feed(folded, title);
    let mut id = console_id.to_owned();
    id.append("-");
    let hex = u64_to_hex(h);
    id.append(hex.as_str());
    proof {
        reveal_strlit("-");
        assert("-"@ =~= seq!['-']);
        assert(id@ =~= stable_id_seq(console_id@, title@));
    }
    id
}

/// A hyphen-free console id is recovered exactly by `get_console_from_id`
/// from every stable id derived from it.
pub proof fn lemma_stable_id_prefix(console_id: Seq<char>, title: Seq<char>)
    requires
        forall|j: int| 0 <= j < console_id.len() ==> console_id[j] != '-',
    ensures
        first_hyphen(stable_id_seq(console_id, title)) == console_id.len(),
        stable_id_seq(console_id, title).take(console_id.len() as int) == console_id,
{
    let id = stable_id_seq(console_id, title);
    assert(forall|j: int| 0 <= j < console_id.len() ==> id[j] == console_id[j]);
    assert(id[console_id.len() as int] == '-');
    lemma_first_hyphen_at(id, console_id.len() as int);
    assert(id.take(console_id.len() as int) =~= console_id);
}

/// One record of an embedded game catalog file, before id derivation.
pub struct GameRecord {
    pub title: String,
    pub publisher: String,
    pub release_date: Option<String>,
}

/// How a catalog record becomes a game entry owned by `console_id`.
pub open spec fn is_game_of(console_id: Seq<char>, rec: GameRecord, g: Game) -> bool {
    &&& g.id@ == stable_id_seq(console_id, rec.title@)
    &&& g.title@ == rec.title@
    &&& g.publisher@ == rec.publisher@
    &&& g.console_id@ == console_id
    &&& g.year as int == (match rec.release_date {
        Some(d) => year_of_date(d@),
        None => 0,
    })
}

/// Builds the game entries of one console's catalog file: each record gets
/// its derived stable id and its parsed release year.
pub fn games_from_records(console_id: &str, records: &Vec<GameRecord>) -> (r: Vec<Game>)
    ensures
        r@.len() == records@.len(),
        forall|i: int| 0 <= i < r@.len() ==> is_game_of(console_id@, records@[i], #[trigger] r@[i]),
{
    let mut out: Vec<Game> = Vec::new();
    let mut k: usize = 0;
    while k < records.len()
        invariant
            k <= records@.len(),
            out@.len() == k,
            forall|i: int| 0 <= i < k ==> is_game_of(console_id@, records@[i], #[trigger] out@[i]),
        decreases records@.len() - k,
    {
        let rec = &records[k];
        let year: u32 = match &rec.release_date {
            Some(d) => parse_year_from_iso_date(d.as_str()),
            None => 0,
        };
        let id = generate_stable_id(console_id, rec.title.as_str());
        out.push(Game {
            id,
            title: rec.title.clone(),
            year,
            publisher: rec.publisher.clone(),
            console_id: console_id.to_owned(),
        });
        k = k + 1;
    }
    out
}

/// No two games share an id.
#[verifier::opaque]
pub open spec fn game_ids_distinct(r: Seq<Game>) -> bool {
    forall|i: int, j: int|
        0 <= i < j < r.len() ==> (#[trigger] r[i]).id@ != (#[trigger] r[j]).id@
}

/// Every entry of `r` is one of the first `upto` games.
#[verifier::opaque]
pub open spec fn game_entries_from(r: Seq<Game>, games: Seq<Game>, upto: int) -> bool {
    forall|a: int|
        0 <= a < r.len() ==> exists|g: int| 0 <= g < upto && #[trigger] r[a] == games[g]
}

/// Every id among the first `upto` games has an entry in `r`.
#[verifier::opaque]
pub open spec fn game_ids_covered(r: Seq<Game>, games: Seq<Game>, upto: int) -> bool {
    forall|g: int|
        0 <= g < upto ==> exists|a: int|
            0 <= a < r.len() && (#[trigger] r[a]).id@ == (#[trigger] games[g]).id@
}

/// The last game with each id among the first `upto` is present in `r`
/// whole: a later record fully replaces an earlier one with the same id.
#[verifier::opaque]
pub open spec fn game_last_wins(r: Seq<Game>, games: Seq<Game>, upto: int) -> bool {
    forall|g: int|
        0 <= g < upto && (forall|g2: int|
            g < g2 < upto ==> (#[trigger] games[g2]).id@ != games[g].id@) ==> exists|a: int|
            0 <= a < r.len() && #[trigger] r[a] == (#[trigger] games[g])
}

/// Collapses an aggregated game list to one entry per id, the later entry
/// winning - the list behaves like a map keyed by id. The catalog handed
/// to the presentation engine then satisfies the invariant that entity
/// ids are unique within their kind.
#[verifier::rlimit(80)]
pub fn dedup_games_by_id(games: &Vec<Game>) -> (r: Vec<Game>)
    ensures
        game_ids_distinct(r@),
        game_entries_from(r@, games@, games@.len() as int),
        game_ids_covered(r@, games@, games@.len() as int),
        game_last_wins(r@, games@, games@.len() as int),
{
    let n = games.len();
    let mut out: Vec<Game> = Vec::new();
    let mut g: usize = 0;
    proof {
        reveal(game_ids_distinct);
        reveal(game_entries_from);
        reveal(game_ids_covered);
        reveal(game_last_wins);
        assert(game_ids_distinct(out@));
        assert(game_entries_from(out@, games@, 0));
        assert(game_ids_covered(out@, games@, 0));
        assert(game_last_wins(out@, games@, 0));
    }
    while g < n
        invariant
            n == games@.len(),
            g <= n,
            game_ids_distinct(out@),
            game_entries_from(out@, games@, g as int),
            game_ids_covered(out@, games@, g as int),
            game_last_wins(out@, games@, g as int),
        decreases n - g,
    {
        let cur = &games[g];
        let m = out.len();
        let mut idx: usize = 0;
        let mut found: bool = false;
        while !found && idx < m
            invariant
                m == out@.len(),
                idx <= m,
                cur == &games@[g as int],
                found ==> idx < m && out@[idx as int].id@ == cur.id@,
                forall|j: int| 0 <= j < idx ==> (#[trigger] out@[j]).id@ != cur.id@,
            decreases 2 * (m - idx) + (if found {
                0int
            } else {
                1int
            }),
        {
            if str_eq(out[idx].id.as_str(), cur.id.as_str()) {
                found = true;
            } else {
                idx = idx + 1;
            }
        }
        let ghost before = out@;
        if found {
            out.remove(idx);
            out.insert(idx, cur.clone());
            proof {
                assert(out@ =~= before.update(idx as int, games@[g as int]));
            }
        } else {
            out.push(cur.clone());
            proof {
                assert(out@.drop_last() =~= before);
                assert(out@.last() == games@[g as int]);
            }
        }
        proof {
            assert(game_ids_distinct(out@)) by {
                reveal(game_ids_distinct);
                assert forall|a: int, b: int|
                    0 <= a < b < out@.len() implies (#[trigger] out@[a]).id@ != (
                #[trigger] out@[b]).id@ by {
                    if found {
                        assert(out@[a].id@ == before[a].id@);
                        assert(out@[b].id@ == before[b].id@);
                    } else {
                        assert(out@[a] == before[a]);
                        if b < out@.len() - 1 {
                            assert(out@[b] == before[b]);
                        } else {
                            assert(out@[b].id@ == games@[g as int].id@);
                            assert(before[a].id@ != games@[g as int].id@);
                        }
                    }
                };
            };
            assert(game_entries_from(out@, games@, g + 1)) by {
                reveal(game_entries_from);
                assert forall|a: int|
                    0 <= a < out@.len() implies exists|g2: int|
                    0 <= g2 < g + 1 && #[trigger] out@[a] == games@[g2] by {
                    if (found && a == idx as int) || (!found && a == out@.len() - 1) {
                        assert(out@[a] == games@[g as int]);
                    } else {
                        assert(out@[a] == before[a]);
                        let gw = choose|g2: int| 0 <= g2 < g && #[trigger] before[a] == games@[g2];
                        assert(out@[a] == games@[gw]);
                    }
                };
            };
            assert(game_ids_covered(out@, games@, g + 1)) by {
                reveal(game_ids_covered);
                assert forall|g2: int|
                    0 <= g2 < g + 1 implies exists|a: int|
                    0 <= a < out@.len() && (#[trigger] out@[a]).id@ == (
                #[trigger] games@[g2]).id@ by {
                    if g2 == g as int {
                        if found {
                            assert(out@[idx as int].id@ == games@[g2].id@);
                        } else {
                            assert(out@[out@.len() - 1].id@ == games@[g2].id@);
                        }
                    } else {
                        let aw = choose|a: int|
                            0 <= a < before.len() && (#[trigger] before[a]).id@ == (
                            #[trigger] games@[g2]).id@;
                        if found {
                            assert(out@[aw].id@ == before[aw].id@);
                        } else {
                            assert(out@[aw] == before[aw]);
                        }
                        assert(out@[aw].id@ == games@[g2].id@);
                    }
                };
            };
            assert(game_last_wins(out@, games@, g + 1)) by {
                reveal(game_last_wins);
                assert forall|g2: int|
                    0 <= g2 < g + 1 && (forall|g3: int|
                        g2 < g3 < g + 1 ==> (#[trigger] games@[g3]).id@ != games@[g2].id@) implies
                    exists|a: int|
                    0 <= a < out@.len() && #[trigger] out@[a] == (#[trigger] games@[g2]) by {
                    if g2 == g as int {
                        if found {
                            assert(out@[idx as int] == games@[g2]);
                        } else {
                            assert(out@[out@.len() - 1] == games@[g2]);
                        }
                    } else {
                        assert(games@[g as int].id@ != games@[g2].id@);
                        assert(forall|g3: int|
                            g2 < g3 < g ==> (#[trigger] games@[g3]).id@ != games@[g2].id@);
                        let aw = choose|a: int|
                            0 <= a < before.len() && #[trigger] before[a] == (
                            #[trigger] games@[g2]);
                        if found {
                            assert(before[idx as int].id@ == games@[g as int].id@);
                            assert(before[aw].id@ == games@[g2].id@);
                            assert(aw != idx as int);
                            assert(out@[aw] == before[aw]);
                        } else {
                            assert(out@[aw] == before[aw]);
                        }
                        assert(out@[aw] == games@[g2]);
                    }
                };
            };
        }
        g = g + 1;
    }
    out
}

/// The mapping from a catalog file's stem to the console id it covers:
/// a handful of long-form names map to short ids, anything else is already
/// the console id.
pub open spec fn console_id_for_filename(f: Seq<char>) -> Seq<char> {
    if f == "gameboy"@ {
        "gb"@
    } else if f == "gameboycolor"@ {
        "gbc"@
    } else if f == "gameboyadvance"@ {
        "gba"@
    } else if f == "nintendods"@ {
        "ds"@
    } else if f == "nintendo3ds"@ {
        "3ds"@
    } else if f == "playstation"@ {
        "ps1"@
    } else if f == "playstation2"@ {
        "ps2"@
    } else if f == "playstation3"@ {
        "ps3"@
    } else {
        f
    }
}

/// Maps a catalog file stem to the console id its games belong to.
pub fn map_filename_to_console_id<'a>(filename: &'a str) -> (r: Option<&'a str>)
    ensures
        r is Some,
        r->0@ == console_id_for_filename(filename@),
{
    if str_eq(filename, "gameboy") {
        Some("gb")
    } else if str_eq(filename, "gameboycolor") {
        Some("gbc")
    } else if str_eq(filename, "gameboyadvance") {
        Some("gba")
    } else if str_eq(filename, "nintendods") {
        Some("ds")
    } else if str_eq(filename, "nintendo3ds") {
        Some("3ds")
    } else if str_eq(filename, "playstation") {
        Some("ps1")
    } else if str_eq(filename, "playstation2") {
        Some("ps2")
    } else if str_eq(filename, "playstation3") {
        Some("ps3")
    } else {
        Some(filename)
    }
}

} // verus!

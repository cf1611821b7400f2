//! Character and string helpers: search-query matching through the named
//! Unicode lowercase mapping, verified substring search, ASCII case
//! folding for slugs, lexicographic comparison, and string equality, all
//! stated over `Seq<char>` views.

use vstd::prelude::*;
use vstd::string::StrSliceExecFns;

verus! {

/// ASCII case folding of one character: upper-case letters map to their
/// lower-case form, every other character is unchanged.
pub open spec fn lower_char_spec(c: char) -> char {
    if 'A' <= c && c <= 'Z' {
        ((c as u32) + 32) as char
    } else {
        c
    }
}

/// Folds one character to lower case (ASCII letters only).
pub fn lower_char(c: char) -> (r: char)
    ensures
        r == lower_char_spec(c),
{
    if 'A' <= c && c <= 'Z' {
        ((c as u8) + 32) as char
    } else {
        c
    }
}

/// The needle `n` occurs in `h` at position `i`.
pub open spec fn matches_at(h: Seq<char>, n: Seq<char>, i: int) -> bool {
    &&& 0 <= i
    &&& i + n.len() <= h.len()
    &&& forall|j: int| 0 <= j < n.len() ==> h[i + j] == n[j]
}

/// Substring containment: some position of `h` carries `n`. An empty
/// needle is contained in every haystack.
pub open spec fn contains_sub(h: Seq<char>, n: Seq<char>) -> bool {
    exists|i: int| matches_at(h, n, i)
}

/// Verified substring search over string slices.
pub fn str_contains(h: &str, n: &str) -> (r: bool)
    ensures
        r == contains_sub(h@, n@),
{
    let hl: usize = h.unicode_len();
    let nl: usize = n.unicode_len();
    if nl > hl {
        assert(forall|i: int| !matches_at(h@, n@, i));
        return false;
    }
    if nl == 0 {
        assert(matches_at(h@, n@, 0));
        return true;
    }
    let mut i: usize = 0;
    while i <= hl - nl
        invariant
            0 < nl <= hl,
            hl == h@.len(),
            nl == n@.len(),
            i <= hl - nl + 1,
            forall|k: int| 0 <= k < i ==> !matches_at(h@, n@, k),
        decreases hl - nl + 1 - i,
    {
        let mut j: usize = 0;
        let mut hit: bool = true;
        while j < nl
            invariant
                nl <= hl,
                hl == h@.len(),
                nl == n@.len(),
                i + nl <= hl,
                j <= nl,
                hit ==> forall|t: int| 0 <= t < j ==> h@[i + t] == n@[t],
                !hit ==> !matches_at(h@, n@, i as int),
            decreases nl - j,
        {
            let hc = h.get_char(i + j);
            let nc = n.get_char(j);
            if hc != nc {
                hit = false;
                j = nl;
            } else {
                j = j + 1;
            }
        }
        if hit {
            assert(matches_at(h@, n@, i as int));
            return true;
        }
        i = i + 1;
    }
    assert(forall|k: int| !matches_at(h@, n@, k)) by {
        assert(forall|k: int| k > hl - nl ==> !matches_at(h@, n@, k));
    };
    false
}

/// What `str::to_lowercase` returns for a character sequence. The full
/// Unicode lowercase mapping takes pages to state, but it depends on the
/// characters alone, so it gets a name and nothing more is assumed of it.
pub uninterp spec fn lower_of(s: Seq<char>) -> Seq<char>;

/// Relies on `str::to_lowercase`: the Unicode lowercase equivalent of the
/// string, a function of its characters alone.
#[verifier::external_body]
pub(crate) fn lowercase(s: &str) -> (r: String)
    ensures
        r@ == lower_of(s@),
{
    s.to_lowercase()
}

/// Whether a text field matches a search query: an empty query matches
/// everything; otherwise the lowercased field must contain the lowercased
/// query as a substring.
pub open spec fn field_matches(field: Seq<char>, q: Seq<char>) -> bool {
    q.len() == 0 || contains_sub(lower_of(field), lower_of(q))
}

/// Matches one field against a query whose lowercase form the caller has
/// already computed once.
pub(crate) fn match_field(field: &str, q: &str, q_lower: &str) -> (r: bool)
    requires
        q_lower@ == lower_of(q@),
    ensures
        r == field_matches(field@, q@),
{
    if q.is_empty() {
        true
    } else {
        let field_lower = lowercase(field);
        str_contains(field_lower.as_str(), q_lower)
    }
}

/// Strict lexicographic order on character sequences by code point.
/// A proper prefix comes before every extension of it.
pub open spec fn lex_lt(a: Seq<char>, b: Seq<char>) -> bool
    decreases a.len(),
{
    if b.len() == 0 {
        false
    } else if a.len() == 0 {
        true
    } else if a[0] != b[0] {
        a[0] < b[0]
    } else {
        lex_lt(a.drop_first(), b.drop_first())
    }
}

/// Non-strict lexicographic order.
pub open spec fn lex_le(a: Seq<char>, b: Seq<char>) -> bool {
    lex_lt(a, b) || a == b
}

/// Three-way comparison result.
pub enum Cmp {
    Lt,
    Eq,
    Gt,
}

/// Exactly one of `lex_lt(a, b)`, `a == b`, `lex_lt(b, a)` holds.
pub proof fn lemma_lex_trichotomy(a: Seq<char>, b: Seq<char>)
    ensures
        lex_lt(a, b) || a == b || lex_lt(b, a),
        lex_lt(a, b) ==> a != b && !lex_lt(b, a),
        a == b ==> !lex_lt(a, b) && !lex_lt(b, a),
    decreases a.len(),
{
    if b.len() == 0 {
        if a.len() == 0 {
            assert(a =~= b);
        }
    } else if a.len() == 0 {
    } else if a[0] != b[0] {
    } else {
        lemma_lex_trichotomy(a.drop_first(), b.drop_first());
        if a.drop_first() == b.drop_first() {
            assert forall|i: int| 0 <= i < a.len() implies a[i] == b[i] by {
                if i > 0 {
                    assert(a[i] == a.drop_first()[i - 1]);
                    assert(b[i] == b.drop_first()[i - 1]);
                }
            };
            assert(a =~= b);
        }
    }
}

/// Transitivity of strict lexicographic order.
pub proof fn lemma_lex_lt_trans(a: Seq<char>, b: Seq<char>, c: Seq<char>)
    requires
        lex_lt(a, b),
        lex_lt(b, c),
    ensures
        lex_lt(a, c),
    decreases a.len(),
{
    if c.len() == 0 {
    } else if a.len() == 0 {
    } else {
        if b.len() == 0 {
        } else if a[0] != b[0] {
            if b[0] != c[0] {
            } else {
            }
        } else {
            if b[0] != c[0] {
            } else {
                lemma_lex_lt_trans(a.drop_first(), b.drop_first(), c.drop_first());
            }
        }
    }
}

/// Three-way comparison of two string slices in lexicographic code-point
/// order (for UTF-8 strings this agrees with byte order).
pub fn str_cmp(a: &str, b: &str) -> (r: Cmp)
    ensures
        r is Lt <==> lex_lt(a@, b@),
        r is Eq <==> a@ == b@,
        r is Gt <==> lex_lt(b@, a@),
{
    let al: usize = a.unicode_len();
    let bl: usize = b.unicode_len();
    let min: usize = if al < bl {
        al
    } else {
        bl
    };
    let mut i: usize = 0;
    proof {
        assert(a@.skip(0) =~= a@);
        assert(b@.skip(0) =~= b@);
    }
    while i < min
        invariant
            al == a@.len(),
            bl == b@.len(),
            min == if al < bl {
                al
            } else {
                bl
            },
            i <= min,
            forall|j: int| 0 <= j < i ==> a@[j] == b@[j],
            lex_lt(a@, b@) == lex_lt(a@.skip(i as int), b@.skip(i as int)),
            lex_lt(b@, a@) == lex_lt(b@.skip(i as int), a@.skip(i as int)),
        decreases min - i,
    {
        let ca = a.get_char(i);
        let cb = b.get_char(i);
        proof {
            assert(a@.skip(i as int)[0] == a@[i as int]);
            assert(b@.skip(i as int)[0] == b@[i as int]);
        }
        if ca != cb {
            proof {
                lemma_lex_trichotomy(a@, b@);
                assert(a@[i as int] != b@[i as int]);
                assert(a@ != b@);
            }
            if ca < cb {
                return Cmp::Lt;
            } else {
                return Cmp::Gt;
            }
        }
        proof {
            let sa = a@.skip(i as int);
            let sb = b@.skip(i as int);
            assert(sa.drop_first() =~= a@.skip(i + 1));
            assert(sb.drop_first() =~= b@.skip(i + 1));
        }
        i = i + 1;
    }
    proof {
        lemma_lex_trichotomy(a@, b@);
    }
    if al < bl {
        assert(lex_lt(a@.skip(i as int), b@.skip(i as int)));
        Cmp::Lt
    } else if bl < al {
        assert(lex_lt(b@.skip(i as int), a@.skip(i as int)));
        Cmp::Gt
    } else {
        assert(a@ =~= b@);
        Cmp::Eq
    }
}

/// String-slice equality by view.
pub fn str_eq(a: &str, b: &str) -> (r: bool)
    ensures
        r == (a@ == b@),
{
    match str_cmp(a, b) {
        Cmp::Eq => true,
        _ => false,
    }
}

/// An ASCII letter or digit.
pub open spec fn is_alnum(c: char) -> bool {
    ('a' <= c && c <= 'z') || ('A' <= c && c <= 'Z') || ('0' <= c && c <= '9')
}

/// First pass of slugification: ASCII letters fold to lower case, digits
/// stay, every other character becomes a hyphen.
pub open spec fn slug_map(s: Seq<char>) -> Seq<char> {
    s.map(|i: int, c: char| if is_alnum(c) {
        lower_char_spec(c)
    } else {
        '-'
    })
}

/// Second pass over a sequence that has already been mapped: hyphen runs
/// between kept characters shrink to one hyphen, and leading and trailing
/// hyphens disappear. `collapse` strips the leading run and hands over to
/// `collapse_mid` once something has been kept.
pub open spec fn collapse(m: Seq<char>) -> Seq<char>
    decreases m.len(),
{
    if m.len() == 0 {
        Seq::empty()
    } else if m[0] == '-' {
        collapse(m.drop_first())
    } else {
        seq![m[0]] + collapse_mid(m.drop_first())
    }
}

/// Collapses hyphen runs in the part that follows a kept character: a run
/// survives as a single hyphen only if another kept character follows it.
pub open spec fn collapse_mid(m: Seq<char>) -> Seq<char>
    decreases m.len(),
{
    if m.len() == 0 {
        Seq::empty()
    } else if m[0] != '-' {
        seq![m[0]] + collapse_mid(m.drop_first())
    } else {
        let r = collapse_mid(m.drop_first());
        if r.len() > 0 && r[0] != '-' {
            seq!['-'] + r
        } else {
            r
        }
    }
}

/// The slug of a text field: map, then collapse.
pub open spec fn slug_of(s: Seq<char>) -> Seq<char> {
    collapse(slug_map(s))
}

proof fn lemma_collapse_mid_push_hyphen(m: Seq<char>)
    ensures
        collapse_mid(m.push('-')) == collapse_mid(m),
    decreases m.len(),
{
    let p = m.push('-');
    if m.len() == 0 {
        assert(p.len() == 1 && p[0] == '-');
        assert(p.drop_first() =~= Seq::<char>::empty());
        assert(collapse_mid(Seq::<char>::empty()) == Seq::<char>::empty());
        assert(collapse_mid(p) == Seq::<char>::empty());
        assert(collapse_mid(m) == Seq::<char>::empty());
    } else {
        assert(p[0] == m[0]);
        assert(p.drop_first() =~= m.drop_first().push('-'));
        lemma_collapse_mid_push_hyphen(m.drop_first());
        assert(collapse_mid(p.drop_first()) == collapse_mid(m.drop_first()));
    }
}

proof fn lemma_collapse_push_hyphen(m: Seq<char>)
    ensures
        collapse(m.push('-')) == collapse(m),
    decreases m.len(),
{
    let p = m.push('-');
    if m.len() == 0 {
        assert(p.len() == 1 && p[0] == '-');
        assert(p.drop_first() =~= Seq::<char>::empty());
        assert(collapse(Seq::<char>::empty()) == Seq::<char>::empty());
        assert(collapse(p) == Seq::<char>::empty());
    } else {
        assert(p[0] == m[0]);
        assert(p.drop_first() =~= m.drop_first().push('-'));
        if m[0] == '-' {
            lemma_collapse_push_hyphen(m.drop_first());
        } else {
            lemma_collapse_mid_push_hyphen(m.drop_first());
        }
    }
}

proof fn lemma_collapse_mid_keeps_last(t: Seq<char>)
    requires
        t.len() > 0,
        t.last() != '-',
    ensures
        collapse_mid(t).len() > 0,
    decreases t.len(),
{
    if t.len() == 1 {
        assert(t[0] == t.last());
    } else {
        assert(t.drop_first().len() > 0);
        assert(t.drop_first().last() == t.last());
        lemma_collapse_mid_keeps_last(t.drop_first());
    }
}

proof fn lemma_collapse_mid_push_kept(m: Seq<char>, x: char)
    requires
        x != '-',
    ensures
        collapse_mid(m.push(x)) == if m.len() > 0 && m.last() == '-' {
            collapse_mid(m) + seq!['-', x]
        } else {
            collapse_mid(m) + seq![x]
        },
    decreases m.len(),
{
    let p = m.push(x);
    if m.len() == 0 {
        assert(p.len() == 1 && p[0] == x);
        assert(p.drop_first() =~= Seq::<char>::empty());
        assert(collapse_mid(Seq::<char>::empty()) == Seq::<char>::empty());
        assert(collapse_mid(p) == seq![x] + Seq::<char>::empty());
        assert(collapse_mid(m) == Seq::<char>::empty());
        assert(collapse_mid(p) =~= collapse_mid(m) + seq![x]);
    } else {
        assert(p[0] == m[0]);
        assert(p.drop_first() =~= m.drop_first().push(x));
        lemma_collapse_mid_push_kept(m.drop_first(), x);
        if m.len() == 1 {
            assert(m.drop_first() =~= Seq::<char>::empty());
            assert(collapse_mid(Seq::<char>::empty()) == Seq::<char>::empty());
            assert(m.last() == m[0]);
            if m[0] == '-' {
                assert(collapse_mid(m) == Seq::<char>::empty());
                let r = collapse_mid(p.drop_first());
                assert(r =~= seq![x]);
                assert(collapse_mid(p) == seq!['-'] + r);
                assert(collapse_mid(p) =~= collapse_mid(m) + seq!['-', x]);
            } else {
                assert(collapse_mid(m) == seq![m[0]] + Seq::<char>::empty());
                let r = collapse_mid(p.drop_first());
                assert(r =~= seq![x]);
                assert(collapse_mid(p) == seq![m[0]] + r);
                assert(collapse_mid(p) =~= collapse_mid(m) + seq![x]);
            }
        } else {
            assert(m.drop_first().len() > 0);
            assert(m.drop_first().last() == m.last());
            let rr = collapse_mid(m.drop_first().push(x));
            if m[0] == '-' {
                let rm = collapse_mid(m.drop_first());
                if m.last() == '-' {
                    assert(rr == rm + seq!['-', x]);
                    if rm.len() > 0 && rm[0] != '-' {
                        assert(rr[0] == rm[0]);
                        assert(collapse_mid(p) == seq!['-'] + rr);
                        assert(collapse_mid(m) == seq!['-'] + rm);
                        assert(collapse_mid(p) =~= collapse_mid(m) + seq!['-', x]);
                    } else {
                        assert(collapse_mid(m) == rm);
                        if rm.len() > 0 {
                            assert(rr[0] == rm[0]);
                            assert(collapse_mid(p) == rr);
                        } else {
                            assert(rr =~= seq!['-', x]);
                            assert(rr[0] == '-');
                            assert(collapse_mid(p) == rr);
                        }
                        assert(collapse_mid(p) =~= collapse_mid(m) + seq!['-', x]);
                    }
                } else {
                    assert(rr == rm + seq![x]);
                    if rm.len() > 0 && rm[0] != '-' {
                        assert(rr[0] == rm[0]);
                        assert(collapse_mid(p) == seq!['-'] + rr);
                        assert(collapse_mid(m) == seq!['-'] + rm);
                        assert(collapse_mid(p) =~= collapse_mid(m) + seq![x]);
                    } else if rm.len() > 0 {
                        assert(rr[0] == rm[0]);
                        assert(collapse_mid(p) == rr);
                        assert(collapse_mid(m) == rm);
                        assert(collapse_mid(p) =~= collapse_mid(m) + seq![x]);
                    } else {
                        // Impossible: the tail ends with a kept character,
                        // so its collapse is not empty.
                        lemma_collapse_mid_keeps_last(m.drop_first());
                        assert(false);
                    }
                }
            } else {
                assert(collapse_mid(p) == seq![m[0]] + rr);
                assert(collapse_mid(m) == seq![m[0]] + collapse_mid(m.drop_first()));
                if m.last() == '-' {
                    assert(collapse_mid(p) =~= collapse_mid(m) + seq!['-', x]);
                } else {
                    assert(collapse_mid(p) =~= collapse_mid(m) + seq![x]);
                }
            }
        }
    }
}

proof fn lemma_collapse_push_kept(m: Seq<char>, x: char)
    requires
        x != '-',
    ensures
        collapse(m.push(x)) == if collapse(m).len() == 0 {
            seq![x]
        } else if m.last() == '-' {
            collapse(m) + seq!['-', x]
        } else {
            collapse(m) + seq![x]
        },
    decreases m.len(),
{
    if m.len() == 0 {
        assert(m.push(x).drop_first() =~= Seq::<char>::empty());
        assert(collapse(m.push(x)) =~= seq![x]);
    } else {
        assert(m.push(x).drop_first() =~= m.drop_first().push(x));
        if m[0] == '-' {
            lemma_collapse_push_kept(m.drop_first(), x);
            if m.len() == 1 {
                assert(collapse(m) =~= Seq::<char>::empty());
            } else {
                assert(m.drop_first().last() == m.last());
            }
        } else {
            lemma_collapse_mid_push_kept(m.drop_first(), x);
            if m.len() == 1 {
                assert(collapse(m.push(x)) =~= collapse(m) + seq![x]);
            } else {
                assert(m.drop_first().last() == m.last());
                if m.last() == '-' {
                    assert(collapse(m.push(x)) =~= collapse(m) + seq!['-', x]);
                } else {
                    assert(collapse(m.push(x)) =~= collapse(m) + seq![x]);
                }
            }
        }
    }
}

proof fn lemma_collapse_mid_shape(m: Seq<char>)
    ensures
        collapse_mid(m).len() > 0 ==> collapse_mid(m).last() != '-',
        forall|i: int|
            0 <= i < collapse_mid(m).len() - 1 ==> !((#[trigger] collapse_mid(m)[i]) == '-'
                && collapse_mid(m)[i + 1] == '-'),
    decreases m.len(),
{
    if m.len() == 0 {
    } else {
        lemma_collapse_mid_shape(m.drop_first());
        let r0 = collapse_mid(m.drop_first());
        let r = collapse_mid(m);
        if m[0] != '-' {
            assert(r == seq![m[0]] + r0);
            if r0.len() > 0 {
                assert(r.last() == r0.last());
            } else {
                assert(r.last() == m[0]);
            }
            assert forall|i: int|
                0 <= i < r.len() - 1 implies !((#[trigger] r[i]) == '-' && r[i + 1] == '-') by {
                if i == 0 {
                    assert(r[0] == m[0]);
                } else {
                    assert(r[i] == r0[i - 1]);
                    assert(r[i + 1] == r0[i]);
                }
            };
        } else {
            if r0.len() > 0 && r0[0] != '-' {
                assert(r == seq!['-'] + r0);
                assert(r.last() == r0.last());
                assert forall|i: int|
                    0 <= i < r.len() - 1 implies !((#[trigger] r[i]) == '-' && r[i + 1] == '-') by {
                    if i == 0 {
                        assert(r[1] == r0[0]);
                    } else {
                        assert(r[i] == r0[i - 1]);
                        assert(r[i + 1] == r0[i]);
                    }
                };
            } else {
                assert(r == r0);
            }
        }
    }
}

proof fn lemma_collapse_shape(m: Seq<char>)
    ensures
        collapse(m).len() > 0 ==> collapse(m)[0] != '-' && collapse(m).last() != '-',
        forall|i: int|
            0 <= i < collapse(m).len() - 1 ==> !((#[trigger] collapse(m)[i]) == '-' && collapse(
                m,
            )[i + 1] == '-'),
    decreases m.len(),
{
    if m.len() == 0 {
    } else if m[0] == '-' {
        lemma_collapse_shape(m.drop_first());
    } else {
        lemma_collapse_mid_shape(m.drop_first());
        let r0 = collapse_mid(m.drop_first());
        let r = collapse(m);
        assert(r == seq![m[0]] + r0);
        assert(r[0] == m[0]);
        if r0.len() > 0 {
            assert(r.last() == r0.last());
        } else {
            assert(r.last() == m[0]);
        }
        assert forall|i: int|
            0 <= i < r.len() - 1 implies !((#[trigger] r[i]) == '-' && r[i + 1] == '-') by {
            if i == 0 {
                assert(r[0] == m[0]);
            } else {
                assert(r[i] == r0[i - 1]);
                assert(r[i + 1] == r0[i]);
            }
        };
    }
}

/// The shape of every slug: it neither starts nor ends with a hyphen, and
/// it never holds two hyphens in a row — every run of dropped characters
/// collapses to at most one hyphen.
pub proof fn lemma_slug_shape(s: Seq<char>)
    ensures
        slug_of(s).len() > 0 ==> slug_of(s)[0] != '-' && slug_of(s).last() != '-',
        forall|i: int|
            0 <= i < slug_of(s).len() - 1 ==> !((#[trigger] slug_of(s)[i]) == '-' && slug_of(
                s,
            )[i + 1] == '-'),
{
    lemma_collapse_shape(slug_map(s));
}

fn alnum_lit(c: char) -> (r: &'static str)
    requires
        (('a' <= c && c <= 'z') || ('0' <= c && c <= '9')),
    ensures
        r@ == seq![c],
{
    proof {
        reveal_strlit("a");
        reveal_strlit("b");
        reveal_strlit("c");
        reveal_strlit("d");
        reveal_strlit("e");
        reveal_strlit("f");
        reveal_strlit("g");
        reveal_strlit("h");
        reveal_strlit("i");
        reveal_strlit("j");
        reveal_strlit("k");
        reveal_strlit("l");
        reveal_strlit("m");
        reveal_strlit("n");
        reveal_strlit("o");
        reveal_strlit("p");
        reveal_strlit("q");
        reveal_strlit("r");
        reveal_strlit("s");
        reveal_strlit("t");
        reveal_strlit("u");
        reveal_strlit("v");
        reveal_strlit("w");
        reveal_strlit("x");
        reveal_strlit("y");
        reveal_strlit("z");
        reveal_strlit("0");
        reveal_strlit("1");
        reveal_strlit("2");
        reveal_strlit("3");
        reveal_strlit("4");
        reveal_strlit("5");
        reveal_strlit("6");
        reveal_strlit("7");
        reveal_strlit("8");
        reveal_strlit("9");
    }
    match c {
        'a' => "a",
        'b' => "b",
        'c' => "c",
        'd' => "d",
        'e' => "e",
        'f' => "f",
        'g' => "g",
        'h' => "h",
        'i' => "i",
        'j' => "j",
        'k' => "k",
        'l' => "l",
        'm' => "m",
        'n' => "n",
        'o' => "o",
        'p' => "p",
        'q' => "q",
        'r' => "r",
        's' => "s",
        't' => "t",
        'u' => "u",
        'v' => "v",
        'w' => "w",
        'x' => "x",
        'y' => "y",
        'z' => "z",
        '0' => "0",
        '1' => "1",
        '2' => "2",
        '3' => "3",
        '4' => "4",
        '5' => "5",
        '6' => "6",
        '7' => "7",
        '8' => "8",
        _ => "9",
    }
}

/// Normalizes a text field into a slug: lower-case letters and digits,
/// with every other run of characters collapsed to a single hyphen and no
/// hyphen at either end.
pub fn slugify(value: &str) -> (r: String)
    ensures
        r@ == slug_of(value@),
{
    let ghost s = value@;
    let n: usize = value.unicode_len();
    let mut out = String::new();
    let mut pending: bool = false;
    let mut i: usize = 0;
    proof {
        assert(slug_map(s.take(0)) =~= Seq::<char>::empty());
    }
    while i < n
        invariant
            i <= n,
            n == s.len(),
            s == value@,
            out@ == collapse(slug_map(s.take(i as int))),
            pending == {
                let m = slug_map(s.take(i as int));
                m.len() > 0 && m.last() == '-' && collapse(m).len() > 0
            },
        decreases n - i,
    {
        let ghost m = slug_map(s.take(i as int));
        proof {
            assert(slug_map(s.take(i + 1)) =~= m.push(
                if is_alnum(s[i as int]) {
                    lower_char_spec(s[i as int])
                } else {
                    '-'
                },
            ));
        }
        let c = value.get_char(i);
        let is_an: bool = ('a' <= c && c <= 'z') || ('A' <= c && c <= 'Z') || ('0' <= c && c
            <= '9');
        if is_an {
            let x = lower_char(c);
            proof {
                lemma_collapse_push_kept(m, lower_char_spec(s[i as int]));
            }
            if pending {
                out.append("-");
                proof {
                    reveal_strlit("-");
                    assert("-"@ =~= seq!['-']);
                }
            }
            out.append(alnum_lit(x));
            proof {
                let m2 = slug_map(s.take(i + 1));
                if pending {
                    assert(out@ =~= collapse(m2));
                } else {
                    assert(out@ =~= collapse(m2));
                }
                assert(m2.last() != '-');
            }
            pending = false;
        } else {
            proof {
                lemma_collapse_push_hyphen(m);
                let m2 = slug_map(s.take(i + 1));
                assert(m2.last() == '-');
                assert(collapse(m2) == collapse(m));
            }
            if !out.as_str().is_empty() {
                pending = true;
            } else {
                proof {
                    assert(out@.len() == 0);
                }
            }
        }
        i = i + 1;
    }
    proof {
        assert(s.take(n as int) =~= s);
    }
    out
}

} // verus!


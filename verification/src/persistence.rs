//! The import/export gateway and the store of all four state maps.
//!
//! Export builds one document holding every state record, game states
//! grouped by console. Import overwrites records by id, key by key: a
//! record in the document fully replaces any in-memory record with the
//! same id, and ids the document does not mention keep their in-memory
//! record. The file names of the per-kind state files are derived here;
//! the directory they live in is platform-specific and supplied by the
//! caller.

use vstd::prelude::*;
use vstd::string::StringExecFns;

use crate::counts::CountsTable;
use crate::counts::compute_game_counts;
use crate::counts::console_of;
use crate::game_data::get_console_from_id;
use crate::lego_dimensions::LegoDimensionState;
use crate::model::ConsoleState;
use crate::model::GameState;
use crate::skylanders::SkylanderState;
use crate::store::KeyedState;
use crate::store::StateMap;
use crate::store::as_map;
use crate::store::distinct_keys;
use crate::store::lemma_as_map_dom;
use crate::text::str_eq;

verus! {

/// Some record of `s` carries key `k`.
pub open spec fn in_keys<T: KeyedState>(s: Seq<T>, k: Seq<char>) -> bool {
    exists|i: int| 0 <= i < s.len() && (#[trigger] s[i]).skey() == k
}

/// No later record of `s` repeats the key of record `i`.
pub open spec fn last_occurrence<T: KeyedState>(s: Seq<T>, i: int) -> bool {
    forall|j: int| i < j < s.len() ==> (#[trigger] s[j]).skey() != s[i].skey()
}

/// Merging a record sequence into a map: every record overwrites the
/// binding of its key, later records win.
pub open spec fn merge<T: KeyedState>(m: Map<Seq<char>, T>, s: Seq<T>) -> Map<Seq<char>, T>
    decreases s.len(),
{
    if s.len() == 0 {
        m
    } else {
        merge(m, s.drop_last()).insert(s.last().skey(), s.last())
    }
}

/// What `merge` binds: keys of `s` to their last record, all other keys as
/// in `m`.
pub proof fn lemma_merge_props<T: KeyedState>(m: Map<Seq<char>, T>, s: Seq<T>)
    ensures
        forall|k: Seq<char>|
            #![trigger merge(m, s).dom().contains(k)]
            merge(m, s).dom().contains(k) <==> (m.dom().contains(k) || in_keys(s, k)),
        forall|k: Seq<char>|
            #![trigger merge(m, s)[k]]
            !in_keys(s, k) && m.dom().contains(k) ==> merge(m, s)[k] == m[k],
        forall|i: int|
            0 <= i < s.len() && #[trigger] last_occurrence(s, i) ==> merge(m, s).dom().contains(
                s[i].skey(),
            ) && merge(m, s)[s[i].skey()] == s[i],
    decreases s.len(),
{
    if s.len() == 0 {
        assert forall|k: Seq<char>| !in_keys(s, k) by {}
    } else {
        let d = s.drop_last();
        lemma_merge_props(m, d);
        assert forall|k: Seq<char>| #![trigger merge(m, s).dom().contains(k)]
            merge(m, s).dom().contains(k) <==> (m.dom().contains(k) || in_keys(s, k)) by {
            if merge(m, s).dom().contains(k) {
                if k == s.last().skey() {
                    assert(s[s.len() - 1].skey() == k);
                    assert(in_keys(s, k));
                } else {
                    assert(merge(m, d).dom().contains(k));
                    if in_keys(d, k) {
                        let i = choose|i: int| 0 <= i < d.len() && (#[trigger] d[i]).skey() == k;
                        assert(d[i] == s[i]);
                        assert(s[i].skey() == k);
                        assert(in_keys(s, k));
                    }
                }
            }
            if m.dom().contains(k) || in_keys(s, k) {
                if in_keys(s, k) {
                    let i = choose|i: int| 0 <= i < s.len() && (#[trigger] s[i]).skey() == k;
                    if i < s.len() - 1 {
                        assert(d[i] == s[i]);
                        assert(d[i].skey() == k);
                        assert(in_keys(d, k));
                        assert(merge(m, d).dom().contains(k));
                    } else {
                        assert(k == s.last().skey());
                    }
                } else {
                    assert(merge(m, d).dom().contains(k));
                }
                assert(merge(m, s).dom().contains(k));
            }
        };
        assert forall|k: Seq<char>|
            !in_keys(s, k) && m.dom().contains(k) implies merge(m, s)[k] == m[k] by {
            assert(s[s.len() - 1].skey() != k);
            assert forall|i: int| 0 <= i < d.len() implies (#[trigger] d[i]).skey() != k by {
                assert(d[i] == s[i]);
                assert(s[i].skey() != k);
            };
            assert(!in_keys(d, k));
            assert(merge(m, s)[k] == merge(m, d)[k]);
            assert(merge(m, d)[k] == m[k]);
        };
        assert forall|i: int|
            0 <= i < s.len() && #[trigger] last_occurrence(s, i) implies merge(
            m,
            s,
        ).dom().contains(s[i].skey()) && merge(m, s)[s[i].skey()] == s[i] by {
            if i == s.len() - 1 {
            } else {
                assert(s[s.len() - 1].skey() != s[i].skey());
                assert(d[i] == s[i]);
                assert(last_occurrence(d, i)) by {
                    assert forall|j: int| i < j < d.len() implies (#[trigger] d[j]).skey()
                        != d[i].skey() by {
                        assert(d[j] == s[j]);
                    };
                };
            }
        };
    }
}

/// Every key that occurs has a last occurrence.
pub proof fn lemma_find_last_occurrence<T: KeyedState>(s: Seq<T>, k: Seq<char>)
    requires
        in_keys(s, k),
    ensures
        exists|i: int|
            0 <= i < s.len() && (#[trigger] s[i]).skey() == k && last_occurrence(s, i),
    decreases s.len(),
{
    if s.last().skey() == k {
        assert(s[s.len() - 1].skey() == k && last_occurrence(s, s.len() - 1));
    } else {
        let d = s.drop_last();
        assert(in_keys(d, k)) by {
            let i = choose|i: int| 0 <= i < s.len() && (#[trigger] s[i]).skey() == k;
            assert(i < s.len() - 1);
            assert(d[i].skey() == k);
        };
        lemma_find_last_occurrence(d, k);
        let i = choose|i: int|
            0 <= i < d.len() && (#[trigger] d[i]).skey() == k && last_occurrence(d, i);
        assert(s[i].skey() == k);
        assert(last_occurrence(s, i)) by {
            assert forall|j: int| i < j < s.len() implies (#[trigger] s[j]).skey() != s[i].skey() by {
                if j < s.len() - 1 {
                    assert(s[j] == d[j]);
                }
            };
        };
    }
}

/// Merging the same records twice is the same as merging them once:
/// importing a document again changes nothing.
pub proof fn lemma_merge_idempotent<T: KeyedState>(m: Map<Seq<char>, T>, s: Seq<T>)
    ensures
        merge(merge(m, s), s) == merge(m, s),
{
    let m1 = merge(m, s);
    let m2 = merge(m1, s);
    lemma_merge_props(m, s);
    lemma_merge_props(m1, s);
    assert forall|k: Seq<char>| m2.dom().contains(k) implies m1.dom().contains(k) by {
        if in_keys(s, k) {
            assert(merge(m, s).dom().contains(k));
        }
    }
    assert forall|k: Seq<char>| m1.dom().contains(k) implies m2.dom().contains(k) by {
        assert(merge(m1, s).dom().contains(k));
    }
    assert forall|k: Seq<char>| #[trigger] m2.dom().contains(k) implies m2[k] == m1[k] by {
        if in_keys(s, k) {
            lemma_find_last_occurrence(s, k);
            let i = choose|i: int|
                0 <= i < s.len() && (#[trigger] s[i]).skey() == k && last_occurrence(s, i);
            assert(m1[k] == s[i]);
            assert(m2[k] == s[i]);
        }
    };
    assert(m2 =~= m1);
}

/// One console's section of the export document: the console id and the
/// game state records grouped under it.
pub struct ConsoleExportData {
    pub console_id: String,
    pub games: Vec<GameState>,
}

/// The export document: a format version tag, the export timestamp, and
/// the full contents of every state map, game states grouped by console.
pub struct ExportData {
    pub version: String,
    pub export_date: String,
    pub console_states: Vec<ConsoleState>,
    pub consoles: Vec<ConsoleExportData>,
    pub lego_dimensions_states: Vec<LegoDimensionState>,
    pub skylanders_states: Vec<SkylanderState>,
}

/// Some record of some group carries key `k`.
pub open spec fn in_group_keys(gs: Seq<ConsoleExportData>, k: Seq<char>) -> bool {
    exists|g: int| 0 <= g < gs.len() && in_keys((#[trigger] gs[g]).games@, k)
}

/// Merging the grouped game records into a map, group by group, record by
/// record.
pub open spec fn merge_groups(m: Map<Seq<char>, GameState>, gs: Seq<ConsoleExportData>) -> Map<
    Seq<char>,
    GameState,
>
    decreases gs.len(),
{
    if gs.len() == 0 {
        m
    } else {
        merge(merge_groups(m, gs.drop_last()), gs.last().games@)
    }
}

/// What `merge_groups` binds, first part: a key is bound exactly when the
/// base map binds it or the document mentions it.
pub proof fn lemma_merge_groups_dom(m: Map<Seq<char>, GameState>, gs: Seq<ConsoleExportData>)
    ensures
        forall|k: Seq<char>| #![trigger merge_groups(m, gs).dom().contains(k)]
            merge_groups(m, gs).dom().contains(k) <==> (m.dom().contains(k) || in_group_keys(
                gs,
                k,
            )),
    decreases gs.len(),
{
    if gs.len() == 0 {
    } else {
        let d = gs.drop_last();
        let mm = merge_groups(m, d);
        let lastg = gs.last().games@;
        lemma_merge_groups_dom(m, d);
        lemma_merge_props(mm, lastg);
        assert forall|k: Seq<char>| #![trigger merge_groups(m, gs).dom().contains(k)]
            merge_groups(m, gs).dom().contains(k) <==> (m.dom().contains(k) || in_group_keys(
                gs,
                k,
            )) by {
            assert(merge_groups(m, gs) == merge(mm, lastg));
            if merge(mm, lastg).dom().contains(k) {
                if in_keys(lastg, k) {
                    assert(gs[gs.len() - 1].games@ == lastg);
                    assert(in_group_keys(gs, k));
                } else {
                    assert(mm.dom().contains(k));
                    if in_group_keys(d, k) {
                        let g = choose|g: int|
                            0 <= g < d.len() && in_keys((#[trigger] d[g]).games@, k);
                        assert(gs[g] == d[g]);
                        assert(in_group_keys(gs, k));
                    }
                }
            }
            if m.dom().contains(k) || in_group_keys(gs, k) {
                if in_group_keys(gs, k) {
                    let g = choose|g: int|
                        0 <= g < gs.len() && in_keys((#[trigger] gs[g]).games@, k);
                    if g < gs.len() - 1 {
                        assert(d[g] == gs[g]);
                        assert(in_group_keys(d, k));
                        assert(mm.dom().contains(k));
                    } else {
                        assert(in_keys(lastg, k));
                    }
                } else {
                    assert(mm.dom().contains(k));
                }
                assert(merge(mm, lastg).dom().contains(k));
            }
        };
    }
}

/// Second part: a key the document never mentions keeps its binding.
pub proof fn lemma_merge_groups_untouched(
    m: Map<Seq<char>, GameState>,
    gs: Seq<ConsoleExportData>,
    k: Seq<char>,
)
    requires
        !in_group_keys(gs, k),
        m.dom().contains(k),
    ensures
        merge_groups(m, gs).dom().contains(k),
        merge_groups(m, gs)[k] == m[k],
    decreases gs.len(),
{
    lemma_merge_groups_dom(m, gs);
    if gs.len() > 0 {
        let d = gs.drop_last();
        let mm = merge_groups(m, d);
        let lastg = gs.last().games@;
        assert(!in_group_keys(d, k)) by {
            if in_group_keys(d, k) {
                let g = choose|g: int| 0 <= g < d.len() && in_keys((#[trigger] d[g]).games@, k);
                assert(gs[g] == d[g]);
                assert(in_group_keys(gs, k));
            }
        };
        lemma_merge_groups_untouched(m, d, k);
        lemma_merge_props(mm, lastg);
        assert(!in_keys(lastg, k)) by {
            if in_keys(lastg, k) {
                assert(gs[gs.len() - 1].games@ == lastg);
                assert(in_group_keys(gs, k));
            }
        };
        assert(merge(mm, lastg)[k] == mm[k]);
    }
}

/// Third part: the final occurrence of a key in the document is what the
/// merged map binds it to.
pub proof fn lemma_merge_groups_get(
    m: Map<Seq<char>, GameState>,
    gs: Seq<ConsoleExportData>,
    g: int,
    i: int,
)
    requires
        0 <= g < gs.len(),
        0 <= i < gs[g].games@.len(),
        last_occurrence(gs[g].games@, i),
        forall|g2: int|
            g < g2 < gs.len() ==> !in_keys((#[trigger] gs[g2]).games@, gs[g].games@[i].skey()),
    ensures
        merge_groups(m, gs).dom().contains(gs[g].games@[i].skey()),
        merge_groups(m, gs)[gs[g].games@[i].skey()] == gs[g].games@[i],
    decreases gs.len(),
{
    let d = gs.drop_last();
    let mm = merge_groups(m, d);
    let lastg = gs.last().games@;
    let k = gs[g].games@[i].skey();
    lemma_merge_props(mm, lastg);
    if g == gs.len() - 1 {
        assert(gs[g].games@ == lastg);
        assert(merge(mm, lastg).dom().contains(lastg[i].skey()) && merge(mm, lastg)[lastg[i].skey()]
            == lastg[i]);
    } else {
        assert(d[g] == gs[g]);
        assert(d[g].games@[i] == gs[g].games@[i]);
        assert(last_occurrence(d[g].games@, i));
        assert forall|g2: int| g < g2 < d.len() implies !in_keys(
            (#[trigger] d[g2]).games@,
            d[g].games@[i].skey(),
        ) by {
            assert(d[g2] == gs[g2]);
        };
        lemma_merge_groups_get(m, d, g, i);
        assert(!in_keys(lastg, k)) by {
            if in_keys(lastg, k) {
                assert(gs[gs.len() - 1].games@ == lastg);
            }
        };
        assert(merge(mm, lastg)[k] == mm[k]);
        assert(merge(mm, lastg).dom().contains(k));
    }
}

/// Every key of the document has a final occurrence: a group and position
/// after which it never appears again.
pub proof fn lemma_find_last_group_occurrence(gs: Seq<ConsoleExportData>, k: Seq<char>)
    requires
        in_group_keys(gs, k),
    ensures
        exists|g: int, i: int| #![trigger gs[g].games@[i]]
            0 <= g < gs.len() && 0 <= i < gs[g].games@.len() && gs[g].games@[i].skey() == k
                && last_occurrence(gs[g].games@, i) && (forall|g2: int|
                g < g2 < gs.len() ==> !in_keys((#[trigger] gs[g2]).games@, k)),
    decreases gs.len(),
{
    let lastg = gs.last().games@;
    if in_keys(lastg, k) {
        lemma_find_last_occurrence(lastg, k);
        let i = choose|i: int|
            0 <= i < lastg.len() && (#[trigger] lastg[i]).skey() == k && last_occurrence(lastg, i);
        assert(gs[gs.len() - 1].games@ == lastg);
        assert(gs[gs.len() - 1].games@[i].skey() == k && last_occurrence(
            gs[gs.len() - 1].games@,
            i,
        ));
    } else {
        let d = gs.drop_last();
        assert(in_group_keys(d, k)) by {
            let g = choose|g: int| 0 <= g < gs.len() && in_keys((#[trigger] gs[g]).games@, k);
            assert(g < gs.len() - 1) by {
                if g == gs.len() - 1 {
                    assert(in_keys(lastg, k));
                }
            };
            assert(d[g] == gs[g]);
            assert(in_keys(d[g].games@, k));
        };
        lemma_find_last_group_occurrence(d, k);
        let (g, i): (int, int) = choose|g: int, i: int| #![trigger d[g].games@[i]]
            0 <= g < d.len() && 0 <= i < d[g].games@.len() && d[g].games@[i].skey() == k
                && last_occurrence(d[g].games@, i) && (forall|g2: int|
                g < g2 < d.len() ==> !in_keys((#[trigger] d[g2]).games@, k));
        assert(gs[g] == d[g]);
        assert(gs[g].games@[i].skey() == k && last_occurrence(gs[g].games@, i));
        assert forall|g2: int| g < g2 < gs.len() implies !in_keys(
            (#[trigger] gs[g2]).games@,
            k,
        ) by {
            if g2 < gs.len() - 1 {
                assert(gs[g2] == d[g2]);
            } else {
                assert(gs[g2].games@ == lastg);
            }
        };
    }
}

/// Merging the same grouped document twice is the same as merging it once.
pub proof fn lemma_merge_groups_idempotent(
    m: Map<Seq<char>, GameState>,
    gs: Seq<ConsoleExportData>,
)
    ensures
        merge_groups(merge_groups(m, gs), gs) == merge_groups(m, gs),
{
    let m1 = merge_groups(m, gs);
    let m2 = merge_groups(m1, gs);
    lemma_merge_groups_dom(m, gs);
    lemma_merge_groups_dom(m1, gs);
    assert forall|k: Seq<char>| m2.dom().contains(k) implies m1.dom().contains(k) by {
        if in_group_keys(gs, k) {
            assert(merge_groups(m, gs).dom().contains(k));
        }
    }
    assert forall|k: Seq<char>| m1.dom().contains(k) implies m2.dom().contains(k) by {
        assert(merge_groups(m1, gs).dom().contains(k));
    }
    assert forall|k: Seq<char>| #[trigger] m2.dom().contains(k) implies m2[k] == m1[k] by {
        if in_group_keys(gs, k) {
            lemma_find_last_group_occurrence(gs, k);
            let (g, i): (int, int) = choose|g: int, i: int| #![trigger gs[g].games@[i]]
                0 <= g < gs.len() && 0 <= i < gs[g].games@.len() && gs[g].games@[i].skey() == k
                    && last_occurrence(gs[g].games@, i) && (forall|g2: int|
                    g < g2 < gs.len() ==> !in_keys((#[trigger] gs[g2]).games@, k));
            lemma_merge_groups_get(m, gs, g, i);
            lemma_merge_groups_get(m1, gs, g, i);
            assert(m1[k] == gs[g].games@[i]);
            assert(m2[k] == gs[g].games@[i]);
        } else {
            lemma_merge_groups_untouched(m1, gs, k);
        }
    };
    assert(m2 =~= m1);
}

/// Merging a well-formed map's own records into an empty map rebuilds the
/// map: the heart of the export/import round trip.
pub proof fn lemma_merge_rebuilds<T: KeyedState>(s: Seq<T>)
    requires
        distinct_keys(s),
    ensures
        merge(Map::<Seq<char>, T>::empty(), s) == as_map(s),
    decreases s.len(),
{
    if s.len() > 0 {
        assert(distinct_keys(s.drop_last()));
        lemma_merge_rebuilds(s.drop_last());
    }
}

/// The first `upto` groups hold only records of `recs`, each in the group
/// of its own console.
pub open spec fn group_entries_ok(
    gs: Seq<ConsoleExportData>,
    recs: Seq<GameState>,
    upto: int,
) -> bool {
    forall|g: int, i: int| #![trigger gs[g].games@[i]]
        0 <= g < upto && 0 <= i < gs[g].games@.len() ==> (exists|r: int|
            0 <= r < recs.len() && #[trigger] recs[r] == gs[g].games@[i]) && console_of(
            gs[g].games@[i].game_id@,
        ) == gs[g].console_id@
}

/// The first `upto` groups each hold every record of their own console.
pub open spec fn group_covers_ok(
    gs: Seq<ConsoleExportData>,
    recs: Seq<GameState>,
    upto: int,
) -> bool {
    forall|g: int, r: int| #![trigger gs[g], recs[r]]
        0 <= g < upto && 0 <= r < recs.len() && console_of(recs[r].game_id@) == gs[g].console_id@
            ==> in_keys(gs[g].games@, recs[r].skey())
}

/// The games section of a well-formed export document for the record
/// sequence `recs`: every record's key occurs in some group, every entry
/// of every group is one of the records and sits in the group of its own
/// console, and no two groups cover the same console.
pub open spec fn export_games_ok(gs: Seq<ConsoleExportData>, recs: Seq<GameState>) -> bool {
    &&& forall|r: int| 0 <= r < recs.len() ==> in_group_keys(gs, (#[trigger] recs[r]).skey())
    &&& group_entries_ok(gs, recs, gs.len() as int)
    &&& forall|g1: int, g2: int|
        0 <= g1 < g2 < gs.len() ==> (#[trigger] gs[g1]).console_id@ != (
        #[trigger] gs[g2]).console_id@
}

/// A well-formed games section, merged into an empty map, rebuilds the map
/// of the records it was exported from.
pub proof fn lemma_groups_rebuild(gs: Seq<ConsoleExportData>, recs: Seq<GameState>)
    requires
        distinct_keys(recs),
        export_games_ok(gs, recs),
    ensures
        merge_groups(Map::<Seq<char>, GameState>::empty(), gs) == as_map(recs),
{
    let e = Map::<Seq<char>, GameState>::empty();
    lemma_as_map_dom(recs);
    lemma_merge_groups_dom(e, gs);
    assert forall|k: Seq<char>| as_map(recs).dom().contains(k) implies merge_groups(
        e,
        gs,
    ).dom().contains(k) by {
        let r = choose|r: int| 0 <= r < recs.len() && (#[trigger] recs[r]).skey() == k;
        assert(in_group_keys(gs, recs[r].skey()));
        assert(merge_groups(e, gs).dom().contains(k));
    };
    assert forall|k: Seq<char>| merge_groups(e, gs).dom().contains(k) implies as_map(
        recs,
    ).dom().contains(k) by {
        assert(in_group_keys(gs, k));
        let g = choose|g: int| 0 <= g < gs.len() && in_keys((#[trigger] gs[g]).games@, k);
        let i = choose|i: int| 0 <= i < gs[g].games@.len() && (#[trigger] gs[g].games@[i]).skey() == k;
        let r = choose|r: int| 0 <= r < recs.len() && #[trigger] recs[r] == gs[g].games@[i];
        assert(recs[r].skey() == k);
    };
    assert forall|k: Seq<char>| #[trigger] merge_groups(e, gs).dom().contains(k) implies merge_groups(
        e,
        gs,
    )[k] == as_map(recs)[k] by {
        assert(in_group_keys(gs, k));
        lemma_find_last_group_occurrence(gs, k);
        let (g, i): (int, int) = choose|g: int, i: int| #![trigger gs[g].games@[i]]
            0 <= g < gs.len() && 0 <= i < gs[g].games@.len() && gs[g].games@[i].skey() == k
                && last_occurrence(gs[g].games@, i) && (forall|g2: int|
                g < g2 < gs.len() ==> !in_keys((#[trigger] gs[g2]).games@, k));
        lemma_merge_groups_get(e, gs, g, i);
        let entry = gs[g].games@[i];
        let r = choose|r: int| 0 <= r < recs.len() && #[trigger] recs[r] == entry;
        crate::store::lemma_as_map_get(recs, r);
        assert(as_map(recs)[k] == recs[r]);
    };
    assert(merge_groups(e, gs) =~= as_map(recs));
}

/// The round trip behind export and import: a well-formed export document
/// (every state map's records listed whole, game states grouped by
/// console), imported into a fresh store, rebuilds every state map of the
/// store it was exported from, record for record.
pub proof fn lemma_export_import_round_trip(
    console_recs: Seq<ConsoleState>,
    game_recs: Seq<GameState>,
    lego_recs: Seq<LegoDimensionState>,
    sky_recs: Seq<SkylanderState>,
    gs: Seq<ConsoleExportData>,
)
    requires
        distinct_keys(console_recs),
        distinct_keys(game_recs),
        distinct_keys(lego_recs),
        distinct_keys(sky_recs),
        export_games_ok(gs, game_recs),
    ensures
        merge(Map::<Seq<char>, ConsoleState>::empty(), console_recs) == as_map(console_recs),
        merge_groups(Map::<Seq<char>, GameState>::empty(), gs) == as_map(game_recs),
        merge(Map::<Seq<char>, LegoDimensionState>::empty(), lego_recs) == as_map(lego_recs),
        merge(Map::<Seq<char>, SkylanderState>::empty(), sky_recs) == as_map(sky_recs),
{
    lemma_merge_rebuilds(console_recs);
    lemma_groups_rebuild(gs, game_recs);
    lemma_merge_rebuilds(lego_recs);
    lemma_merge_rebuilds(sky_recs);
}

/// The in-memory store of all four state maps, with the cached per-console
/// game counts beside them. The cache always matches the game state map.
pub struct StateStore {
    pub console_states: StateMap<ConsoleState>,
    pub game_states: StateMap<GameState>,
    pub lego_states: StateMap<LegoDimensionState>,
    pub skylanders_states: StateMap<SkylanderState>,
    pub game_counts: CountsTable,
}

impl StateStore {
    /// Well-formed: every map has distinct keys and the counts cache
    /// matches the game states.
    pub open spec fn wf(&self) -> bool {
        &&& self.console_states.wf()
        &&& self.game_states.wf()
        &&& self.lego_states.wf()
        &&& self.skylanders_states.wf()
        &&& self.game_counts.wf()
        &&& self.game_counts.matches(self.game_states.records@)
    }

    /// A fresh store with empty maps.
    pub fn new() -> (r: Self)
        ensures
            r.wf(),
            r.console_states@ == Map::<Seq<char>, ConsoleState>::empty(),
            r.game_states@ == Map::<Seq<char>, GameState>::empty(),
            r.lego_states@ == Map::<Seq<char>, LegoDimensionState>::empty(),
            r.skylanders_states@ == Map::<Seq<char>, SkylanderState>::empty(),
    {
        let game_states: StateMap<GameState> = StateMap::new();
        let game_counts = compute_game_counts(&game_states);
        StateStore {
            console_states: StateMap::new(),
            game_states,
            lego_states: StateMap::new(),
            skylanders_states: StateMap::new(),
            game_counts,
        }
    }

    /// A store over maps loaded from disk; the counts cache is computed
    /// here, before anything can read it.
    pub fn from_parts(
        console_states: StateMap<ConsoleState>,
        game_states: StateMap<GameState>,
        lego_states: StateMap<LegoDimensionState>,
        skylanders_states: StateMap<SkylanderState>,
    ) -> (r: Self)
        requires
            console_states.wf(),
            game_states.wf(),
            lego_states.wf(),
            skylanders_states.wf(),
        ensures
            r.wf(),
            r.console_states == console_states,
            r.game_states == game_states,
            r.lego_states == lego_states,
            r.skylanders_states == skylanders_states,
    {
        let game_counts = compute_game_counts(&game_states);
        StateStore { console_states, game_states, lego_states, skylanders_states, game_counts }
    }

    /// Writes one game state record and recomputes the counts cache, so
    /// reads of the aggregates reflect the change at once, before any
    /// debounced flush happens.
    pub fn set_game_state(&mut self, rec: GameState)
        requires
            old(self).wf(),
        ensures
            final(self).wf(),
            final(self).game_states@ == old(self).game_states@.insert(rec.game_id@, rec),
            final(self).console_states == old(self).console_states,
            final(self).lego_states == old(self).lego_states,
            final(self).skylanders_states == old(self).skylanders_states,
    {
        self.game_states.upsert(rec);
        self.game_counts = compute_game_counts(&self.game_states);
    }

    /// Recomputes the per-console aggregate counts from the game state
    /// map. The setters and the import path already do this on every
    /// mutation; a caller that edits the map directly calls it afterwards.
    pub fn invalidate_game_counts_cache(&mut self)
        requires
            old(self).game_states.wf(),
        ensures
            final(self).console_states == old(self).console_states,
            final(self).game_states == old(self).game_states,
            final(self).lego_states == old(self).lego_states,
            final(self).skylanders_states == old(self).skylanders_states,
            final(self).game_counts.wf(),
            final(self).game_counts.matches(final(self).game_states.records@),
    {
        self.game_counts = compute_game_counts(&self.game_states);
    }

    /// Creates a blank game state the first time a game is displayed; an
    /// existing record is untouched.
    pub fn ensure_game_state(&mut self, id: &String)
        requires
            old(self).wf(),
        ensures
            final(self).wf(),
            final(self).console_states == old(self).console_states,
            final(self).lego_states == old(self).lego_states,
            final(self).skylanders_states == old(self).skylanders_states,
            old(self).game_states@.dom().contains(id@) ==> final(self).game_states@ == old(
                self,
            ).game_states@,
            !old(self).game_states@.dom().contains(id@) ==> exists|rec: GameState|
                rec.skey() == id@ && #[trigger] rec.is_blank() && final(self).game_states@ == old(
                    self,
                ).game_states@.insert(id@, rec),
    {
        self.game_states.ensure_default(id);
        self.game_counts = compute_game_counts(&self.game_states);
    }

    /// Creates a blank console state the first time a console is
    /// displayed; an existing record is untouched.
    pub fn ensure_console_state(&mut self, id: &String)
        requires
            old(self).wf(),
        ensures
            final(self).wf(),
            final(self).game_states == old(self).game_states,
            final(self).game_counts == old(self).game_counts,
            final(self).lego_states == old(self).lego_states,
            final(self).skylanders_states == old(self).skylanders_states,
            old(self).console_states@.dom().contains(id@) ==> final(self).console_states == old(
                self,
            ).console_states,
            !old(self).console_states@.dom().contains(id@) ==> exists|rec: ConsoleState|
                rec.skey() == id@ && #[trigger] rec.is_blank() && final(self).console_states@
                    == old(self).console_states@.insert(id@, rec),
    {
        self.console_states.ensure_default(id);
    }

    /// Creates a blank figure state the first time a figure is displayed;
    /// an existing record is untouched.
    pub fn ensure_lego_state(&mut self, id: &String)
        requires
            old(self).wf(),
        ensures
            final(self).wf(),
            final(self).console_states == old(self).console_states,
            final(self).game_states == old(self).game_states,
            final(self).game_counts == old(self).game_counts,
            final(self).skylanders_states == old(self).skylanders_states,
            old(self).lego_states@.dom().contains(id@) ==> final(self).lego_states == old(
                self,
            ).lego_states,
            !old(self).lego_states@.dom().contains(id@) ==> exists|rec: LegoDimensionState|
                rec.skey() == id@ && #[trigger] rec.is_blank() && final(self).lego_states@ == old(
                    self,
                ).lego_states@.insert(id@, rec),
    {
        self.lego_states.ensure_default(id);
    }

    /// Creates a blank Skylander state the first time one is displayed; an
    /// existing record is untouched.
    pub fn ensure_skylander_state(&mut self, id: &String)
        requires
            old(self).wf(),
        ensures
            final(self).wf(),
            final(self).console_states == old(self).console_states,
            final(self).game_states == old(self).game_states,
            final(self).game_counts == old(self).game_counts,
            final(self).lego_states == old(self).lego_states,
            old(self).skylanders_states@.dom().contains(id@) ==> final(self).skylanders_states
                == old(self).skylanders_states,
            !old(self).skylanders_states@.dom().contains(id@) ==> exists|rec: SkylanderState|
                rec.skey() == id@ && #[trigger] rec.is_blank() && final(self).skylanders_states@
                    == old(self).skylanders_states@.insert(id@, rec),
    {
        self.skylanders_states.ensure_default(id);
    }

    /// Writes one console state record.
    pub fn set_console_state(&mut self, rec: ConsoleState)
        requires
            old(self).wf(),
        ensures
            final(self).wf(),
            final(self).console_states@ == old(self).console_states@.insert(rec.console_id@, rec),
            final(self).game_states == old(self).game_states,
            final(self).lego_states == old(self).lego_states,
            final(self).skylanders_states == old(self).skylanders_states,
    {
        self.console_states.upsert(rec);
    }

    /// Writes one LEGO Dimensions state record.
    pub fn set_lego_state(&mut self, rec: LegoDimensionState)
        requires
            old(self).wf(),
        ensures
            final(self).wf(),
            final(self).lego_states@ == old(self).lego_states@.insert(rec.figure_id@, rec),
            final(self).console_states == old(self).console_states,
            final(self).game_states == old(self).game_states,
            final(self).skylanders_states == old(self).skylanders_states,
    {
        self.lego_states.upsert(rec);
    }

    /// Writes one Skylander state record.
    pub fn set_skylander_state(&mut self, rec: SkylanderState)
        requires
            old(self).wf(),
        ensures
            final(self).wf(),
            final(self).skylanders_states@ == old(self).skylanders_states@.insert(
                rec.skylander_id@,
                rec,
            ),
            final(self).console_states == old(self).console_states,
            final(self).game_states == old(self).game_states,
            final(self).lego_states == old(self).lego_states,
    {
        self.skylanders_states.upsert(rec);
    }
}

/// The name of the per-console game state file, relative to the state
/// directory: the console id with a `.json` extension.
pub fn get_state_file_path(console_id: &str) -> (r: String)
    ensures
        r@ == console_id@ + ".json"@,
{
    let mut s = console_id.to_owned();
    s.append(".json");
    s
}

/// The name of the console state file, relative to the state directory.
pub fn get_console_states_file_path() -> (r: String)
    ensures
        r@ == "consoles.json"@,
{
    "consoles.json".to_owned()
}

/// Builds the export document: the version tag, the caller's timestamp,
/// and the full contents of every state map, game states grouped by their
/// derived console id.
pub fn export_data(store: &StateStore, export_date: String) -> (doc: ExportData)
    requires
        store.wf(),
    ensures
        doc.version@ == "1.0"@,
        doc.export_date == export_date,
        doc.console_states@ == store.console_states.records@,
        doc.lego_dimensions_states@ == store.lego_states.records@,
        doc.skylanders_states@ == store.skylanders_states.records@,
        export_games_ok(doc.consoles@, store.game_states.records@),
{
    let recs = &store.game_states.records;
    let n = recs.len();
    let mut cids: Vec<String> = Vec::new();
    let mut r: usize = 0;
    while r < n
        invariant
            n == recs@.len(),
            r <= n,
            forall|c1: int, c2: int|
                0 <= c1 < c2 < cids@.len() ==> (#[trigger] cids@[c1])@ != (#[trigger] cids@[c2])@,
            forall|r2: int|
                0 <= r2 < r ==> exists|c: int|
                    0 <= c < cids@.len() && (#[trigger] cids@[c])@ == console_of(
                        (#[trigger] recs@[r2]).game_id@,
                    ),
        decreases n - r,
    {
        let cid = get_console_from_id(recs[r].game_id.as_str());
        let m = cids.len();
        let mut c: usize = 0;
        let mut found: bool = false;
        while !found && c < m
            invariant
                m == cids@.len(),
                c <= m,
                cid@ == console_of(recs@[r as int].game_id@),
                found ==> c < m && cids@[c as int]@ == cid@,
                forall|c2: int| 0 <= c2 < c ==> (#[trigger] cids@[c2])@ != cid@,
            decreases 2 * (m - c) + (if found {
                0int
            } else {
                1int
            }),
        {
            if str_eq(cids[c].as_str(), cid) {
                found = true;
            } else {
                c = c + 1;
            }
        }
        let ghost oldc = cids@;
        if !found {
            cids.push(cid.to_owned());
            proof {
                assert(cids@.drop_last() =~= oldc);
                assert(cids@.last()@ == cid@);
                assert forall|c1: int, c2: int|
                    0 <= c1 < c2 < cids@.len() implies (#[trigger] cids@[c1])@ != (
                #[trigger] cids@[c2])@ by {
                    assert(cids@[c1] == oldc[c1]);
                    if c2 < cids@.len() - 1 {
                        assert(cids@[c2] == oldc[c2]);
                    } else {
                        assert(cids@[c2]@ == cid@);
                        assert(oldc[c1]@ != cid@);
                    }
                };
            }
        }
        proof {
            assert forall|r2: int| 0 <= r2 < r + 1 implies exists|cx: int|
                0 <= cx < cids@.len() && (#[trigger] cids@[cx])@ == console_of(
                    (#[trigger] recs@[r2]).game_id@,
                ) by {
                if r2 < r as int {
                    let cx = choose|cx: int|
                        0 <= cx < oldc.len() && (#[trigger] oldc[cx])@ == console_of(
                            (#[trigger] recs@[r2]).game_id@,
                        );
                    assert(cids@[cx] == oldc[cx]);
                    assert(cids@[cx]@ == console_of(recs@[r2].game_id@));
                } else {
                    if found {
                        assert(cids@[c as int]@ == console_of(recs@[r2].game_id@));
                    } else {
                        assert(cids@[cids@.len() - 1]@ == console_of(recs@[r2].game_id@));
                    }
                }
            };
        }
        r = r + 1;
    }
    proof {
        assert forall|r2: int| 0 <= r2 < n implies exists|cx: int|
            0 <= cx < cids@.len() && (#[trigger] cids@[cx])@ == console_of(
                (#[trigger] recs@[r2]).game_id@,
            ) by {
            assert(0 <= r2 < r);
            let cw = choose|cx: int|
                0 <= cx < cids@.len() && (#[trigger] cids@[cx])@ == console_of(
                    (#[trigger] recs@[r2]).game_id@,
                );
            assert(0 <= cw < cids@.len() && cids@[cw]@ == console_of(recs@[r2].game_id@));
        };
    }
    let mut groups: Vec<ConsoleExportData> = Vec::new();
    let cm = cids.len();
    let mut c: usize = 0;
    while c < cm
        invariant
            n == recs@.len(),
            cm == cids@.len(),
            c <= cm,
            groups@.len() == c,
            forall|g: int|
                0 <= g < c ==> (#[trigger] groups@[g]).console_id@ == cids@[g]@,
            group_entries_ok(groups@, recs@, c as int),
            group_covers_ok(groups@, recs@, c as int),
        decreases cm - c,
    {
        let cid = &cids[c];
        let ghost cidv = cid@;
        let mut games: Vec<GameState> = Vec::new();
        let mut r2: usize = 0;
        while r2 < n
            invariant
                n == recs@.len(),
                r2 <= n,
                cid@ == cidv,
                forall|i: int|
                    0 <= i < games@.len() ==> (exists|rx: int|
                        0 <= rx < n && #[trigger] recs@[rx] == games@[i]) && console_of(
                        (#[trigger] games@[i]).game_id@,
                    ) == cidv,
                forall|rx: int|
                    0 <= rx < r2 && console_of((#[trigger] recs@[rx]).game_id@) == cidv
                        ==> in_keys(games@, recs@[rx].skey()),
            decreases n - r2,
        {
            let rc = get_console_from_id(recs[r2].game_id.as_str());
            if str_eq(rc, cid.as_str()) {
                let ghost gbefore = games@;
                games.push(recs[r2].clone());
                proof {
                    assert(games@.drop_last() =~= gbefore);
                    assert(games@.last() == recs@[r2 as int]);
                    assert forall|rx: int|
                        0 <= rx < r2 + 1 && console_of((#[trigger] recs@[rx]).game_id@) == cidv
                            implies in_keys(games@, recs@[rx].skey()) by {
                        if rx < r2 as int {
                            let i = choose|i: int|
                                0 <= i < gbefore.len() && (#[trigger] gbefore[i]).skey()
                                    == recs@[rx].skey();
                            assert(games@[i] == gbefore[i]);
                            assert(games@[i].skey() == recs@[rx].skey());
                        } else {
                            assert(games@[games@.len() - 1].skey() == recs@[rx].skey());
                        }
                    };
                }
            } else {
                proof {
                    assert(console_of(recs@[r2 as int].game_id@) != cidv);
                }
            }
            r2 = r2 + 1;
        }
        let ghost groups_before = groups@;
        groups.push(ConsoleExportData { console_id: cid.clone(), games });
        proof {
            assert(groups@.drop_last() =~= groups_before);
            assert(groups@.last().console_id@ == cids@[c as int]@);
            assert(groups@.last().games@ == games@);
            assert(group_entries_ok(groups@, recs@, c + 1)) by {
                assert forall|g: int, i: int| #![trigger groups@[g].games@[i]]
                    0 <= g < c + 1 && 0 <= i < groups@[g].games@.len() implies (exists|r2: int|
                    0 <= r2 < recs@.len() && #[trigger] recs@[r2] == groups@[g].games@[i])
                    && console_of(groups@[g].games@[i].game_id@) == groups@[g].console_id@ by {
                    if g < c as int {
                        assert(groups@[g] == groups_before[g]);
                        assert(groups_before[g].games@[i] == groups@[g].games@[i]);
                    } else {
                        assert(groups@[g] == groups@.last());
                        assert(groups@[g].games@ == games@);
                        assert(groups@[g].games@[i] == games@[i]);
                        assert(groups@[g].console_id@ == cidv);
                    }
                };
            };
            assert(group_covers_ok(groups@, recs@, c + 1)) by {
                assert forall|g: int, r2: int| #![trigger groups@[g], recs@[r2]]
                    0 <= g < c + 1 && 0 <= r2 < recs@.len() && console_of(recs@[r2].game_id@)
                    == groups@[g].console_id@ implies in_keys(
                    groups@[g].games@,
                    recs@[r2].skey(),
                ) by {
                    if g < c as int {
                        assert(groups@[g] == groups_before[g]);
                        assert(in_keys(groups_before[g].games@, recs@[r2].skey()));
                    } else {
                        assert(groups@[g].console_id@ == cidv);
                        assert(groups@[g].games@ == games@);
                        assert(in_keys(games@, recs@[r2].skey()));
                    }
                };
            };
        }
        c = c + 1;
    }
    let mut console_states: Vec<ConsoleState> = Vec::new();
    let version = "1.0".to_owned();
    proof {
        assert forall|r2: int| 0 <= r2 < n implies in_group_keys(
            groups@,
            (#[trigger] recs@[r2]).skey(),
        ) by {
            let cx = choose|cx: int|
                0 <= cx < cids@.len() && (#[trigger] cids@[cx])@ == console_of(recs@[r2].game_id@);
            assert(groups@[cx].console_id@ == cids@[cx]@);
            assert(in_keys(groups@[cx].games@, recs@[r2].skey()));
        };
        assert forall|g1: int, g2: int|
            0 <= g1 < g2 < groups@.len() implies (#[trigger] groups@[g1]).console_id@ != (
        #[trigger] groups@[g2]).console_id@ by {
            assert(groups@[g1].console_id@ == cids@[g1]@);
            assert(groups@[g2].console_id@ == cids@[g2]@);
        };
    }
    ExportData {
        version,
        export_date,
        console_states: store.console_states.to_vec(),
        consoles: groups,
        lego_dimensions_states: store.lego_states.to_vec(),
        skylanders_states: store.skylanders_states.to_vec(),
    }
}

/// Applies an import document to the store: every record it contains
/// overwrites the in-memory record with the same id, whole; ids it does
/// not mention keep their records. Sections the document leaves empty
/// leave the corresponding maps untouched. The counts cache is recomputed
/// from the merged game states.
pub fn import_data(store: &mut StateStore, doc: &ExportData)
    requires
        old(store).wf(),
    ensures
        final(store).wf(),
        final(store).console_states@ == merge(old(store).console_states@, doc.console_states@),
        final(store).game_states@ == merge_groups(old(store).game_states@, doc.consoles@),
        final(store).lego_states@ == merge(old(store).lego_states@, doc.lego_dimensions_states@),
        final(store).skylanders_states@ == merge(
            old(store).skylanders_states@,
            doc.skylanders_states@,
        ),
{
    let ghost old_console = store.console_states@;
    let n1 = doc.console_states.len();
    let mut i: usize = 0;
    while i < n1
        invariant
            store.console_states.wf(),
            store.game_states == old(store).game_states,
            store.lego_states == old(store).lego_states,
            store.skylanders_states == old(store).skylanders_states,
            n1 == doc.console_states@.len(),
            i <= n1,
            store.console_states@ == merge(old_console, doc.console_states@.take(i as int)),
        decreases n1 - i,
    {
        let rec = doc.console_states[i].clone();
        store.console_states.upsert(rec);
        proof {
            let t = doc.console_states@.take(i + 1);
            assert(t.drop_last() =~= doc.console_states@.take(i as int));
            assert(t.last() == doc.console_states@[i as int]);
        }
        i = i + 1;
    }
    proof {
        assert(doc.console_states@.take(n1 as int) =~= doc.console_states@);
    }
    let ghost old_games = store.game_states@;
    let gn = doc.consoles.len();
    let mut g: usize = 0;
    while g < gn
        invariant
            store.console_states@ == merge(old_console, doc.console_states@),
            store.console_states.wf(),
            store.game_states.wf(),
            store.lego_states == old(store).lego_states,
            store.skylanders_states == old(store).skylanders_states,
            gn == doc.consoles@.len(),
            g <= gn,
            store.game_states@ == merge_groups(old_games, doc.consoles@.take(g as int)),
        decreases gn - g,
    {
        let group = &doc.consoles[g];
        let m = group.games.len();
        let ghost before_group = store.game_states@;
        let mut j: usize = 0;
        while j < m
            invariant
                store.console_states@ == merge(old_console, doc.console_states@),
                store.console_states.wf(),
                store.game_states.wf(),
                store.lego_states == old(store).lego_states,
                store.skylanders_states == old(store).skylanders_states,
                group == &doc.consoles@[g as int],
                m == group.games@.len(),
                j <= m,
                store.game_states@ == merge(before_group, group.games@.take(j as int)),
            decreases m - j,
        {
            let rec = group.games[j].clone();
            store.game_states.upsert(rec);
            proof {
                let t = group.games@.take(j + 1);
                assert(t.drop_last() =~= group.games@.take(j as int));
                assert(t.last() == group.games@[j as int]);
            }
            j = j + 1;
        }
        proof {
            assert(group.games@.take(m as int) =~= group.games@);
            let t = doc.consoles@.take(g + 1);
            assert(t.drop_last() =~= doc.consoles@.take(g as int));
            assert(t.last() == doc.consoles@[g as int]);
            assert(store.game_states@ == merge_groups(old_games, doc.consoles@.take(g + 1)));
        }
        g = g + 1;
    }
    proof {
        assert(doc.consoles@.take(gn as int) =~= doc.consoles@);
    }
    let ghost old_lego = store.lego_states@;
    let n2 = doc.lego_dimensions_states.len();
    let mut i2: usize = 0;
    while i2 < n2
        invariant
            store.console_states@ == merge(old_console, doc.console_states@),
            store.console_states.wf(),
            store.game_states@ == merge_groups(old_games, doc.consoles@),
            store.game_states.wf(),
            store.lego_states.wf(),
            store.skylanders_states == old(store).skylanders_states,
            n2 == doc.lego_dimensions_states@.len(),
            i2 <= n2,
            store.lego_states@ == merge(old_lego, doc.lego_dimensions_states@.take(i2 as int)),
        decreases n2 - i2,
    {
        let rec = doc.lego_dimensions_states[i2].clone();
        store.lego_states.upsert(rec);
        proof {
            let t = doc.lego_dimensions_states@.take(i2 + 1);
            assert(t.drop_last() =~= doc.lego_dimensions_states@.take(i2 as int));
            assert(t.last() == doc.lego_dimensions_states@[i2 as int]);
        }
        i2 = i2 + 1;
    }
    proof {
        assert(doc.lego_dimensions_states@.take(n2 as int) =~= doc.lego_dimensions_states@);
    }
    let ghost old_sky = store.skylanders_states@;
    let n3 = doc.skylanders_states.len();
    let mut i3: usize = 0;
    while i3 < n3
        invariant
            store.console_states@ == merge(old_console, doc.console_states@),
            store.console_states.wf(),
            store.game_states@ == merge_groups(old_games, doc.consoles@),
            store.game_states.wf(),
            store.lego_states@ == merge(old_lego, doc.lego_dimensions_states@),
            store.lego_states.wf(),
            store.skylanders_states.wf(),
            n3 == doc.skylanders_states@.len(),
            i3 <= n3,
            store.skylanders_states@ == merge(old_sky, doc.skylanders_states@.take(i3 as int)),
        decreases n3 - i3,
    {
        let rec = doc.skylanders_states[i3].clone();
        store.skylanders_states.upsert(rec);
        proof {
            let t = doc.skylanders_states@.take(i3 + 1);
            assert(t.drop_last() =~= doc.skylanders_states@.take(i3 as int));
            assert(t.last() == doc.skylanders_states@[i3 as int]);
        }
        i3 = i3 + 1;
    }
    proof {
        assert(doc.skylanders_states@.take(n3 as int) =~= doc.skylanders_states@);
    }
    store.game_counts = compute_game_counts(&store.game_states);
}

} // verus!

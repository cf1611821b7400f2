//! The state store, aggregate counts, file names, and the import/export
//! gateway: round trip, idempotence, overwrite-by-id, untouched sections.

use memory_pak::ConsoleState;
use memory_pak::GameState;
use memory_pak::LegoDimensionState;
use memory_pak::SkylanderState;
use memory_pak::StateStore;
use memory_pak::export_data;
use memory_pak::get_console_states_file_path;
use memory_pak::get_state_file_path;
use memory_pak::import_data;

fn game_state(id: &str, owned: bool, favorite: bool, wishlist: bool, notes: &str) -> GameState {
    GameState {
        game_id: id.to_string(),
        owned,
        favorite,
        wishlist,
        notes: notes.to_string(),
    }
}

fn console_state(id: &str, owned: bool, notes: &str) -> ConsoleState {
    ConsoleState {
        console_id: id.to_string(),
        owned,
        favorite: false,
        wishlist: false,
        notes: notes.to_string(),
    }
}

fn sample_store() -> StateStore {
    let mut store = StateStore::new();
    store.set_console_state(console_state("nes", true, "boxed"));
    store.set_console_state(console_state("snes", false, ""));
    store.set_game_state(game_state("nes-aa", true, false, false, "cart only"));
    store.set_game_state(game_state("nes-bb", false, true, true, ""));
    store.set_game_state(game_state("snes-cc", false, false, true, "wish"));
    store.set_lego_state(LegoDimensionState {
        figure_id: "lego-71200-batman".to_string(),
        owned: true,
        favorite: false,
        wishlist: false,
        notes: String::new(),
    });
    store.set_skylander_state(SkylanderState {
        skylander_id: "skylander-giants-zap-water".to_string(),
        owned: false,
        favorite: true,
        wishlist: false,
        notes: "shelf".to_string(),
    });
    store
}

fn assert_same_game(a: &GameState, b: &GameState) {
    assert_eq!(a.game_id, b.game_id);
    assert_eq!(a.owned, b.owned);
    assert_eq!(a.favorite, b.favorite);
    assert_eq!(a.wishlist, b.wishlist);
    assert_eq!(a.notes, b.notes);
}

#[test]
fn export_groups_games_by_console() {
    let store = sample_store();
    let doc = export_data(&store, "2024-01-01T00:00:00Z".to_string());
    assert_eq!(doc.version, "1.0");
    assert_eq!(doc.export_date, "2024-01-01T00:00:00Z");
    assert_eq!(doc.console_states.len(), 2);
    assert_eq!(doc.consoles.len(), 2);
    for group in &doc.consoles {
        for g in &group.games {
            assert!(g.game_id.starts_with(&group.console_id));
        }
    }
    let total: usize = doc.consoles.iter().map(|c| c.games.len()).sum();
    assert_eq!(total, 3);
}

#[test]
fn export_then_import_into_fresh_store_round_trips() {
    let store = sample_store();
    let doc = export_data(&store, "now".to_string());
    let mut fresh = StateStore::new();
    import_data(&mut fresh, &doc);
    for id in ["nes-aa", "nes-bb", "snes-cc"] {
        let original = store.game_states.get(id).unwrap();
        let restored = fresh.game_states.get(id).unwrap();
        assert_same_game(original, restored);
    }
    assert_eq!(fresh.game_states.len(), store.game_states.len());
    for id in ["nes", "snes"] {
        let original = store.console_states.get(id).unwrap();
        let restored = fresh.console_states.get(id).unwrap();
        assert_eq!(original.owned, restored.owned);
        assert_eq!(original.notes, restored.notes);
    }
    assert!(fresh.lego_states.get("lego-71200-batman").unwrap().owned);
    assert_eq!(
        fresh.skylanders_states.get("skylander-giants-zap-water").unwrap().notes,
        "shelf"
    );
}

#[test]
fn importing_twice_equals_importing_once() {
    let store = sample_store();
    let doc = export_data(&store, "now".to_string());
    let mut once = StateStore::new();
    import_data(&mut once, &doc);
    let mut twice = StateStore::new();
    import_data(&mut twice, &doc);
    import_data(&mut twice, &doc);
    assert_eq!(once.game_states.len(), twice.game_states.len());
    for rec in &once.game_states.records {
        let other = twice.game_states.get(&rec.game_id).unwrap();
        assert_same_game(rec, other);
    }
    assert_eq!(once.console_states.len(), twice.console_states.len());
    assert_eq!(once.lego_states.len(), twice.lego_states.len());
    assert_eq!(once.skylanders_states.len(), twice.skylanders_states.len());
}

#[test]
fn import_overwrites_whole_record_by_id() {
    let mut store = sample_store();
    let doc = export_data(&store, "now".to_string());
    // Mutate after export: the import must restore the exported record
    // whole, not merge fields.
    store.set_game_state(game_state("nes-aa", false, true, true, "changed"));
    import_data(&mut store, &doc);
    let restored = store.game_states.get("nes-aa").unwrap();
    assert!(restored.owned);
    assert!(!restored.favorite);
    assert!(!restored.wishlist);
    assert_eq!(restored.notes, "cart only");
}

#[test]
fn import_leaves_unmentioned_ids_and_empty_sections_alone() {
    let mut store = sample_store();
    let mut doc = export_data(&StateStore::new(), "now".to_string());
    doc.console_states.push(console_state("n64", true, "new"));
    // The document has one console state, no games, no figures.
    import_data(&mut store, &doc);
    assert!(store.console_states.get("n64").unwrap().owned);
    assert!(store.console_states.get("nes").unwrap().owned);
    assert_eq!(store.game_states.len(), 3);
    assert_eq!(store.lego_states.len(), 1);
    assert_eq!(store.skylanders_states.len(), 1);
}

#[test]
fn counts_follow_game_state_changes() {
    let store = sample_store();
    let (owned, favorite, wishlist) = store.game_counts.get("nes");
    assert_eq!((owned, favorite, wishlist), (1, 1, 1));
    let (s_owned, s_favorite, s_wishlist) = store.game_counts.get("snes");
    assert_eq!((s_owned, s_favorite, s_wishlist), (0, 0, 1));
    let (none_owned, none_favorite, none_wishlist) = store.game_counts.get("gb");
    assert_eq!((none_owned, none_favorite, none_wishlist), (0, 0, 0));
}

#[test]
fn counts_update_immediately_on_mutation() {
    let mut store = sample_store();
    store.set_game_state(game_state("nes-dd", true, true, false, ""));
    let (owned, favorite, _) = store.game_counts.get("nes");
    assert_eq!(owned, 2);
    assert_eq!(favorite, 2);
}

#[test]
fn ensure_creates_blank_state_once() {
    let mut store = StateStore::new();
    store.ensure_game_state(&"nes-aa".to_string());
    {
        let rec = store.game_states.get("nes-aa").unwrap();
        assert!(!rec.owned && !rec.favorite && !rec.wishlist);
        assert!(rec.notes.is_empty());
    }
    store.set_game_state(game_state("nes-aa", true, false, false, "kept"));
    store.ensure_game_state(&"nes-aa".to_string());
    let rec = store.game_states.get("nes-aa").unwrap();
    assert!(rec.owned);
    assert_eq!(rec.notes, "kept");
}

#[test]
fn state_file_names() {
    assert_eq!(get_state_file_path("nes"), "nes.json");
    assert_eq!(get_state_file_path("gbc"), "gbc.json");
    assert_eq!(get_console_states_file_path(), "consoles.json");
}

#[test]
fn upsert_replaces_by_key_without_growing() {
    let mut store = StateStore::new();
    store.set_game_state(game_state("nes-aa", false, false, false, "a"));
    store.set_game_state(game_state("nes-aa", true, false, false, "b"));
    assert_eq!(store.game_states.len(), 1);
    assert_eq!(store.game_states.get("nes-aa").unwrap().notes, "b");
}

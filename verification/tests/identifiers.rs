//! Derived identifiers: slugs, figure and Skylander ids, stable game ids,
//! year parsing, and catalog file-name mapping.

use memory_pak::GameRecord;
use memory_pak::LegoDimensionFigure;
use memory_pak::Skylander;
use memory_pak::figure_id;
use memory_pak::games_from_records;
use memory_pak::generate_stable_id;
use memory_pak::get_console_from_id;
use memory_pak::map_filename_to_console_id;
use memory_pak::parse_year_from_iso_date;
use memory_pak::skylander_id;
use memory_pak::slugify;

fn figure(name: &str, pack_id: &str) -> LegoDimensionFigure {
    LegoDimensionFigure {
        name: name.to_string(),
        category: "Character".to_string(),
        year: 15,
        pack_id: pack_id.to_string(),
    }
}

#[test]
fn slugify_lowers_collapses_and_trims() {
    assert_eq!(slugify("Batman"), "batman");
    assert_eq!(slugify("  The  Lord -- of the Rings!  "), "the-lord-of-the-rings");
    assert_eq!(slugify("71344"), "71344");
    assert_eq!(slugify("!!!"), "");
    assert_eq!(slugify(""), "");
}

#[test]
fn figure_id_is_namespace_pack_and_name() {
    let id = figure_id(&figure("Batman", "71344"));
    assert_eq!(id, "lego-71344-batman");
}

#[test]
fn figure_id_collapses_punctuation_and_spaces() {
    let id = figure_id(&figure("  Bat -- man! ", " 713 44 "));
    assert_eq!(id, "lego-713-44-bat-man");
}

#[test]
fn figure_id_drops_empty_segments() {
    let id = figure_id(&figure("---", "71344"));
    assert_eq!(id, "lego-71344-");
}

#[test]
fn skylander_id_is_namespace_game_name_category() {
    let s = Skylander {
        name: "Spyro".to_string(),
        game: "Spyro's Adventure".to_string(),
        base_color: "Green".to_string(),
        category: "Magic".to_string(),
    };
    assert_eq!(skylander_id(&s), "skylander-spyro-s-adventure-spyro-magic");
}

#[test]
fn stable_id_keeps_console_prefix() {
    let id = generate_stable_id("nes", "Super Mario Bros.");
    assert!(id.starts_with("nes-"));
    assert_eq!(get_console_from_id(&id), "nes");
}

#[test]
fn stable_id_exact_values() {
    assert_eq!(
        generate_stable_id("nes", "Super Mario Bros."),
        "nes-63e91a4e98bf0caa"
    );
    assert_eq!(generate_stable_id("gb", "Tetris"), "gb-402b49965c361929");
}

#[test]
fn stable_id_is_deterministic() {
    let a = generate_stable_id("snes", "Chrono Trigger");
    let b = generate_stable_id("snes", "Chrono Trigger");
    assert_eq!(a, b);
}

#[test]
fn stable_id_differs_for_different_titles() {
    let a = generate_stable_id("snes", "Chrono Trigger");
    let b = generate_stable_id("snes", "Secret of Mana");
    assert_ne!(a, b);
}

#[test]
fn console_from_id_without_hyphen_is_whole_id() {
    assert_eq!(get_console_from_id("nes"), "nes");
    assert_eq!(get_console_from_id(""), "");
}

#[test]
fn console_from_id_stops_at_first_hyphen() {
    assert_eq!(get_console_from_id("gb-12ab-34"), "gb");
}

#[test]
fn parse_year_takes_leading_segment() {
    assert_eq!(parse_year_from_iso_date("1996-03-31"), 1996);
    assert_eq!(parse_year_from_iso_date("2023"), 2023);
}

#[test]
fn parse_year_accepts_one_leading_plus() {
    assert_eq!(parse_year_from_iso_date("+1996"), 1996);
    assert_eq!(parse_year_from_iso_date("+1996-03-31"), 1996);
    assert_eq!(parse_year_from_iso_date("+"), 0);
    assert_eq!(parse_year_from_iso_date("++3"), 0);
}

#[test]
fn parse_year_rejects_bad_input() {
    assert_eq!(parse_year_from_iso_date(""), 0);
    assert_eq!(parse_year_from_iso_date("abc"), 0);
    assert_eq!(parse_year_from_iso_date("19x6-01-01"), 0);
    assert_eq!(parse_year_from_iso_date("1+2"), 0);
    assert_eq!(parse_year_from_iso_date("-1996"), 0);
    assert_eq!(parse_year_from_iso_date("99999999999-01-01"), 0);
}

#[test]
fn duplicate_records_collapse_to_one_game() {
    let records = vec![
        GameRecord {
            title: "Tetris".to_string(),
            publisher: "Bullet-Proof".to_string(),
            release_date: Some("1989-06-14".to_string()),
        },
        GameRecord {
            title: "Tetris".to_string(),
            publisher: "Nintendo".to_string(),
            release_date: Some("1989-06-14".to_string()),
        },
    ];
    let raw = games_from_records("gb", &records);
    assert_eq!(raw.len(), 2);
    assert_eq!(raw[0].id, raw[1].id);
    let games = memory_pak::dedup_games_by_id(&raw);
    assert_eq!(games.len(), 1);
    // The later record wins whole, as a map insert would.
    assert_eq!(games[0].publisher, "Nintendo");
}

#[test]
fn dedup_keeps_distinct_ids_in_order() {
    let records = vec![
        GameRecord {
            title: "Tetris".to_string(),
            publisher: "Nintendo".to_string(),
            release_date: None,
        },
        GameRecord {
            title: "Super Mario Land".to_string(),
            publisher: "Nintendo".to_string(),
            release_date: None,
        },
    ];
    let raw = games_from_records("gb", &records);
    let games = memory_pak::dedup_games_by_id(&raw);
    assert_eq!(games.len(), 2);
    assert_eq!(games[0].title, "Tetris");
    assert_eq!(games[1].title, "Super Mario Land");
}

#[test]
fn filename_mapping_covers_long_names() {
    assert_eq!(map_filename_to_console_id("gameboy"), Some("gb"));
    assert_eq!(map_filename_to_console_id("gameboycolor"), Some("gbc"));
    assert_eq!(map_filename_to_console_id("gameboyadvance"), Some("gba"));
    assert_eq!(map_filename_to_console_id("nintendods"), Some("ds"));
    assert_eq!(map_filename_to_console_id("nintendo3ds"), Some("3ds"));
    assert_eq!(map_filename_to_console_id("playstation"), Some("ps1"));
    assert_eq!(map_filename_to_console_id("playstation2"), Some("ps2"));
    assert_eq!(map_filename_to_console_id("playstation3"), Some("ps3"));
}

#[test]
fn filename_mapping_passes_other_names_through() {
    assert_eq!(map_filename_to_console_id("nes"), Some("nes"));
    assert_eq!(map_filename_to_console_id("dreamcast"), Some("dreamcast"));
}

#[test]
fn games_from_records_derive_ids_and_years() {
    let records = vec![
        GameRecord {
            title: "Super Mario Bros.".to_string(),
            publisher: "Nintendo".to_string(),
            release_date: Some("1985-09-13".to_string()),
        },
        GameRecord {
            title: "Metroid".to_string(),
            publisher: "Nintendo".to_string(),
            release_date: None,
        },
    ];
    let games = games_from_records("nes", &records);
    assert_eq!(games.len(), 2);
    assert_eq!(games[0].title, "Super Mario Bros.");
    assert_eq!(games[0].year, 1985);
    assert_eq!(games[0].console_id, "nes");
    assert_eq!(games[0].id, generate_stable_id("nes", "Super Mario Bros."));
    assert_eq!(games[1].year, 0);
    assert_eq!(get_console_from_id(&games[1].id), "nes");
}

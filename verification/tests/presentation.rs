//! The presentation engine: search, filters, sort orders, pagination.

use memory_pak::Console;
use memory_pak::ConsoleState;
use memory_pak::FilterOption;
use memory_pak::Game;
use memory_pak::GameState;
use memory_pak::LegoDimensionFigure;
use memory_pak::LegoDimensionState;
use memory_pak::LegoSortOption;
use memory_pak::Skylander;
use memory_pak::SkylanderState;
use memory_pak::SkylandersSortOption;
use memory_pak::SortOption;
use memory_pak::StateMap;
use memory_pak::figure_id;
use memory_pak::present_consoles;
use memory_pak::present_games;
use memory_pak::present_lego_figures;
use memory_pak::present_skylanders;
use memory_pak::skylander_id;

fn game(id: &str, title: &str, year: u32, console: &str) -> Game {
    Game {
        id: id.to_string(),
        title: title.to_string(),
        year,
        publisher: "P".to_string(),
        console_id: console.to_string(),
    }
}

fn game_state(id: &str, owned: bool, favorite: bool, wishlist: bool) -> GameState {
    GameState {
        game_id: id.to_string(),
        owned,
        favorite,
        wishlist,
        notes: String::new(),
    }
}

#[test]
fn title_sort_shows_everything_in_order() {
    let games = vec![
        game("n-1", "Zelda", 1986, "nes"),
        game("n-2", "Metroid", 1986, "nes"),
        game("n-3", "Contra", 1988, "nes"),
    ];
    let states: StateMap<GameState> = StateMap::new();
    let page = present_games(&games, &states, "all", "", FilterOption::All, SortOption::Title, 0);
    let titles: Vec<&str> = page.items.iter().map(|g| g.title.as_str()).collect();
    assert_eq!(titles, vec!["Contra", "Metroid", "Zelda"]);
    assert_eq!(page.total, 3);
    assert_eq!(page.total_pages, 1);
}

#[test]
fn year_sort_is_stable_for_ties() {
    let games = vec![
        game("n-1", "Zelda", 1986, "nes"),
        game("n-2", "Metroid", 1986, "nes"),
        game("n-3", "Contra", 1988, "nes"),
        game("n-4", "Balloon Fight", 1984, "nes"),
    ];
    let states: StateMap<GameState> = StateMap::new();
    let page = present_games(&games, &states, "all", "", FilterOption::All, SortOption::Year, 0);
    let titles: Vec<&str> = page.items.iter().map(|g| g.title.as_str()).collect();
    // The two 1986 games keep their catalog order: Zelda before Metroid.
    assert_eq!(titles, vec!["Balloon Fight", "Zelda", "Metroid", "Contra"]);
}

#[test]
fn status_sort_ranks_owned_favorite_wishlist_none() {
    let games = vec![
        game("n-1", "A", 1990, "nes"),
        game("n-2", "B", 1990, "nes"),
        game("n-3", "C", 1990, "nes"),
        game("n-4", "D", 1990, "nes"),
    ];
    let mut states: StateMap<GameState> = StateMap::new();
    states.upsert(game_state("n-2", true, false, false));
    states.upsert(game_state("n-3", false, true, false));
    states.upsert(game_state("n-4", false, false, true));
    let page = present_games(&games, &states, "all", "", FilterOption::All, SortOption::Status, 0);
    let titles: Vec<&str> = page.items.iter().map(|g| g.title.as_str()).collect();
    assert_eq!(titles, vec!["B", "C", "D", "A"]);
}

#[test]
fn search_is_case_insensitive_substring() {
    let games = vec![
        game("n-1", "Super Mario Bros.", 1985, "nes"),
        game("n-2", "Metroid", 1986, "nes"),
    ];
    let states: StateMap<GameState> = StateMap::new();
    let page = present_games(&games, &states, "all", "MAR", FilterOption::All, SortOption::Title, 0);
    assert_eq!(page.total, 1);
    assert_eq!(page.items[0].title, "Super Mario Bros.");
    let none = present_games(&games, &states, "all", "zzz", FilterOption::All, SortOption::Title, 0);
    assert_eq!(none.total, 0);
    assert_eq!(none.total_pages, 1);
    assert!(none.items.is_empty());
}

#[test]
fn search_folds_case_beyond_ascii() {
    let games = vec![
        game("gb-1", "Pokémon Red", 1996, "gb"),
        game("gb-2", "Tetris", 1989, "gb"),
    ];
    let states: StateMap<GameState> = StateMap::new();
    let page = present_games(&games, &states, "all", "POKÉ", FilterOption::All, SortOption::Title, 0);
    assert_eq!(page.total, 1);
    assert_eq!(page.items[0].title, "Pokémon Red");
    let lower = present_games(&games, &states, "all", "pokémon", FilterOption::All, SortOption::Title, 0);
    assert_eq!(lower.total, 1);
}

#[test]
fn console_selection_narrows_games() {
    let games = vec![
        game("nes-1", "A", 1990, "nes"),
        game("snes-1", "B", 1992, "snes"),
    ];
    let states: StateMap<GameState> = StateMap::new();
    let page = present_games(&games, &states, "snes", "", FilterOption::All, SortOption::Title, 0);
    assert_eq!(page.total, 1);
    assert_eq!(page.items[0].title, "B");
}

#[test]
fn filter_exclusivity_for_blank_record() {
    let games = vec![game("n-1", "A", 1990, "nes")];
    let mut states: StateMap<GameState> = StateMap::new();
    states.upsert(game_state("n-1", false, false, false));
    let shown = |f: FilterOption| {
        present_games(&games, &states, "all", "", f, SortOption::Title, 0).total
    };
    assert_eq!(shown(FilterOption::All), 1);
    assert_eq!(shown(FilterOption::NotOwned), 1);
    assert_eq!(shown(FilterOption::Owned), 0);
    assert_eq!(shown(FilterOption::Favorites), 0);
    assert_eq!(shown(FilterOption::Wishlist), 0);
}

#[test]
fn absent_record_counts_as_all_false() {
    let games = vec![game("n-1", "A", 1990, "nes")];
    let states: StateMap<GameState> = StateMap::new();
    let owned = present_games(&games, &states, "all", "", FilterOption::Owned, SortOption::Title, 0);
    assert_eq!(owned.total, 0);
    let not_owned =
        present_games(&games, &states, "all", "", FilterOption::NotOwned, SortOption::Title, 0);
    assert_eq!(not_owned.total, 1);
}

#[test]
fn pagination_boundary_101_games() {
    let mut games: Vec<Game> = Vec::new();
    for i in 0..101 {
        games.push(game(&format!("n-{i}"), &format!("Game {i:03}"), 1990, "nes"));
    }
    let states: StateMap<GameState> = StateMap::new();
    let first = present_games(&games, &states, "all", "", FilterOption::All, SortOption::Title, 0);
    assert_eq!(first.total, 101);
    assert_eq!(first.total_pages, 3);
    assert_eq!(first.items.len(), 50);
    let last = present_games(&games, &states, "all", "", FilterOption::All, SortOption::Title, 2);
    assert_eq!(last.items.len(), 1);
    assert_eq!(last.page, 2);
    // An out-of-range page request resets to the first page, not the last.
    let reset = present_games(&games, &states, "all", "", FilterOption::All, SortOption::Title, 5);
    assert_eq!(reset.page, 0);
    assert_eq!(reset.items.len(), 50);
    assert_eq!(reset.items[0].title, first.items[0].title);
}

#[test]
fn all_games_present_across_pages() {
    let mut games: Vec<Game> = Vec::new();
    for i in 0..101 {
        games.push(game(&format!("n-{i}"), &format!("Game {i:03}"), 1990, "nes"));
    }
    let states: StateMap<GameState> = StateMap::new();
    let mut seen: Vec<String> = Vec::new();
    let pages = present_games(&games, &states, "all", "", FilterOption::All, SortOption::Title, 0)
        .total_pages;
    for p in 0..pages {
        let page = present_games(&games, &states, "all", "", FilterOption::All, SortOption::Title, p);
        for g in &page.items {
            seen.push(g.id.clone());
        }
    }
    assert_eq!(seen.len(), games.len());
    for g in &games {
        assert!(seen.contains(&g.id));
    }
}

#[test]
fn console_ids_are_distinct_and_sorted() {
    let games = vec![
        game("snes-1", "A", 1992, "snes"),
        game("nes-1", "B", 1990, "nes"),
        game("snes-2", "C", 1993, "snes"),
        game("gb-1", "D", 1989, "gb"),
    ];
    let ids = memory_pak::console_ids_of_games(&games);
    assert_eq!(ids, vec!["gb", "nes", "snes"]);
}

#[test]
fn page_resets_when_search_or_selection_changes() {
    let mut state = memory_pak::ListSelection::new();
    state.set_page(2);
    state.note_query("mario", "nes");
    assert_eq!(state.page, 0);
    state.set_page(1);
    state.note_query("mario", "nes");
    assert_eq!(state.page, 1);
    state.note_query("mario", "snes");
    assert_eq!(state.page, 0);
}

#[test]
fn empty_catalog_has_one_empty_page() {
    let games: Vec<Game> = Vec::new();
    let states: StateMap<GameState> = StateMap::new();
    let page = present_games(&games, &states, "all", "", FilterOption::All, SortOption::Title, 0);
    assert_eq!(page.total, 0);
    assert_eq!(page.total_pages, 1);
    assert!(page.items.is_empty());
}

#[test]
fn consoles_page_size_is_twenty() {
    let mut consoles: Vec<Console> = Vec::new();
    for i in 0..25 {
        consoles.push(Console {
            id: format!("c{i}"),
            name: format!("Console {i:02}"),
            manufacturer: "M".to_string(),
            year: 1990,
            variant: None,
        });
    }
    let states: StateMap<ConsoleState> = StateMap::new();
    let page = present_consoles(&consoles, &states, "", FilterOption::All, SortOption::Title, 0);
    assert_eq!(page.total, 25);
    assert_eq!(page.total_pages, 2);
    assert_eq!(page.items.len(), 20);
    let second = present_consoles(&consoles, &states, "", FilterOption::All, SortOption::Title, 1);
    assert_eq!(second.items.len(), 5);
}

#[test]
fn console_search_matches_name_or_manufacturer() {
    let consoles = vec![
        Console {
            id: "nes".to_string(),
            name: "NES".to_string(),
            manufacturer: "Nintendo".to_string(),
            year: 1983,
            variant: None,
        },
        Console {
            id: "genesis".to_string(),
            name: "Genesis".to_string(),
            manufacturer: "Sega".to_string(),
            year: 1988,
            variant: None,
        },
    ];
    let states: StateMap<ConsoleState> = StateMap::new();
    let by_maker =
        present_consoles(&consoles, &states, "sega", FilterOption::All, SortOption::Title, 0);
    assert_eq!(by_maker.total, 1);
    assert_eq!(by_maker.items[0].id, "genesis");
    let by_name = present_consoles(&consoles, &states, "nes", FilterOption::All, SortOption::Title, 0);
    assert_eq!(by_name.total, 2);
}

fn lego(name: &str, category: &str, year: u8, pack: &str) -> LegoDimensionFigure {
    LegoDimensionFigure {
        name: name.to_string(),
        category: category.to_string(),
        year,
        pack_id: pack.to_string(),
    }
}

#[test]
fn lego_category_sort_breaks_ties_by_name_then_pack() {
    let figures = vec![
        lego("Wyldstyle", "Core", 15, "71200"),
        lego("Batman", "Core", 15, "71200"),
        lego("Aquaman", "Fun Pack", 16, "71237"),
    ];
    let states: StateMap<LegoDimensionState> = StateMap::new();
    let page = present_lego_figures(&figures, &states, "", FilterOption::All, LegoSortOption::Category);
    let names: Vec<&str> = page.items.iter().map(|f| f.name.as_str()).collect();
    assert_eq!(names, vec!["Batman", "Wyldstyle", "Aquaman"]);
    assert_eq!(page.total_pages, 1);
    assert_eq!(page.page, 0);
}

#[test]
fn lego_year_sort_breaks_ties_by_category_then_name() {
    let figures = vec![
        lego("Wyldstyle", "Core", 15, "71200"),
        lego("Sonic", "Level Pack", 16, "71244"),
        lego("Batman", "Core", 15, "71200"),
    ];
    let states: StateMap<LegoDimensionState> = StateMap::new();
    let page = present_lego_figures(&figures, &states, "", FilterOption::All, LegoSortOption::Year);
    let names: Vec<&str> = page.items.iter().map(|f| f.name.as_str()).collect();
    assert_eq!(names, vec!["Batman", "Wyldstyle", "Sonic"]);
}

#[test]
fn lego_filter_uses_derived_figure_id() {
    let figures = vec![lego("Batman", "Core", 15, "71200")];
    let mut states: StateMap<LegoDimensionState> = StateMap::new();
    states.upsert(LegoDimensionState {
        figure_id: figure_id(&figures[0]),
        owned: true,
        favorite: false,
        wishlist: false,
        notes: String::new(),
    });
    let owned = present_lego_figures(&figures, &states, "", FilterOption::Owned, LegoSortOption::Name);
    assert_eq!(owned.total, 1);
    let wish =
        present_lego_figures(&figures, &states, "", FilterOption::Wishlist, LegoSortOption::Name);
    assert_eq!(wish.total, 0);
}

#[test]
fn skylanders_search_covers_all_fields() {
    let skylanders = vec![
        Skylander {
            name: "Spyro".to_string(),
            game: "Spyro's Adventure".to_string(),
            base_color: "Green".to_string(),
            category: "Magic".to_string(),
        },
        Skylander {
            name: "Trigger Happy".to_string(),
            game: "Spyro's Adventure".to_string(),
            base_color: "Orange".to_string(),
            category: "Tech".to_string(),
        },
    ];
    let states: StateMap<SkylanderState> = StateMap::new();
    let by_color = present_skylanders(
        &skylanders,
        &states,
        "orange",
        FilterOption::All,
        SkylandersSortOption::Name,
    );
    assert_eq!(by_color.total, 1);
    assert_eq!(by_color.items[0].name, "Trigger Happy");
    let by_category = present_skylanders(
        &skylanders,
        &states,
        "tech",
        FilterOption::All,
        SkylandersSortOption::Name,
    );
    assert_eq!(by_category.total, 1);
}

#[test]
fn skylanders_game_sort_breaks_ties_by_name() {
    let skylanders = vec![
        Skylander {
            name: "Zap".to_string(),
            game: "Giants".to_string(),
            base_color: "Blue".to_string(),
            category: "Water".to_string(),
        },
        Skylander {
            name: "Bash".to_string(),
            game: "Giants".to_string(),
            base_color: "Brown".to_string(),
            category: "Earth".to_string(),
        },
    ];
    let states: StateMap<SkylanderState> = StateMap::new();
    let page = present_skylanders(
        &skylanders,
        &states,
        "",
        FilterOption::All,
        SkylandersSortOption::Game,
    );
    let names: Vec<&str> = page.items.iter().map(|s| s.name.as_str()).collect();
    assert_eq!(names, vec!["Bash", "Zap"]);
    let _ = skylander_id(&skylanders[0]);
}

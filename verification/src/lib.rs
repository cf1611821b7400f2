//! Verified core of a personal collection tracker for retro video games and
//! collectible figures.
//!
//! The library holds the logic of the tracker: catalog entity types and their
//! derived identifiers, per-kind maps of mutable user annotations, the list
//! presentation engine (search, filter, sort, paginate), per-console aggregate
//! counts, the debounced persistence scheduler, and the import/export
//! document gateway. All I/O (files, dialogs, the GUI frame loop) lives
//! outside, in the application shell, which exchanges plain values with this
//! crate.

mod counts;
mod game_data;
mod lego_dimensions;
mod model;
mod persistence;
mod present;
mod schedule;
mod seq_util;
mod skylanders;
mod store;
mod text;

pub use counts::ConsoleCounts;
pub use counts::CountsTable;
pub use counts::compute_game_counts;
pub use game_data::GameRecord;
pub use game_data::dedup_games_by_id;
pub use game_data::games_from_records;
pub use game_data::generate_stable_id;
pub use game_data::get_console_from_id;
pub use game_data::map_filename_to_console_id;
pub use game_data::parse_year_from_iso_date;
pub use lego_dimensions::LegoDimensionFigure;
pub use lego_dimensions::LegoDimensionState;
pub use lego_dimensions::figure_id;
pub use model::Console;
pub use model::ConsoleState;
pub use model::FilterOption;
pub use model::Game;
pub use model::GameState;
pub use model::LegoSortOption;
pub use model::SkylandersSortOption;
pub use model::SortOption;
pub use persistence::ConsoleExportData;
pub use persistence::ExportData;
pub use persistence::StateStore;
pub use persistence::export_data;
pub use persistence::get_console_states_file_path;
pub use persistence::get_state_file_path;
pub use persistence::import_data;
pub use present::ListSelection;
pub use present::Page;
pub use present::console_ids_of_games;
pub use present::present_consoles;
pub use present::present_games;
pub use present::present_lego_figures;
pub use present::present_skylanders;
pub use schedule::KindSet;
pub use schedule::SaveScheduler;
pub use schedule::StateKind;
pub use skylanders::Skylander;
pub use skylanders::SkylanderState;
pub use skylanders::skylander_id;
pub use store::KeyedState;
pub use store::StateMap;
pub use text::slugify;

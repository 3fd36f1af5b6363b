//! Settings values, reference catalogs, command files, mod load orders and
//! the game ini directive, with their rules proved.
pub mod text;
pub mod value;
pub mod gmst_map;
pub mod setting_line;
pub mod catalog;
pub mod mods;
pub mod ini;
pub mod emitter;
pub mod view_models;
pub mod search;
pub mod appearance;

pub use appearance::{EScale, ETheme};
pub use catalog::{add_defaults, append_commands, catalog_settings, command_settings, parse_commands, parse_gmsts};
pub use emitter::{ccr_commands, ccr_model_of, command_lines, command_of, CCrEEventType, CcrEvent, CcrModel};
pub use gmst_map::{Gmst, GmstMap};
pub use ini::{add_command_to_ini, get_bat_order, get_command_line, IniMerge};
pub use mods::{get_mod_file_path, get_mods_folder, refresh_bat_mods, refresh_ccr_mods, refresh_mods, EModType, ModViewModel};
pub use search::{matches_filter, matches_folded};
pub use setting_line::{split_catalog_line, split_command_line, RawSetting};
pub use value::{is_edited, parse_gmst, value_kind, value_text, EGmstValue, ParseError, ValueKind};
pub use view_models::{edited_gmsts, rebuild_vms, toggle_mod_values, update_edited, GmstViewModel};

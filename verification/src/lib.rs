pub mod values_manager;
pub mod text;
pub mod flags;
pub mod entity;
pub mod time;
pub mod parser;
pub mod settings;
pub mod name_manager;
pub mod groups;
pub mod naming;
pub mod combat;
pub mod number_formatting;
pub mod ui_settings;
pub mod upload;
pub mod metrics;
pub mod value_kind;
pub mod grouping_path;

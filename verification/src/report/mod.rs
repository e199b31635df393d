pub mod sweep;

pub use sweep::{escape_csv_field, insight_from_changes, supported_level, SupportedLevel};

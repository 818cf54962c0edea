pub mod builder;
pub mod laws;
pub mod numeral;
pub mod text;
pub mod value;

pub use builder::{parse, parse_with_conditions, Condition, ConditionKind, JsonBuilder};
pub use value::{Json, JsonValue};

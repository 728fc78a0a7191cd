//! A YAML codec: typed values to indented text, and scanner events back to typed values.

pub mod de;
pub mod event;
pub mod laws;
pub mod round_trip;
pub mod ser;
pub mod shape;
pub mod text;
pub mod value;
pub mod wrapper;

pub use de::from_str;
pub use ser::to_string;

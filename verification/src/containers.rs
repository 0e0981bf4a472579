//! The frequency containers and the mathematical model that their contracts
//! are stated over.

pub mod counts;
mod frequency_map;
mod std_calls;
mod unicode_point_map;
mod walk;

pub use frequency_map::FrequencyMap;
pub use unicode_point_map::char_to_valid_index;
pub use unicode_point_map::dense_first;
pub use unicode_point_map::is_scalar_value;
pub use unicode_point_map::UnicodePointMap;
pub use unicode_point_map::UnicodePointMapIter;
pub use unicode_point_map::DEFAULT_CONTIGUOUS_CEILING;
pub use unicode_point_map::MAXIMUM_VALID_CHAR_VALUE;

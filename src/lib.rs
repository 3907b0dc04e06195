//! Digit grouping ("thousands separators") for pre-rendered decimal numbers.
mod compose;
mod grouping;
pub mod laws;

pub use compose::{at_most_one_point, compose, custom_group, point_index, FormatGroup, GroupError};
pub use grouping::{
    group_away_from_point, group_toward_point, grouped, groupify_integer, starts_group,
    GroupDirection,
};

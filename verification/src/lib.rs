use vstd::prelude::*;

pub mod mapper;
pub mod model;
pub mod stats;
pub mod text;
pub mod time;

pub use stats::AggregationError;
pub use stats::OpponentStats;
pub use stats::OpponentStatsView;
pub use stats::Percentage;
pub use stats::lemma_empty_filter_win_rate;
pub use stats::lemma_filter_deck_idempotent;
pub use stats::lemma_group_counts_partition;
pub use stats::lemma_groups_distinct;
pub use stats::lemma_win_rate_range;

pub use mapper::Node;
pub use mapper::ParseError;
pub use mapper::map_document;
pub use mapper::parse_match;
pub use mapper::parse_season;

pub use model::Match;
pub use model::MatchResult;
pub use model::MatchType;
pub use model::MatchView;
pub use model::Season;
pub use model::SeasonView;
pub use text::parse_i64;
pub use text::parse_label_num;
pub use time::Timestamp;
pub use time::parse_timestamp;

//! A simulation engine for a continuous-time auction over one contested
//! display slot: a static pool of time-bounded, budget-capped bids is
//! resolved into a deterministic sequence of allocation events — who holds
//! the slot, what they are charged, and when the decision must be revisited.

pub mod auction;
pub mod quantity;
pub mod schema;

pub use auction::Bid;
pub use auction::find_end;
pub use auction::run_auction;
pub use auction::valid_bids;
pub use auction::winning_bid;
pub use quantity::Currency;
pub use quantity::Second;
pub use quantity::Token;
pub use quantity::SECONDS_PER_DAY;
pub use schema::hash_schema;
pub use schema::check_schema;
pub use schema::migrate_schema;
pub use schema::SchemaError;
pub use schema::SchemaTable;
pub use schema::ACCEPTED_SCHEMA_HASH;

//! Normalisation of Snowflake account identifiers into account locators.
pub mod account;

pub use account::parse_account;

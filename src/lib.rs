//! Bundle resolution over the lines of a shopping cart: an inventory of line
//! quantities, a catalog of bundle definitions, a matcher that finds the lines a
//! definition needs, and a resolver that applies the catalog in order and emits
//! one merge operation per matched definition. A small character-set check for
//! address fields sits beside it.

pub mod bundle;
pub mod charset;
pub mod inventory;
pub mod matcher;
pub mod resolver;

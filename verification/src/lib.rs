//! A typed, string-driven filter/query engine with its surrounding toolkit.
//!
//! Flat key-value string pairs (CLI flags, URL query parameters) are parsed
//! into a structured, typed query — a boolean tree of field/operator/value
//! clauses plus ordering and pagination — which can then be evaluated against
//! any collection of records through a caller-supplied field accessor.

use vstd::prelude::*;

mod assoc;
mod calendar;
mod clause;
mod dispatch;
mod parse;
mod query;
mod registry;
mod schema;
mod style;
mod table;
mod text;
mod theme;
mod util;
mod value;

pub use calendar::days_from_year;
pub use calendar::days_from_ymd;
pub use calendar::is_leap_year;
pub use clause::Clause;
pub use clause::ClauseNode;
pub use clause::eval_tree;
pub use clause::leaf_fields;
pub use dispatch::DispatchOutput;
pub use dispatch::insert_default_command;
pub use parse::ClauseGroup;
pub use parse::DriverState;
pub use parse::ParseError;
pub use parse::ParseErrorKind;
pub use parse::ParseResult;
pub use parse::QueryShape;
pub use parse::parse_key;
pub use parse::parse_operator;
pub use parse::parse_ordering;
pub use parse::parse_query;
pub use parse::parse_value;
pub use query::Dir;
pub use query::OrderBy;
pub use query::Query;
pub use query::Seekable;
pub use query::page_indices;
pub use query::sort_pairs;
pub use query::value_cmp;
pub use registry::RegistryError;
pub use registry::ResolvedTemplate;
pub use registry::TemplateRef;
pub use registry::TemplateFile;
pub use registry::TemplateRegistry;
pub use schema::SeekType;
pub use schema::SeekerSchema;
pub use style::ChainFate;
pub use style::StyleValidationError;
pub use style::StyleValue;
pub use style::Styles;
pub use table::Column;
pub use table::ResolvedWidths;
pub use table::TableSpec;
pub use table::TableSpecBuilder;
pub use table::Width;
pub use theme::AdaptiveTheme;
pub use theme::ColorMode;
pub use theme::Theme;
pub use theme::ThemeChoice;
pub use util::rgb_to_ansi256;
pub use util::rgb_to_truecolor;
pub use util::to_screaming_snake_case;
pub use util::truncate_to_width;
pub use value::ClauseValue;
pub use value::Decimal;
pub use value::Number;
pub use value::Op;
pub use value::RegexValue;
pub use value::Timestamp;
pub use value::Value;
pub use value::clause_matches;

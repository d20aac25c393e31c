//! A template formatter in the style of SmartFormat.NET: a template such as
//! `{0:choose(1|2|3):one|two|three}` is parsed into literal text and
//! placeholders, and each placeholder is rendered by the first formatter
//! extension that accepts it.
//!
//! The decisions each extension takes — which part of a format a value picks,
//! how a complex condition compares, where a substring starts — are verified
//! functions with exact contracts; the engine that walks a parsed template
//! calls them.

#![allow(non_snake_case)]

pub mod text;
pub mod error;
pub mod value;
pub mod settings;
pub mod dotnet_messages;
pub mod parsing;
pub mod number;
pub mod decimal;
pub mod formatter;
pub mod extensions;

pub use error::{Error, ParseError};
pub use value::Value;
pub use settings::{CaseSensitivity, ErrorAction, SmartSettings};
pub use formatter::{SmartFormatter, FormatterRegistry, AnyFormatter};
pub use extensions::localization::{HashMapLocalizationProvider, LocalizationFormatter, LocalizationProvider};

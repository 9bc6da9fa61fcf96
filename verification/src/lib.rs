//! Byte-oriented record, field, selector and key model shared by the tukubai
//! commands, and the decisions each command takes on it.
//!
//! Records are separated by LF (0x0A); within a record, runs of SPACE (0x20)
//! separate fields. Every other byte is data.
pub mod decimal;
pub mod delf;
pub mod digits;
pub mod field_filter;
pub mod fields;
pub mod join0;
pub mod key;
pub mod lcnt;
pub mod output;
pub mod record;
pub mod select;
pub mod selector;

pub use fields::{split_fields, FieldIter};
pub use key::{
    compare_resolved_keys, normalize_key_positions_to_one, parse_key_program, resolve_key,
    resolve_key_positions, resolve_key_with_positions, KeyAttr, KeyCompareError, KeyField,
    KeyFieldExpr, KeyItem, KeyKind, KeyOptions, KeyParseError, KeyProgram, KeyResolveError,
    ResolvedKey, ResolvedKeyField, ResolvedKeyPosition,
};
pub use output::OutputError;
pub use record::{
    is_stdin_path, FinalTermination, ParseError, ReaderOptions, RecordReader, STDIN_SOURCE_NAME,
};
pub use selector::{
    parse_selectors, resolve_selector_positions, resolve_selectors, FieldPosition, ResolvedItem,
    Selector, SelectorExpr, SelectorOptions, SelectorParseError, SelectorProgram,
    SelectorResolveError,
};

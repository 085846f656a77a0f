//! Node identifiers and cross-sentence coreference resolution for
//! constituency treebanks.
//!
//! Each sentence is a [`Tree`]. [`assign_ids`] numbers its nodes the way
//! the bracketed interchange format does (`0` for the root, `1..N` for the
//! terminals by position, `500` upwards for the other nonterminals, bottom
//! up). [`resolve_corefs`] then reads the coreference markers in the
//! nonterminals' comments, resolves each against the whole corpus and adds
//! the target's span to the `coref` feature of the terminals below the
//! marked node.

pub mod coref;
pub mod features;
pub mod ids;
pub mod text;
pub mod tree;

pub use coref::{
    CorefError, CorefErrorKind, Reference, add_coref, annotate, apply_references,
    collect_references, coref_value, format_tuple, marker_word, resolve_corefs,
    resolve_reference,
};
pub use features::{Feature, Features};
pub use ids::{FIRST_NONTERMINAL_ID, IdMap, assign_ids};
pub use text::{contains, find_char, parse_canonical, parse_usize, push_decimal, split_words};
pub use tree::{Node, Tree};

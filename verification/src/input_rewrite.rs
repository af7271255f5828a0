//! Rewriting of the input byte stream.
//!
//! `escape` parses the textual `\e`-style escape grammar of rule strings,
//! `rule` parses one `FROM:TO` rewrite rule, `rewriter` applies a rule set
//! to an incrementally arriving byte stream, and `zwsp_inserter` guards
//! digits typed right after an arrow-key sequence.

pub mod escape;
pub mod rewriter;
pub mod rule;
pub mod zwsp_inserter;

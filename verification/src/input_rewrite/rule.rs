//! One `FROM:TO` rewrite rule.
//!
//! The textual form is split at the first `:`; both halves use the escape
//! grammar of [`crate::input_rewrite::escape`]. `FROM` must denote at least
//! one byte (a literal `:` inside it is written `\x3a`); `TO` may be empty,
//! which deletes matches of `FROM`.

use vstd::prelude::*;

use crate::input_rewrite::escape::{escape_spec, parse_escaped_str, EscapeError};
use vstd::string::StrSliceExecFns;

verus! {

/// A rule as a mathematical value: the bytes it replaces and their
/// replacement.
pub struct RuleModel {
    pub from: Seq<u8>,
    pub to: Seq<u8>,
}

/// Replace occurrences of the byte sequence `from` with `to`.
#[derive(Debug, PartialEq)]
pub struct RewriteRule {
    from: Vec<u8>,
    to: Vec<u8>,
}

impl View for RewriteRule {
    type V = RuleModel;

    closed spec fn view(&self) -> RuleModel {
        RuleModel { from: self.from@, to: self.to@ }
    }
}

impl DeepView for RewriteRule {
    type V = RuleModel;

    open spec fn deep_view(&self) -> RuleModel {
        self.view()
    }
}

/// Why a rule string failed to parse.
#[derive(Debug, PartialEq, Eq, Clone, Copy)]
pub enum ParseError {
    /// No `:` separates `FROM` from `TO`.
    MissingColon,
    /// `FROM` denotes no bytes.
    EmptyFrom,
    /// One of the halves breaks the escape grammar.
    EscapeError(EscapeError),
}

/// First index `j >= i` with `s[j] == t`, or `None`.
pub open spec fn find_char(s: Seq<char>, i: int, t: char) -> Option<int>
    decreases s.len() - i,
{
    if i < 0 || i >= s.len() {
        None
    } else if s[i] == t {
        Some(i)
    } else {
        find_char(s, i + 1, t)
    }
}

proof fn lemma_find_char_is(s: Seq<char>, i: int, j: int, t: char)
    requires
        0 <= i <= j < s.len(),
        s[j] == t,
        forall|k: int| i <= k < j ==> s[k] != t,
    ensures
        find_char(s, i, t) == Some(j),
    decreases j - i,
{
    if i < j {
        lemma_find_char_is(s, i + 1, j, t);
    }
}

proof fn lemma_find_char_is_none(s: Seq<char>, i: int, t: char)
    requires
        0 <= i,
        forall|k: int| i <= k < s.len() ==> s[k] != t,
    ensures
        find_char(s, i, t) is None,
    decreases s.len() - i,
{
    if i < s.len() {
        lemma_find_char_is_none(s, i + 1, t);
    }
}

/// What parsing the rule string `s` gives: the rule's byte sequences, or
/// the first error. Errors rank: a bad `FROM` escape, then a bad `TO`
/// escape, then an empty `FROM`.
pub open spec fn rule_spec(s: Seq<char>) -> Result<RuleModel, ParseError> {
    match find_char(s, 0, ':') {
        None => Err(ParseError::MissingColon),
        Some(k) => match escape_spec(s.take(k)) {
            Err(e) => Err(ParseError::EscapeError(e)),
            Ok(from) => match escape_spec(s.skip(k + 1)) {
                Err(e) => Err(ParseError::EscapeError(e)),
                Ok(to) => if from.len() == 0 {
                    Err(ParseError::EmptyFrom)
                } else {
                    Ok(RuleModel { from, to })
                },
            },
        },
    }
}

impl RewriteRule {
    /// A rule always replaces at least one byte.
    #[verifier::type_invariant]
    pub open spec fn type_wf(self) -> bool {
        self@.from.len() >= 1
    }

    /// Parse a string in the `FROM:TO` form.
    pub fn parse(s: &str) -> (r: Result<RewriteRule, ParseError>)
        ensures
            match r {
                Ok(rule) => rule_spec(s@) == Ok::<RuleModel, ParseError>(rule@),
                Err(e) => rule_spec(s@) == Err::<RuleModel, ParseError>(e),
            },
    {
        let n = s.unicode_len();
        let mut k: usize = 0;
        let mut found = false;
        while k < n && !found
            invariant
                0 <= k <= n,
                n == s@.len(),
                forall|j: int| 0 <= j < k ==> s@[j] != ':',
                found ==> k < n && s@[k as int] == ':',
            decreases n - k, (if found {
                0int
            } else {
                1int
            }),
        {
            if s.get_char(k) == ':' {
                found = true;
            } else {
                k = k + 1;
            }
        }
        if !found {
            proof {
                lemma_find_char_is_none(s@, 0, ':');
            }
            return Err(ParseError::MissingColon);
        }
        proof {
            lemma_find_char_is(s@, 0, k as int, ':');
        }
        let from_str = s.substring_char(0, k);
        let to_str = s.substring_char(k + 1, n);
        proof {
            assert(from_str@ =~= s@.take(k as int));
            assert(to_str@ =~= s@.skip(k as int + 1));
        }
        let from = match parse_escaped_str(from_str) {
            Ok(v) => v,
            Err(e) => {
                return Err(ParseError::EscapeError(e));
            },
        };
        let to = match parse_escaped_str(to_str) {
            Ok(v) => v,
            Err(e) => {
                return Err(ParseError::EscapeError(e));
            },
        };
        if from.len() == 0 {
            return Err(ParseError::EmptyFrom);
        }
        Ok(RewriteRule { from, to })
    }

    /// The bytes this rule replaces; never empty.
    pub fn from(&self) -> (r: &[u8])
        ensures
            r@ == self@.from,
            r@.len() >= 1,
    {
        proof {
            use_type_invariant(self);
        }
        self.from.as_slice()
    }

    /// The replacement bytes; empty means "delete on match".
    pub fn to(&self) -> (r: &[u8])
        ensures
            r@ == self@.to,
    {
        self.to.as_slice()
    }
}

} // verus!

//! Validation of conclusion lines: a conclusion is either a typing judgment
//! or a bare type expression over a restricted character set.

use vstd::prelude::*;

use crate::strs::spec_split;
use crate::strs::spec_trim;
use crate::strs::split_char;
use crate::strs::trim;
use crate::strs::views;

verus! {

/// Whether std classifies a character as alphanumeric; the result depends on
/// the character alone.
pub uninterp spec fn unicode_alphanumeric(c: char) -> bool;

/// Relies on std's `char::is_alphanumeric`: the Unicode alphanumeric classes.
#[verifier::external_body]
pub(crate) fn char_alphanumeric(c: char) -> (r: bool)
    ensures
        r == unicode_alphanumeric(c),
{
    c.is_alphanumeric()
}

/// A character a conclusion type expression may hold: alphanumerics, the
/// underscore, the arrow, the lambda and the colon.
pub open spec fn is_conclusion_char(c: char) -> bool {
    unicode_alphanumeric(c) || c == '_' || c == '\u{2192}' || c == '\u{03bb}' || c == ':'
}

/// A non-empty text of conclusion characters.
pub open spec fn spec_validate_type_expr(s: Seq<char>) -> bool {
    s.len() > 0 && forall|i: int| 0 <= i < s.len() ==> is_conclusion_char(s[i])
}

/// Is `expr` a well-formed type expression for a conclusion: non-empty and
/// made of alphanumerics, `_`, the arrow, the lambda and `:` alone?
pub fn validate_type_expr(expr: &str) -> (r: bool)
    ensures
        r == spec_validate_type_expr(expr@),
{
    let n = expr.unicode_len();
    if n == 0 {
        return false;
    }
    for i in 0..n
        invariant
            n == expr@.len(),
            n > 0,
            forall|j: int| 0 <= j < i ==> is_conclusion_char(expr@[j]),
    {
        let c = expr.get_char(i);
        let ok = char_alphanumeric(c) || c == '_' || c == '\u{2192}' || c == '\u{03bb}' || c
            == ':';
        if !ok {
            proof {
                assert(!is_conclusion_char(expr@[i as int]));
            }
            return false;
        }
    }
    true
}

/// Whether a conclusion line is acceptable: a judgment split in exactly two
/// by the turnstile, or otherwise a well-formed type expression.
pub open spec fn spec_valid_conclusion(s: Seq<char>) -> bool {
    let t = spec_trim(s);
    if t.contains('\u{22a2}') {
        spec_split(t, '\u{22a2}').len() == 2
    } else {
        spec_validate_type_expr(t)
    }
}

/// Check the shape of a conclusion line: with a turnstile it must split in
/// exactly two parts; without one it must be a well-formed type expression.
pub fn validate_conclusion(conclusion: &str) -> (r: Result<(), String>)
    ensures
        r is Ok <==> spec_valid_conclusion(conclusion@),
{
    let t = trim(conclusion);
    let n = t.unicode_len();
    let ti = crate::strs::find_char(t.as_str(), '\u{22a2}');
    if ti < n {
        proof {
            crate::strs::lemma_find_ch(t@, '\u{22a2}');
            assert(t@.contains('\u{22a2}')) by {
                assert(t@[ti as int] == '\u{22a2}');
            }
        }
        let parts = split_char(t.as_str(), '\u{22a2}');
        proof {
            assert(views(parts@).len() == parts@.len());
        }
        if parts.len() != 2 {
            Err(String::from_str("Invalid conclusion typing judgment: ").concat(conclusion))
        } else {
            Ok(())
        }
    } else {
        proof {
            crate::strs::lemma_find_ch(t@, '\u{22a2}');
            assert(!t@.contains('\u{22a2}')) by {
                if t@.contains('\u{22a2}') {
                    let w = choose|w: int| 0 <= w < t@.len() && t@[w] == '\u{22a2}';
                    assert(t@[w] == '\u{22a2}');
                }
            }
        }
        if validate_type_expr(t.as_str()) {
            Ok(())
        } else {
            Err(String::from_str("Invalid conclusion type expression: ").concat(conclusion))
        }
    }
}

} // verus!

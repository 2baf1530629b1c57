//! Shell expansion of string and path fields: environment variables and
//! a leading tilde.

use vstd::prelude::*;

verus! {

/// Whether `text` has nothing to expand: no `$` and no leading `~`.
pub open spec fn has_nothing_to_expand(text: Seq<char>) -> bool {
    !text.contains('$') && !(text.len() > 0 && text[0] == '~')
}

/// Expands environment variables and a leading tilde:
/// `shellexpand::full`, `None` when it fails (an undefined variable).
///
/// What it expands to depends on the environment and the home
/// directory, so only this is claimed: a text with nothing to expand
/// comes back as it is.
#[verifier::external_body]
fn expand_full(text: &str) -> (res: Option<String>)
    ensures
        has_nothing_to_expand(text@) ==> (res is Some && res.unwrap()@ == text@),
{
    match shellexpand::full(text) {
        Ok(v) => Some(v.into_owned()),
        Err(_) => None,
    }
}

/// The value a field holds, given what expanding its raw text gave: the
/// expansion, or the raw text untouched when expansion failed.
pub fn expanded_or_raw(raw: &str, expansion: Option<String>) -> (res: String)
    ensures
        match expansion {
            Some(e) => res@ == e@,
            None => res@ == raw@,
        },
{
    match expansion {
        Some(e) => e,
        None => String::from_str(raw),
    }
}

/// Expands environment variables and the leading tilde in a string
/// field. Expansion failures (an undefined variable) leave the raw value
/// untouched rather than erroring.
pub fn shell_expanded(text: &str) -> (res: String)
    ensures
        has_nothing_to_expand(text@) ==> res@ == text@,
{
    let expansion = expand_full(text);
    expanded_or_raw(text, expansion)
}

} // verus!

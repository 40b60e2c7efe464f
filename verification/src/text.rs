//! Small text helpers: comparison of names, and the quoted form of a name in error messages.
use vstd::prelude::*;
use vstd::string::StringExecFns;

verus! {

/// What `format!("{:?}", s)` gives for a string whose characters are `s`: the text in double
/// quotes, with the characters that `char::escape_debug` escapes written as escapes.
pub uninterp spec fn debug_text(s: Seq<char>) -> Seq<char>;

/// The `Debug` form of a string, as `<str as core::fmt::Debug>::fmt` writes it.
/// Claimed: the result is `debug_text` of the argument's characters, the same for the same
/// text; what `debug_text` is on a given text is not stated here.
#[verifier::external_body]
fn debug_quoted(s: &str) -> (r: String)
    ensures
        r@ == debug_text(s@),
{
    format!("{:?}", s)
}

/// Whether two strings hold the same characters.
pub fn same_text(a: &str, b: &str) -> (r: bool)
    ensures
        r == (a@ == b@),
{
    let a_owned = a.to_owned();
    let b_owned = b.to_owned();
    a_owned == b_owned
}

/// `prefix`, then the `Debug` form of `name`, then `suffix`.
pub fn message_with_name(prefix: &str, name: &str, suffix: &str) -> (r: String)
    ensures
        r@ == prefix@ + debug_text(name@) + suffix@,
{
    let mut msg = prefix.to_owned();
    let quoted = debug_quoted(name);
    msg.append(quoted.as_str());
    msg.append(suffix);
    msg
}

} // verus!

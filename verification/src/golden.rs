//! Comparing a written-out tree with the tree that was expected.
use vstd::prelude::*;
use vstd::string::StringExecFns;

verus! {

/// `s` without the white space at its start and at its end, as `str::trim`
/// gives it.
pub uninterp spec fn trimmed(s: Seq<char>) -> Seq<char>;

/// Takes the white space off both ends of `s` with `str::trim`. What comes
/// back depends on `s` alone.
#[verifier::external_body]
fn trim(s: &str) -> (r: &str)
    ensures
        r@ == trimmed(s@),
{
    s.trim()
}

/// What is reported of two trees that differ.
pub open spec fn mismatch(actual: Seq<char>, expected: Seq<char>) -> Seq<char> {
    "Actual:\n"@ + actual + "\nExpected:\n"@ + expected + "\n"@
}

/// Compares a written-out tree with the expected one, white space at the
/// ends aside. Where they differ, both come back in one message.
pub fn match_ast(actual: &str, expected: &str) -> (r: Result<(), String>)
    ensures
        match r {
            Ok(_) => trimmed(actual@) == trimmed(expected@),
            Err(message) => {
                &&& trimmed(actual@) != trimmed(expected@)
                &&& message@ == mismatch(trimmed(actual@), trimmed(expected@))
            },
        },
{
    let actual = String::from_str(trim(actual));
    let expected = String::from_str(trim(expected));
    if actual == expected {
        Ok(())
    } else {
        let mut message = String::from_str("Actual:\n");
        message.append(actual.as_str());
        message.append("\nExpected:\n");
        message.append(expected.as_str());
        message.append("\n");
        Err(message)
    }
}

} // verus!

//! A token that no pattern can describe: the raw string, which ends at a
//! quote followed by as many hashes as stand before its opening quote.
use vstd::prelude::*;
use vstd::string::StringSliceAdditionalSpecFns;
use vstd::utf8::{
    encode_utf8_valid_utf8, is_char_boundary, length_of_first_scalar, pop_first_scalar,
    utf8_byte_ranges_bitwise, valid_utf8,
};

verus! {

/// The byte of the double quote.
pub const QUOTE: u8 = 0x22;

/// The byte of the hash.
pub const HASH: u8 = 0x23;

/// The index of the first quote in `bytes`, or the length of `bytes` if
/// there is none.
pub open spec fn first_quote(bytes: Seq<u8>) -> int
    decreases bytes.len(),
{
    if bytes.len() == 0 || bytes[0] == QUOTE {
        0
    } else {
        1 + first_quote(bytes.drop_first())
    }
}

/// Whether a quote stands at `at` in `bytes` and `hashes` hashes stand
/// right behind it.
pub open spec fn closes_at(bytes: Seq<u8>, at: int, hashes: int) -> bool {
    &&& 0 <= at
    &&& at + 1 + hashes <= bytes.len()
    &&& bytes[at] == QUOTE
    &&& forall|j: int| at < j <= at + hashes ==> bytes[j] == HASH
}

/// The first place from `from` on where a quote with `hashes` hashes
/// behind it stands in `bytes`, if there is one.
pub open spec fn first_close(bytes: Seq<u8>, from: int, hashes: int) -> Option<int>
    decreases bytes.len() - from,
{
    if from < 0 || hashes < 0 || from + 1 + hashes > bytes.len() {
        None
    } else if closes_at(bytes, from, hashes) {
        Some(from)
    } else {
        first_close(bytes, from + 1, hashes)
    }
}

/// The length of the raw string at the start of `bytes`: up to and with the
/// first quote behind the opening one that as many hashes follow as bytes
/// stand between the start and the opening quote, less one for the `r`.
/// There is none where there is no opening quote or no such closing one.
pub open spec fn raw_string_len(bytes: Seq<u8>) -> Option<int> {
    let open = first_quote(bytes);
    if open >= bytes.len() {
        None
    } else {
        let hashes = if open == 0 {
            0
        } else {
            open - 1
        };
        if open == 0 {
            Some(1)
        } else {
            match first_close(bytes, open + 1, hashes) {
                Some(at) => Some(at + 1 + hashes),
                None => None,
            }
        }
    }
}

/// The place behind a byte that is a character of its own lies between
/// two characters.
pub proof fn lemma_boundary_after_ascii(bytes: Seq<u8>, n: int)
    requires
        valid_utf8(bytes),
        0 < n <= bytes.len(),
        bytes[n - 1] <= 0x7f,
    ensures
        is_char_boundary(bytes, n),
    decreases bytes.len(),
{
    broadcast use utf8_byte_ranges_bitwise;

    let w = length_of_first_scalar(bytes);
    reveal_with_fuel(is_char_boundary, 2);
    if n > w {
        let rest = pop_first_scalar(bytes);
        assert(rest[n - w - 1] == bytes[n - 1]);
        lemma_boundary_after_ascii(rest, n - w);
    }
}

/// Measures the raw string at the start of `s`, such as `r##"..."##`: finds
/// the opening quote, and behind it the first quote that as many hashes
/// follow as precede the opening one. Answers with the length up to the last
/// of those hashes, or with `None` where the string is not closed.
pub fn parse_raw_string(s: &str) -> (r: Option<usize>)
    ensures
        r == (match raw_string_len(s.spec_bytes()) {
            Some(n) => Some(n as usize),
            None => None,
        }),
        r matches Some(n) ==> 0 < n <= s.spec_bytes().len() && is_char_boundary(
            s.spec_bytes(),
            n as int,
        ),
{
    let bytes = s.as_bytes();
    let len = bytes.len();
    let mut open: usize = 0;
    assert(bytes@.subrange(0, len as int) =~= bytes@);
    while open < len && bytes[open] != QUOTE
        invariant
            open <= len,
            len == bytes@.len(),
            first_quote(bytes@) == open + first_quote(bytes@.subrange(open as int, len as int)),
        decreases len - open,
    {
        proof {
            let here = bytes@.subrange(open as int, len as int);
            assert(here.drop_first() =~= bytes@.subrange(open + 1, len as int));
        }
        open += 1;
    }
    proof {
        broadcast use encode_utf8_valid_utf8;

        assert(valid_utf8(s.spec_bytes()));
        let here = bytes@.subrange(open as int, len as int);
        if open < len {
            assert(here[0] == bytes@[open as int]);
        }
        assert(first_quote(here) == 0);
    }
    if open >= len {
        return None;
    }
    if open == 0 {
        proof {
            lemma_boundary_after_ascii(s.spec_bytes(), 1);
        }
        return Some(1);
    }
    let hashes: usize = open - 1;
    let mut at: usize = open + 1;
    while at < len && len - at > hashes
        invariant
            open + 1 <= at,
            0 < open < len,
            len == bytes@.len(),
            bytes@ == s.spec_bytes(),
            valid_utf8(bytes@),
            first_quote(bytes@) == open,
            hashes == open - 1,
            first_close(bytes@, open + 1, hashes as int) == first_close(
                bytes@,
                at as int,
                hashes as int,
            ),
        decreases len - at,
    {
        let mut closes = bytes[at] == QUOTE;
        let mut j: usize = 0;
        while closes && j < hashes
            invariant
                j <= hashes,
                at + 1 + hashes <= len,
                len == bytes@.len(),
                closes ==> bytes@[at as int] == QUOTE && forall|k: int|
                    at < k <= at + j ==> bytes@[k] == HASH,
                !closes ==> !closes_at(bytes@, at as int, hashes as int),
            decreases hashes - j,
        {
            if bytes[at + 1 + j] != HASH {
                closes = false;
            }
            j += 1;
        }
        if closes {
            proof {
                assert(closes_at(bytes@, at as int, hashes as int));
                if hashes > 0 {
                    assert(bytes@[at + hashes] == HASH);
                }
                lemma_boundary_after_ascii(bytes@, at + 1 + hashes);
            }
            return Some(at + 1 + hashes);
        }
        at += 1;
    }
    None
}

} // verus!

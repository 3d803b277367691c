//! The lexer: cuts a text into tokens by the longest match among its rules.
use crate::node_type::NodeType;
use crate::text::{TextRange, TextUnit};
use vstd::prelude::*;
use vstd::string::StringExecFns;
use vstd::string::StringSliceAdditionalSpecFns;
use vstd::utf8::{
    decode_utf8, encode_utf8, encode_utf8_decode_utf8, encode_utf8_valid_utf8, is_char_boundary,
    is_char_boundary_iff_not_is_continuation_byte,
    is_char_boundary_start_end_of_seq, length_of_first_scalar, utf8_byte_ranges_bitwise,
    valid_utf8,
};

verus! {

/// A stretch of the text together with its kind.
#[derive(Clone, Copy, Debug, PartialEq, Eq, Structural)]
pub struct Token {
    pub ty: NodeType,
    pub range: TextRange,
}

/// Makes the compiled pattern of the `regex` crate a type that contracts
/// can speak of. Nothing is known of what is inside.
#[verifier::external_type_specification]
#[verifier::external_body]
pub struct ExRegex(regex::Regex);

/// Makes the error of the `regex` crate a type that contracts can speak of.
/// Nothing is known of what is inside.
#[verifier::external_type_specification]
#[verifier::external_body]
pub struct ExRegexError(regex::Error);

/// What `Regex::new` makes of `pattern`: the compiled pattern, or the
/// reason why `pattern` does not compile.
pub uninterp spec fn regex_compiled(pattern: Seq<char>) -> Result<regex::Regex, regex::Error>;

/// Where the first match of `re` in `haystack` ends, as a byte offset into
/// `haystack`, if `re` matches anywhere in it. This is the end of the match
/// that `Regex::find` reports.
pub uninterp spec fn regex_find_end(re: regex::Regex, haystack: Seq<char>) -> Option<usize>;

/// Compiles `pattern` with `Regex::new`. Whether it compiles, and to what,
/// depends on `pattern` alone; no more is claimed of the outcome.
#[verifier::external_body]
fn compile(pattern: &str) -> (r: Result<regex::Regex, regex::Error>)
    ensures
        r == regex_compiled(pattern@),
{
    regex::Regex::new(pattern)
}

/// Searches `haystack` with `Regex::find` and gives the end of the match.
/// The search depends on the regex and the haystack alone. As the crate
/// documents of `Match::end`, the end lies within the haystack and never
/// inside the encoding of a character.
#[verifier::external_body]
fn find_end(re: &regex::Regex, haystack: &str) -> (r: Option<usize>)
    ensures
        r == regex_find_end(*re, haystack@),
        r matches Some(n) ==> n <= haystack.spec_bytes().len() && is_char_boundary(
            haystack.spec_bytes(),
            n as int,
        ),
{
    re.find(haystack).map(|m| m.end())
}

/// Why a lexer rule could not be made: its pattern did not compile.
#[derive(Debug)]
pub struct BadPattern {
    /// The type of the tokens that the rule was to make.
    pub ty: NodeType,
    /// What the `regex` crate has against the pattern.
    pub cause: regex::Error,
}

/// A lexer rule: the kind of token, the pattern that its text matches, and
/// for kinds that no pattern can describe a function that measures the
/// token. The function gets the text from the token's start on and answers
/// with the token's length in bytes, or with `None` to reject the token.
#[derive(Debug)]
pub struct Rule<F> {
    /// The type of the tokens that the rule makes.
    pub ty: NodeType,
    /// The compiled pattern. `Rule::new` ties it to the start of the text.
    pub re: regex::Regex,
    /// Measures the token where the pattern alone cannot.
    pub f: Option<F>,
}

/// The pattern that matches what `pattern` matches, but only at the start
/// of the text.
pub fn anchored(pattern: &str) -> (r: String)
    ensures
        r@ == "^(?:"@ + pattern@ + ")"@,
{
    let mut r = String::from_str("^(?:");
    r.append(pattern);
    r.append(")");
    r
}

impl<F: Fn(&str) -> Option<usize>> Rule<F> {
    /// The rule for tokens of type `ty` around an already compiled pattern,
    /// or the reason why there is no compiled pattern.
    pub fn from_compiled(
        ty: NodeType,
        compiled: Result<regex::Regex, regex::Error>,
        f: Option<F>,
    ) -> (r: Result<Rule<F>, BadPattern>)
        ensures
            r == (match compiled {
                Ok(re) => Ok::<Rule<F>, BadPattern>(Rule { ty, re, f }),
                Err(cause) => Err(BadPattern { ty, cause }),
            }),
    {
        match compiled {
            Ok(re) => Ok(Rule { ty, re, f }),
            Err(cause) => Err(BadPattern { ty, cause }),
        }
    }

    /// The rule for tokens of type `ty` that match `re` at the place where
    /// the lexer stands: the pattern that is compiled is `re` tied to the
    /// start of the text. Fails when that is no pattern.
    pub fn new(ty: NodeType, re: &str, f: Option<F>) -> (r: Result<Rule<F>, BadPattern>)
        ensures
            r == (match regex_compiled("^(?:"@ + re@ + ")"@) {
                Ok(re) => Ok::<Rule<F>, BadPattern>(Rule { ty, re, f }),
                Err(cause) => Err(BadPattern { ty, cause }),
            }),
    {
        let pattern = anchored(re);
        Rule::from_compiled(ty, compile(pattern.as_str()), f)
    }
}

/// Whether no pattern of `rules` matches `haystack`.
pub open spec fn no_match<F>(rules: Seq<Rule<F>>, haystack: Seq<char>) -> bool {
    forall|j: int| 0 <= j < rules.len() ==> regex_find_end(#[trigger] rules[j].re, haystack) is None
}

/// Whether rule `k` wins at `haystack` with a match of `len` bytes: no rule
/// matches more, and no rule before it matches as much.
pub open spec fn is_best<F>(rules: Seq<Rule<F>>, haystack: Seq<char>, k: int, len: usize) -> bool {
    &&& 0 <= k < rules.len()
    &&& regex_find_end(rules[k].re, haystack) == Some(len)
    &&& forall|j: int|
        0 <= j < rules.len() ==> (regex_find_end(#[trigger] rules[j].re, haystack) matches Some(l)
            ==> l <= len && (j < k ==> l < len))
}

/// Finds the rule whose pattern matches the most of `rest`, and among
/// rules that match as much the one that is listed first.
pub fn longest_match<F>(rules: &[Rule<F>], rest: &str) -> (r: Option<(usize, usize)>)
    ensures
        match r {
            Some((k, len)) => {
                &&& is_best(rules@, rest@, k as int, len)
                &&& len <= rest.spec_bytes().len()
                &&& is_char_boundary(rest.spec_bytes(), len as int)
            },
            None => no_match(rules@, rest@),
        },
{
    let mut best: Option<(usize, usize)> = None;
    let mut i: usize = 0;
    while i < rules.len()
        invariant
            i <= rules@.len(),
            match best {
                Some((k, len)) => {
                    &&& k < i
                    &&& regex_find_end(rules@[k as int].re, rest@) == Some(len)
                    &&& len <= rest.spec_bytes().len()
                    &&& is_char_boundary(rest.spec_bytes(), len as int)
                    &&& forall|j: int|
                        0 <= j < i ==> (regex_find_end(#[trigger] rules@[j].re, rest@) matches Some(l)
                            ==> l <= len && (j < k ==> l < len))
                },
                None => forall|j: int|
                    0 <= j < i ==> regex_find_end(#[trigger] rules@[j].re, rest@) is None,
            },
        decreases rules.len() - i,
    {
        match find_end(&rules[i].re, rest) {
            Some(len) => {
                let better = match best {
                    Some((_, longest)) => len > longest,
                    None => true,
                };
                if better {
                    best = Some((i, len));
                }
            },
            None => {},
        }
        i += 1;
    }
    best
}

/// The number of bytes that encode the first character of `rest`.
pub fn first_char_len(rest: &str) -> (r: usize)
    requires
        rest.spec_bytes().len() > 0,
    ensures
        r == length_of_first_scalar(rest.spec_bytes()),
        0 < r <= rest.spec_bytes().len(),
        is_char_boundary(rest.spec_bytes(), r as int),
{
    let bytes = rest.as_bytes();
    let first: u8 = bytes[0];
    proof {
        broadcast use encode_utf8_valid_utf8;
        broadcast use utf8_byte_ranges_bitwise;

        assert(valid_utf8(rest.spec_bytes()));
        reveal_with_fuel(is_char_boundary, 2);
    }
    if first < 0x80 {
        1
    } else if first < 0xe0 {
        2
    } else if first < 0xf0 {
        3
    } else {
        4
    }
}


/// Whether `rest` is the text with the bytes `whole` from byte `at` on.
pub open spec fn is_suffix(rest: &str, whole: Seq<u8>, at: int) -> bool {
    &&& 0 <= at <= whole.len()
    &&& rest.spec_bytes() == whole.subrange(at, whole.len() as int)
}

/// Whether the lexer may stand at `rest` and cut off a token of type `ty`
/// and of `len` bytes there.
///
/// Where no pattern matches, the token is an error of one character. Else
/// the best rule decides. Without a function of its own it gives its type
/// to what its pattern matched. With one it gives its type to as many bytes
/// as the function says, and where the function rejects, the token is an
/// error of one character again.
#[verifier::opaque]
pub open spec fn lexes<F: Fn(&str) -> Option<usize>>(
    rules: Seq<Rule<F>>,
    rest: &str,
    ty: NodeType,
    len: int,
) -> bool {
    let bad_char = ty == NodeType::error() && len == length_of_first_scalar(rest.spec_bytes());
    ||| no_match(rules, rest@) && bad_char
    ||| exists|k: int, matched: usize|
        #![trigger is_best(rules, rest@, k, matched)]
        {
            &&& is_best(rules, rest@, k, matched)
            &&& matched > 0
            &&& match rules[k].f {
                None => ty == rules[k].ty && len == matched,
                Some(f) => exists|out: Option<usize>|
                    #![trigger call_ensures(f, (rest,), out)]
                    {
                        &&& call_ensures(f, (rest,), out)
                        &&& match out {
                            Some(n) => ty == rules[k].ty && len == n,
                            None => bad_char,
                        }
                    },
            }
        }
}

/// Whether `token` is a token that the lexer may cut from the text with
/// the bytes `whole` at the place where `token` starts.
pub open spec fn token_at<F: Fn(&str) -> Option<usize>>(
    rules: Seq<Rule<F>>,
    whole: Seq<u8>,
    token: Token,
) -> bool {
    exists|rest: &str|
        #![trigger is_suffix(rest, whole, token.range.start.0 as int)]
        {
            &&& is_suffix(rest, whole, token.range.start.0 as int)
            &&& lexes(rules, rest, token.ty, token.range.spec_len())
        }
}

/// Whether token `i` of `tokens` ends where the next one starts.
pub open spec fn adjacent(tokens: Seq<Token>, i: int) -> bool {
    tokens[i].range.end == tokens[i + 1].range.start
}

/// Whether `tokens` lie one behind the other from the start of the text up
/// to byte `upto`, without a gap, none of them empty, and each of them
/// between two characters of `bytes`.
pub open spec fn tiles(tokens: Seq<Token>, bytes: Seq<u8>, upto: int) -> bool {
    &&& 0 <= upto <= bytes.len()
    &&& tokens.len() == 0 ==> upto == 0
    &&& tokens.len() > 0 ==> tokens[0].range.start.0 == 0 && tokens.last().range.end.0 == upto
    &&& forall|i: int|
        0 <= i < tokens.len() ==> {
            &&& (#[trigger] tokens[i]).range.start.0 < tokens[i].range.end.0
            &&& is_char_boundary(bytes, tokens[i].range.start.0 as int)
            &&& is_char_boundary(bytes, tokens[i].range.end.0 as int)
        }
    &&& forall|i: int| 0 <= i < tokens.len() - 1 ==> #[trigger] adjacent(tokens, i)
}

/// Whether `tokens` are what the lexer makes of the first `upto` bytes of
/// the text with the bytes `whole`.
pub open spec fn lexed<F: Fn(&str) -> Option<usize>>(
    rules: Seq<Rule<F>>,
    whole: Seq<u8>,
    tokens: Seq<Token>,
    upto: int,
) -> bool {
    &&& tiles(tokens, whole, upto)
    &&& forall|i: int| 0 <= i < tokens.len() ==> token_at(rules, whole, #[trigger] tokens[i])
}

/// Whether the lexer cannot go on at byte `at` of the text with the bytes
/// `whole`, because the best pattern there matches no text at all.
pub open spec fn stuck<F>(rules: Seq<Rule<F>>, whole: Seq<u8>, at: int) -> bool {
    exists|rest: &str, k: int|
        #![trigger is_suffix(rest, whole, at), is_best(rules, rest@, k, 0)]
        {
            &&& is_suffix(rest, whole, at)
            &&& at < whole.len()
            &&& is_best(rules, rest@, k, 0)
        }
}

/// Whether the lexer cannot get through the text with the bytes `whole`:
/// after some tokens it stands where the best pattern matches no text.
pub open spec fn fails<F: Fn(&str) -> Option<usize>>(rules: Seq<Rule<F>>, whole: Seq<u8>) -> bool {
    exists|tokens: Seq<Token>, at: int|
        #![trigger lexed(rules, whole, tokens, at)]
        lexed(rules, whole, tokens, at) && stuck(rules, whole, at)
}

/// Whether every function of `rules` can be called on any text.
pub open spec fn callable<F: Fn(&str) -> Option<usize>>(rules: Seq<Rule<F>>) -> bool {
    forall|k: int, rest: &str|
        0 <= k < rules.len() && rules[k].f is Some ==> #[trigger] call_requires(
            rules[k].f->0,
            (rest,),
        )
}

/// Whether every function of `rules` measures tokens that exist: where it
/// accepts, the length that it gives is not zero, stays within the text that
/// it was given, and does not end inside a character.
pub open spec fn measures<F: Fn(&str) -> Option<usize>>(rules: Seq<Rule<F>>) -> bool {
    forall|k: int, rest: &str, n: usize|
        0 <= k < rules.len() && rules[k].f is Some && #[trigger] call_ensures(
            rules[k].f->0,
            (rest,),
            Some(n),
        ) ==> 0 < n <= rest.spec_bytes().len() && is_char_boundary(rest.spec_bytes(), n as int)
}

/// A place between two characters of a part of a text is a place between
/// two characters of the whole text.
pub proof fn lemma_suffix_boundary(whole: Seq<u8>, at: int, rest: Seq<u8>, n: int)
    requires
        valid_utf8(whole),
        valid_utf8(rest),
        0 <= at <= whole.len(),
        rest == whole.subrange(at, whole.len() as int),
        0 <= n,
        is_char_boundary(rest, n),
    ensures
        is_char_boundary(whole, at + n),
        at + n <= whole.len(),
{
    if n != 0 {
        assert(n <= rest.len()) by {
            reveal_with_fuel(is_char_boundary, 1);
        }
    }
    if at + n == whole.len() {
        is_char_boundary_start_end_of_seq(whole);
    } else {
        is_char_boundary_iff_not_is_continuation_byte(rest, n);
        is_char_boundary_iff_not_is_continuation_byte(whole, at + n);
    }
}

/// Whether `text` is short enough for its bytes to be counted in 32 bits,
/// as the offsets of tokens are.
pub fn fits(text: &str) -> (r: bool)
    ensures
        r == (text.spec_bytes().len() <= u32::MAX),
{
    text.as_bytes().len() <= 0xffff_ffff
}

/// Cuts `text` into tokens.
///
/// At each place the rule whose pattern matches the most text gives the
/// token, and of two rules that match as much the one listed first. Where no
/// pattern matches, one character becomes an error token. The tokens cover
/// the text from its first byte to its last. The one thing that stops the
/// lexer is a best match without text: then no tokens come back.
#[verifier::rlimit(30)]
pub fn tokenize<F: Fn(&str) -> Option<usize>>(text: &str, tokenizer: &[Rule<F>]) -> (r: Option<
    Vec<Token>,
>)
    requires
        text.spec_bytes().len() <= u32::MAX,
        callable(tokenizer@),
        measures(tokenizer@),
    ensures
        match r {
            Some(tokens) => lexed(
                tokenizer@,
                text.spec_bytes(),
                tokens@,
                text.spec_bytes().len() as int,
            ),
            None => fails(tokenizer@, text.spec_bytes()),
        },
{
    let mut result: Vec<Token> = Vec::new();
    let mut offset: usize = 0;
    let mut rest: &str = text;
    let ghost whole = text.spec_bytes();
    proof {
        broadcast use encode_utf8_valid_utf8;

        assert(valid_utf8(whole));
        is_char_boundary_start_end_of_seq(whole);
        assert(whole.subrange(0, whole.len() as int) =~= whole);
    }
    while rest.as_bytes().len() > 0
        invariant
            whole == text.spec_bytes(),
            whole.len() <= u32::MAX,
            valid_utf8(whole),
            callable(tokenizer@),
            measures(tokenizer@),
            is_suffix(rest, whole, offset as int),
            is_char_boundary(whole, offset as int),
            lexed(tokenizer@, whole, result@, offset as int),
        decreases whole.len() - offset,
    {
        let bad_char = first_char_len(rest);
        let (ty, end) = match longest_match(tokenizer, rest) {
            None => (NodeType::error(), bad_char),
            Some((k, len)) => {
                if len == 0 {
                    proof {
                        assert(is_suffix(rest, whole, offset as int) && is_best(
                            tokenizer@,
                            rest@,
                            k as int,
                            0,
                        ));
                        assert(stuck(tokenizer@, whole, offset as int));
                        assert(lexed(tokenizer@, whole, result@, offset as int));
                    }
                    return None;
                }
                match &tokenizer[k].f {
                    Some(f) => {
                        match f(rest) {
                            Some(n) => (tokenizer[k].ty, n),
                            None => (NodeType::error(), bad_char),
                        }
                    },
                    None => (tokenizer[k].ty, len),
                }
            },
        };
        proof {
            broadcast use encode_utf8_valid_utf8;

            assert(valid_utf8(rest.spec_bytes()));
            lemma_suffix_boundary(whole, offset as int, rest.spec_bytes(), end as int);
        }
        let range = TextRange::from_to(TextUnit(offset as u32), TextUnit((offset + end) as u32));
        let token = Token { ty, range };
        proof {
            reveal(lexes);
            assert(lexes(tokenizer@, rest, ty, end as int));
            assert(is_suffix(rest, whole, token.range.start.0 as int));
            assert(token_at(tokenizer@, whole, token));
            let before = result@;
            let after = result@.push(token);
            assert forall|i: int| 0 <= i < after.len() implies token_at(
                tokenizer@,
                whole,
                #[trigger] after[i],
            ) by {
                if i < before.len() {
                    assert(after[i] == before[i]);
                }
            }
            assert forall|i: int| 0 <= i < after.len() - 1 implies #[trigger] adjacent(after, i) by {
                if i < before.len() - 1 {
                    assert(adjacent(before, i));
                    assert(after[i] == before[i]);
                    assert(after[i + 1] == before[i + 1]);
                } else {
                    assert(after[i] == before.last());
                }
            }
            assert forall|i: int| 0 <= i < after.len() implies {
                &&& (#[trigger] after[i]).range.start.0 < after[i].range.end.0
                &&& is_char_boundary(whole, after[i].range.start.0 as int)
                &&& is_char_boundary(whole, after[i].range.end.0 as int)
            } by {
                if i < before.len() {
                    assert(after[i] == before[i]);
                }
            }
            if before.len() > 0 {
                assert(after[0] == before[0]);
            }
        }
        result.push(token);
        let (_, tail) = rest.split_at(end);
        proof {
            assert(tail.spec_bytes() =~= whole.subrange(offset + end, whole.len() as int));
        }
        offset = offset + end;
        rest = tail;
    }
    Some(result)
}

/// Whether every function of `rules` answers alike wherever it is given
/// the same text.
pub open spec fn answers_alike<F: Fn(&str) -> Option<usize>>(rules: Seq<Rule<F>>) -> bool {
    forall|k: int, a: &str, b: &str, x: Option<usize>, y: Option<usize>|
        0 <= k < rules.len() && rules[k].f is Some && a@ == b@ && #[trigger] call_ensures(
            rules[k].f->0,
            (a,),
            x,
        ) && #[trigger] call_ensures(rules[k].f->0, (b,), y) ==> x == y
}

/// At one place the lexer can cut off one token only: the best rule is one
/// rule, and it gives one type and one length.
#[verifier::rlimit(30)]
pub proof fn lemma_lexes_unique<F: Fn(&str) -> Option<usize>>(
    rules: Seq<Rule<F>>,
    a: &str,
    b: &str,
    ty1: NodeType,
    len1: int,
    ty2: NodeType,
    len2: int,
)
    requires
        answers_alike(rules),
        a.spec_bytes() == b.spec_bytes(),
        lexes(rules, a, ty1, len1),
        lexes(rules, b, ty2, len2),
    ensures
        ty1 == ty2,
        len1 == len2,
{
    reveal(lexes);
    lemma_same_text(a, b);
    if no_match(rules, a@) {
        if !no_match(rules, b@) {
        }
        assert forall|k: int, m: usize| !is_best(rules, a@, k, m) by {
            if 0 <= k < rules.len() {
                assert(regex_find_end(rules[k].re, a@) is None);
            }
        }
    } else {
        let (k1, m1) = choose|k: int, m: usize|
            #![trigger is_best(rules, a@, k, m)]
            is_best(rules, a@, k, m) && m > 0 && match rules[k].f {
                None => ty1 == rules[k].ty && len1 == m,
                Some(f) => exists|out: Option<usize>|
                    #![trigger call_ensures(f, (a,), out)]
                    {
                        &&& call_ensures(f, (a,), out)
                        &&& match out {
                            Some(n) => ty1 == rules[k].ty && len1 == n,
                            None => ty1 == NodeType::error() && len1 == length_of_first_scalar(
                                a.spec_bytes(),
                            ),
                        }
                    },
            };
        let (k2, m2) = choose|k: int, m: usize|
            #![trigger is_best(rules, b@, k, m)]
            is_best(rules, b@, k, m) && m > 0 && match rules[k].f {
                None => ty2 == rules[k].ty && len2 == m,
                Some(f) => exists|out: Option<usize>|
                    #![trigger call_ensures(f, (b,), out)]
                    {
                        &&& call_ensures(f, (b,), out)
                        &&& match out {
                            Some(n) => ty2 == rules[k].ty && len2 == n,
                            None => ty2 == NodeType::error() && len2 == length_of_first_scalar(
                                b.spec_bytes(),
                            ),
                        }
                    },
            };
        assert(regex_find_end(rules[k1].re, a@) == Some(m1));
        assert(regex_find_end(rules[k2].re, a@) == Some(m2));
        assert(m1 == m2 && k1 == k2);
    }
}

/// In tokens that lie one behind the other, a later token ends behind an
/// earlier one.
pub proof fn lemma_token_ends_grow(tokens: Seq<Token>, bytes: Seq<u8>, upto: int, i: int, j: int)
    requires
        tiles(tokens, bytes, upto),
        0 <= i <= j < tokens.len(),
    ensures
        tokens[i].range.end.0 <= tokens[j].range.end.0,
        i < j ==> tokens[i].range.end.0 < tokens[j].range.end.0,
    decreases j - i,
{
    if i < j {
        lemma_token_ends_grow(tokens, bytes, upto, i, j - 1);
        assert(adjacent(tokens, j - 1));
    }
}

/// Two runs of the lexer over one text cut the same token at each place
/// that both reach.
#[verifier::rlimit(30)]
pub proof fn lemma_same_token<F: Fn(&str) -> Option<usize>>(
    rules: Seq<Rule<F>>,
    whole: Seq<u8>,
    first: Seq<Token>,
    second: Seq<Token>,
    upto: int,
    as_far: int,
    i: int,
)
    requires
        answers_alike(rules),
        lexed(rules, whole, first, upto),
        lexed(rules, whole, second, as_far),
        0 <= i < first.len(),
        i < second.len(),
    ensures
        first[i] == second[i],
    decreases i,
{
    if i > 0 {
        lemma_same_token(rules, whole, first, second, upto, as_far, i - 1);
        assert(adjacent(first, i - 1));
        assert(adjacent(second, i - 1));
    }
    let t1 = first[i];
    let t2 = second[i];
    assert(token_at(rules, whole, t1));
    assert(token_at(rules, whole, t2));
    let a = choose|rest: &str|
        #![trigger is_suffix(rest, whole, t1.range.start.0 as int)]
        is_suffix(rest, whole, t1.range.start.0 as int) && lexes(
            rules,
            rest,
            t1.ty,
            t1.range.spec_len(),
        );
    let b = choose|rest: &str|
        #![trigger is_suffix(rest, whole, t2.range.start.0 as int)]
        is_suffix(rest, whole, t2.range.start.0 as int) && lexes(
            rules,
            rest,
            t2.ty,
            t2.range.spec_len(),
        );
    lemma_lexes_unique(rules, a, b, t1.ty, t1.range.spec_len(), t2.ty, t2.range.spec_len());
}

/// The lexer is a function of the text and the rules: where the functions
/// of the rules answer alike on the same text, a text has one sequence of
/// tokens only.
pub proof fn lemma_lexed_unique<F: Fn(&str) -> Option<usize>>(
    rules: Seq<Rule<F>>,
    whole: Seq<u8>,
    first: Seq<Token>,
    second: Seq<Token>,
    upto: int,
)
    requires
        answers_alike(rules),
        lexed(rules, whole, first, upto),
        lexed(rules, whole, second, upto),
    ensures
        first == second,
{
    let n = first.len() as int;
    let m = second.len() as int;
    if n < m {
        if n > 0 {
            lemma_same_token(rules, whole, first, second, upto, upto, n - 1);
            lemma_token_ends_grow(second, whole, upto, n - 1, m - 1);
        } else {
            lemma_token_ends_grow(second, whole, upto, 0, m - 1);
        }
    } else if m < n {
        if m > 0 {
            lemma_same_token(rules, whole, first, second, upto, upto, m - 1);
            lemma_token_ends_grow(first, whole, upto, m - 1, n - 1);
        } else {
            lemma_token_ends_grow(first, whole, upto, 0, n - 1);
        }
    } else {
        assert forall|i: int| 0 <= i < n implies first[i] == second[i] by {
            lemma_same_token(rules, whole, first, second, upto, upto, i);
        }
        assert(first =~= second);
    }
}

/// The lexer either gets through a text or gets stuck in it, never both:
/// where a text has tokens from its first byte to its last, there is no
/// place in it at which the lexer stands and the best pattern matches no
/// text. This holds where the functions of the rules answer alike on the
/// same text.
#[verifier::rlimit(30)]
pub proof fn lemma_lexed_never_fails<F: Fn(&str) -> Option<usize>>(
    rules: Seq<Rule<F>>,
    whole: Seq<u8>,
    tokens: Seq<Token>,
)
    requires
        answers_alike(rules),
        lexed(rules, whole, tokens, whole.len() as int),
    ensures
        !fails(rules, whole),
{
    if fails(rules, whole) {
        let (some, at) = choose|some: Seq<Token>, at: int|
            #![trigger lexed(rules, whole, some, at)]
            lexed(rules, whole, some, at) && stuck(rules, whole, at);
        let n = some.len() as int;
        let m = tokens.len() as int;
        // the tokens up to the place are the first of all the tokens
        if m <= n {
            if m > 0 {
                lemma_same_token(rules, whole, tokens, some, whole.len() as int, at, m - 1);
                lemma_token_ends_grow(some, whole, at, m - 1, n - 1);
            }
            assert(false);
        }
        if n > 0 {
            lemma_same_token(rules, whole, tokens, some, whole.len() as int, at, n - 1);
            assert(adjacent(tokens, n - 1));
        }
        let t = tokens[n];
        assert(t.range.start.0 == at);
        assert(token_at(rules, whole, t));
        let a = choose|rest: &str|
            #![trigger is_suffix(rest, whole, t.range.start.0 as int)]
            is_suffix(rest, whole, t.range.start.0 as int) && lexes(
                rules,
                rest,
                t.ty,
                t.range.spec_len(),
            );
        let (b, k) = choose|rest: &str, k: int|
            #![trigger is_suffix(rest, whole, at), is_best(rules, rest@, k, 0)]
            is_suffix(rest, whole, at) && at < whole.len() && is_best(rules, rest@, k, 0);
        reveal(lexes);
        lemma_same_text(a, b);
        assert(regex_find_end(rules[k].re, a@) == Some(0usize));
        assert(!no_match(rules, a@));
        let (k1, m1) = choose|k: int, m: usize|
            #![trigger is_best(rules, a@, k, m)]
            is_best(rules, a@, k, m) && m > 0;
        assert(regex_find_end(rules[k1].re, a@) == Some(m1));
        assert(false);
    }
}

/// Two texts with the same bytes have the same characters.
pub proof fn lemma_same_text(a: &str, b: &str)
    requires
        a.spec_bytes() == b.spec_bytes(),
    ensures
        a@ == b@,
{
    broadcast use encode_utf8_decode_utf8;

    assert(decode_utf8(encode_utf8(a@)) == a@);
    assert(decode_utf8(encode_utf8(b@)) == b@);
}

/// The bytes of `bytes` that `tokens` cover, token after token.
pub open spec fn spelled(tokens: Seq<Token>, bytes: Seq<u8>) -> Seq<u8>
    decreases tokens.len(),
{
    if tokens.len() == 0 {
        Seq::empty()
    } else {
        spelled(tokens.drop_last(), bytes) + bytes.subrange(
            tokens.last().range.start.0 as int,
            tokens.last().range.end.0 as int,
        )
    }
}

/// The texts of the tokens of a text, put one behind the other, are the
/// text again: tokens that tile the first bytes of a text spell exactly
/// those bytes.
pub proof fn lemma_tokens_spell_text(tokens: Seq<Token>, bytes: Seq<u8>, upto: int)
    requires
        tiles(tokens, bytes, upto),
    ensures
        spelled(tokens, bytes) == bytes.subrange(0, upto),
        upto == bytes.len() ==> spelled(tokens, bytes) == bytes,
    decreases tokens.len(),
{
    assert(bytes.subrange(0, bytes.len() as int) =~= bytes);
    if tokens.len() == 0 {
        assert(bytes.subrange(0, 0) =~= Seq::<u8>::empty());
    } else {
        let shorter = tokens.drop_last();
        let cut = tokens.last().range.start.0 as int;
        if shorter.len() > 0 {
            assert(shorter.last() == tokens[tokens.len() - 2]);
            assert(shorter[0] == tokens[0]);
        }
        assert forall|i: int| 0 <= i < shorter.len() implies {
            &&& (#[trigger] shorter[i]).range.start.0 < shorter[i].range.end.0
            &&& is_char_boundary(bytes, shorter[i].range.start.0 as int)
            &&& is_char_boundary(bytes, shorter[i].range.end.0 as int)
        } by {
            assert(shorter[i] == tokens[i]);
        }
        assert forall|i: int| 0 <= i < shorter.len() - 1 implies #[trigger] adjacent(shorter, i) by {
            assert(adjacent(tokens, i));
            assert(shorter[i] == tokens[i]);
            assert(shorter[i + 1] == tokens[i + 1]);
        }
        assert(adjacent(tokens, tokens.len() - 2) || tokens.len() < 2);
        assert(tiles(shorter, bytes, cut));
        lemma_tokens_spell_text(shorter, bytes, cut);
        assert(bytes.subrange(0, cut) + bytes.subrange(cut, upto) =~= bytes.subrange(0, upto));
    }
}

} // verus!

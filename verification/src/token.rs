//! The tokenizer: splits raw text on runs of whitespace into words and
//! classifies each word as an operator, a parenthesis, or a variable name.

use vstd::prelude::*;
use vstd::string::StrSliceExecFns;
use vstd::string::StringExecFns;

verus! {

/// One lexical unit of a boolean expression. Any word that is not one of the
/// keywords `and`, `or`, `not`, `(` or `)` is a variable name, taken
/// verbatim; the tokenizer therefore cannot fail.
#[derive(Debug, PartialEq)]
pub enum Token {
    And,
    Or,
    Not,
    LParen,
    RParen,
    Var(String),
}

/// The characters treated as word separators: space, tab, line feed and
/// carriage return.
pub open spec fn is_space(c: char) -> bool {
    c == ' ' || c == '\t' || c == '\n' || c == '\r'
}

/// The length of the maximal separator-free prefix of `s`.
pub open spec fn word_end(s: Seq<char>) -> nat
    decreases s.len(),
{
    if s.len() == 0 || is_space(s[0]) {
        0
    } else {
        1 + word_end(s.drop_first())
    }
}

/// The words of `s`: the maximal runs of non-separator characters, in input
/// order.
pub open spec fn spec_words(s: Seq<char>) -> Seq<Seq<char>>
    decreases s.len(),
    via spec_words_decreases
{
    if s.len() == 0 {
        Seq::empty()
    } else if is_space(s[0]) {
        spec_words(s.drop_first())
    } else {
        seq![s.take(word_end(s) as int)] + spec_words(s.skip(word_end(s) as int))
    }
}

/// The word end never lies past the end of the text.
proof fn lemma_word_end_le(s: Seq<char>)
    ensures
        word_end(s) <= s.len(),
    decreases s.len(),
{
    if s.len() > 0 && !is_space(s[0]) {
        lemma_word_end_le(s.drop_first());
    }
}

#[via_fn]
proof fn spec_words_decreases(s: Seq<char>) {
    if s.len() > 0 && !is_space(s[0]) {
        assert(word_end(s) == 1 + word_end(s.drop_first()));
        lemma_word_end_le(s);
    }
}

/// The classification of one word: each keyword maps to its own token, and
/// every other word becomes a variable named by that word.
pub open spec fn token_is(t: Token, w: Seq<char>) -> bool {
    match t {
        Token::And => w == "and"@,
        Token::Or => w == "or"@,
        Token::Not => w == "not"@,
        Token::LParen => w == "("@,
        Token::RParen => w == ")"@,
        Token::Var(name) => name@ == w && w != "and"@ && w != "or"@ && w != "not"@ && w != "("@
            && w != ")"@,
    }
}

/// Decides whether a character is a word separator.
fn is_separator(c: char) -> (r: bool)
    ensures
        r == is_space(c),
{
    c == ' ' || c == '\t' || c == '\n' || c == '\r'
}

/// Character-by-character string comparison, so that equality of the views
/// is decided in verified code.
pub(crate) fn str_eq(a: &str, b: &str) -> (r: bool)
    ensures
        r == (a@ == b@),
{
    let alen = a.unicode_len();
    let blen = b.unicode_len();
    if alen != blen {
        return false;
    }
    let mut i: usize = 0;
    while i < alen
        invariant
            alen == a@.len(),
            blen == b@.len(),
            alen == blen,
            i <= alen,
            forall|j: int| 0 <= j < i ==> a@[j] == b@[j],
        decreases alen - i,
    {
        if a.get_char(i) != b.get_char(i) {
            return false;
        }
        i = i + 1;
    }
    proof {
        assert(a@ =~= b@);
    }
    true
}

/// Turns one word into its token.
fn classify(word: String) -> (t: Token)
    ensures
        token_is(t, word@),
{
    if str_eq(word.as_str(), "and") {
        Token::And
    } else if str_eq(word.as_str(), "or") {
        Token::Or
    } else if str_eq(word.as_str(), "not") {
        Token::Not
    } else if str_eq(word.as_str(), "(") {
        Token::LParen
    } else if str_eq(word.as_str(), ")") {
        Token::RParen
    } else {
        Token::Var(word)
    }
}

/// Skipping one leading separator drops nothing but that separator.
proof fn lemma_words_skip_space(s: Seq<char>, i: int)
    requires
        0 <= i < s.len(),
        is_space(s[i]),
    ensures
        spec_words(s.skip(i)) == spec_words(s.skip(i + 1)),
{
    assert(s.skip(i).len() > 0);
    assert(s.skip(i)[0] == s[i]);
    assert(s.skip(i).drop_first() =~= s.skip(i + 1));
}

/// Within a word, the end of that word as seen from `i` is one step past the
/// end as seen from `i + 1`.
proof fn lemma_word_end_step(s: Seq<char>, i: int)
    requires
        0 <= i < s.len(),
        !is_space(s[i]),
    ensures
        word_end(s.skip(i)) == 1 + word_end(s.skip(i + 1)),
{
    assert(s.skip(i).len() > 0);
    assert(s.skip(i)[0] == s[i]);
    assert(s.skip(i).drop_first() =~= s.skip(i + 1));
}

/// A word that runs to the end of a separator-free stretch: if the
/// characters of `s` from `i` up to `j` are not separators and `j` is the
/// end of the text or a separator, then `j - i` is the word end at `i`.
proof fn lemma_word_end_value(s: Seq<char>, i: int, j: int)
    requires
        0 <= i <= j <= s.len(),
        forall|k: int| i <= k < j ==> !is_space(s[k]),
        j == s.len() || is_space(s[j]),
    ensures
        word_end(s.skip(i)) == j - i,
    decreases j - i,
{
    if i == j {
        if j < s.len() {
            assert(s.skip(i)[0] == s[i]);
        }
    } else {
        lemma_word_end_step(s, i);
        lemma_word_end_value(s, i + 1, j);
    }
}

/// Splits `input` on runs of whitespace and classifies each word, keeping
/// input order. Every input tokenizes; no error case exists.
pub fn tokenize(input: &str) -> (tokens: Vec<Token>)
    ensures
        tokens@.len() == spec_words(input@).len(),
        forall|i: int|
            0 <= i < tokens@.len() ==> token_is(#[trigger] tokens@[i], spec_words(input@)[i]),
{
    let len = input.unicode_len();
    let mut tokens: Vec<Token> = Vec::new();
    let mut i: usize = 0;
    proof {
        assert(input@.skip(0) =~= input@);
    }
    while i < len
        invariant
            len == input@.len(),
            i <= len,
            tokens@.len() + spec_words(input@.skip(i as int)).len() == spec_words(input@).len(),
            forall|k: int|
                0 <= k < tokens@.len() ==> token_is(#[trigger] tokens@[k], spec_words(input@)[k]),
            forall|k: int|
                tokens@.len() <= k < spec_words(input@).len() ==> spec_words(input@)[k]
                    == spec_words(input@.skip(i as int))[k - tokens@.len()],
        decreases len - i,
    {
        let c = input.get_char(i);
        if is_separator(c) {
            proof {
                lemma_words_skip_space(input@, i as int);
            }
            i = i + 1;
        } else {
            let start = i;
            let mut j = i;
            while j < len && !is_separator(input.get_char(j))
                invariant
                    len == input@.len(),
                    start <= j <= len,
                    forall|k: int| start <= k < j ==> !is_space(input@[k]),
                decreases len - j,
            {
                j = j + 1;
            }
            proof {
                lemma_word_end_value(input@, start as int, j as int);
                assert(input@.skip(start as int).take(j - start) =~= input@.subrange(
                    start as int,
                    j as int,
                ));
                assert(input@.skip(start as int).skip(j - start) =~= input@.skip(j as int));
            }
            let word = input.substring_char(start, j);
            let token = classify(String::from_str(word));
            tokens.push(token);
            i = j;
        }
    }
    proof {
        assert(spec_words(input@.skip(len as int)).len() == 0);
    }
    tokens
}

} // verus!

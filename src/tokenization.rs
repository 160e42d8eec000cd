//! The tokenization pipeline: camelCase boundaries, lower-casing, punctuation
//! spacing, digit runs, then splitting on whitespace and on underscores.

use vstd::prelude::*;

use crate::text::{chars_of, is_white_space, is_whitespace, string_of, string_of_range};

verus! {

broadcast use {Seq::lemma_flatten_push, Seq::lemma_push_map_commute};

/// The characters that are set apart as tokens of their own.
pub open spec fn is_punctuation_char(c: char) -> bool {
    ||| c == '('
    ||| c == ')'
    ||| c == ','
    ||| c == '.'
    ||| c == ';'
    ||| c == ':'
    ||| c == '='
    ||| c == '['
    ||| c == ']'
    ||| c == '{'
    ||| c == '}'
    ||| c == '-'
    ||| c == '+'
    ||| c == '_'
}

/// What one character becomes when punctuation is spaced out.
pub open spec fn spaced_char(c: char) -> Seq<char> {
    if is_punctuation_char(c) {
        seq![' ', c, ' ']
    } else {
        seq![c]
    }
}

/// `s` with a space before and after every punctuation character.
pub open spec fn punctuation_spaced(s: Seq<char>) -> Seq<char> {
    s.map_values(|c: char| spaced_char(c)).flatten()
}

pub open spec fn is_ascii_lower(c: char) -> bool {
    'a' <= c <= 'z'
}

pub open spec fn is_ascii_upper(c: char) -> bool {
    'A' <= c <= 'Z'
}

/// `s` with a space put between each lower-case ASCII letter and an upper-case
/// ASCII letter right after it, matching left to right.
pub open spec fn camel_spaced(s: Seq<char>) -> Seq<char>
    decreases s.len(),
{
    if s.len() < 2 {
        s
    } else if is_ascii_lower(s[0]) && is_ascii_upper(s[1]) {
        seq![s[0], ' ', s[1]] + camel_spaced(s.subrange(2, s.len() as int))
    } else {
        seq![s[0]] + camel_spaced(s.drop_first())
    }
}

/// Whether a character outside ASCII is in the Unicode category `Nd` (decimal
/// number), the class that a regex `\d` matches.
pub uninterp spec fn is_non_ascii_decimal_digit(c: char) -> bool;

/// The characters that a regex `\d` matches: `Nd`, which within ASCII is `0` to `9`.
pub open spec fn is_decimal_digit(c: char) -> bool {
    if c <= '\x7f' {
        '0' <= c <= '9'
    } else {
        is_non_ascii_decimal_digit(c)
    }
}

/// The text that stands for a run of digits.
pub open spec fn number_placeholder() -> Seq<char> {
    seq![' ', 'N', 'U', 'M', 'B', 'E', 'R', ' ']
}

/// What the character at `i` becomes: the first digit of a run becomes the
/// placeholder, the other digits of the run vanish.
pub open spec fn collapsed_at(s: Seq<char>, i: int) -> Seq<char> {
    if !is_decimal_digit(s[i]) {
        seq![s[i]]
    } else if i > 0 && is_decimal_digit(s[i - 1]) {
        seq![]
    } else {
        number_placeholder()
    }
}

/// `s` with every maximal run of decimal digits replaced by ` NUMBER `.
pub open spec fn numbers_collapsed(s: Seq<char>) -> Seq<char> {
    Seq::new(s.len(), |i: int| collapsed_at(s, i)).flatten()
}

/// A regex that matches a lower-case ASCII letter followed by an upper-case one.
pub const CAMEL_BOUNDARY: &'static str = "([a-z])([A-Z])";

/// Puts a space between the two letters that `CAMEL_BOUNDARY` matched.
pub const CAMEL_REPLACEMENT: &'static str = "$1 $2";

/// A regex that matches a run of decimal digits.
pub const DIGIT_RUN: &'static str = "(\\d+)";

/// What each run of digits becomes.
pub const NUMBER_REPLACEMENT: &'static str = " NUMBER ";

/// Relies on `regex::Regex::new`, which accepts both patterns here, and on
/// `regex::Regex::replace_all`: each leftmost non-overlapping match is replaced,
/// `$1` and `$2` standing for the match's first and second groups. `[a-z]` and
/// `[A-Z]` are ASCII ranges; `\d` is the Unicode class `Nd` and `\d+` is greedy,
/// so no character that `\d` matches is left in the result.
#[verifier::external_body]
fn regex_replace_all(pattern: &str, haystack: &str, replacement: &str) -> (r: String)
    requires
        pattern@ == CAMEL_BOUNDARY@ || pattern@ == DIGIT_RUN@,
    ensures
        pattern@ == CAMEL_BOUNDARY@ && replacement@ == CAMEL_REPLACEMENT@ ==> r@ == camel_spaced(
            haystack@,
        ),
        pattern@ == DIGIT_RUN@ && replacement@ == NUMBER_REPLACEMENT@ ==> r@ == numbers_collapsed(
            haystack@,
        ),
        pattern@ == DIGIT_RUN@ && replacement@ == NUMBER_REPLACEMENT@ ==> forall|i: int|
            0 <= i < r@.len() && r@[i] > '\x7f' ==> !is_non_ascii_decimal_digit(#[trigger] r@[i]),
{
    regex::Regex::new(pattern).unwrap().replace_all(haystack, replacement).into_owned()
}

/// What `str::to_lowercase` makes of a text.
pub uninterp spec fn lower_of(s: Seq<char>) -> Seq<char>;

/// Relies on `str::to_lowercase`: the result depends on the characters of `s` alone.
#[verifier::external_body]
fn lowercase(s: &str) -> (r: String)
    ensures
        r@ == lower_of(s@),
{
    s.to_lowercase()
}

/// Whether `ch` is set apart as a token of its own.
pub fn is_punctuation(ch: char) -> (r: bool)
    ensures
        r == is_punctuation_char(ch),
{
    ch == '(' || ch == ')' || ch == ',' || ch == '.' || ch == ';' || ch == ':' || ch == '='
        || ch == '[' || ch == ']' || ch == '{' || ch == '}' || ch == '-' || ch == '+' || ch == '_'
}

/// Surrounds every punctuation character with spaces; other characters are kept.
pub fn handle_punctuation(s: String) -> (r: String)
    ensures
        r@ == punctuation_spaced(s@),
{
    let v = chars_of(s.as_str());
    let mut out: Vec<char> = Vec::new();
    let mut i: usize = 0;
    while i < v.len()
        invariant
            i <= v.len(),
            v@ == s@,
            out@ == punctuation_spaced(v@.subrange(0, i as int)),
        decreases v.len() - i,
    {
        let ch = v[i];
        if is_punctuation(ch) {
            out.push(' ');
            out.push(ch);
            out.push(' ');
        } else {
            out.push(ch);
        }
        proof {
            assert(v@.subrange(0, i + 1) =~= v@.subrange(0, i as int).push(ch));
            assert(out@ =~= punctuation_spaced(v@.subrange(0, i as int)) + spaced_char(ch));
        }
        i += 1;
    }
    assert(v@.subrange(0, v.len() as int) =~= v@);
    string_of(&out)
}

/// Puts a space at every camelCase boundary.
pub fn clean_camelcase(s: String) -> (r: String)
    ensures
        r@ == camel_spaced(s@),
{
    regex_replace_all(CAMEL_BOUNDARY, s.as_str(), CAMEL_REPLACEMENT)
}

/// Replaces every run of decimal digits by ` NUMBER `.
pub fn clean_numbers(s: String) -> (r: String)
    ensures
        r@ == numbers_collapsed(s@),
{
    regex_replace_all(DIGIT_RUN, s.as_str(), NUMBER_REPLACEMENT)
}

/// The texts of a sequence of strings.
pub open spec fn texts(v: Seq<String>) -> Seq<Seq<char>> {
    v.map_values(|t: String| t@)
}

/// The maximal runs of non-whitespace characters of `s`, in order.
pub open spec fn words(s: Seq<char>) -> Seq<Seq<char>>
    decreases s.len(),
{
    if s.len() == 0 {
        seq![]
    } else {
        let prev = words(s.drop_last());
        let c = s.last();
        if is_white_space(c) {
            prev
        } else if s.len() >= 2 && !is_white_space(s[s.len() - 2]) {
            prev.drop_last().push(prev.last().push(c))
        } else {
            prev.push(seq![c])
        }
    }
}

/// The pieces of `s` between underscores, empty ones included, as `str::split` gives them.
pub open spec fn underscore_pieces(s: Seq<char>) -> Seq<Seq<char>>
    decreases s.len(),
{
    if s.len() == 0 {
        seq![seq![]]
    } else {
        let prev = underscore_pieces(s.drop_last());
        if s.last() == '_' {
            prev.push(seq![])
        } else {
            prev.drop_last().push(prev.last().push(s.last()))
        }
    }
}

pub open spec fn trim_start(s: Seq<char>) -> Seq<char>
    decreases s.len(),
{
    if s.len() > 0 && is_white_space(s[0]) {
        trim_start(s.drop_first())
    } else {
        s
    }
}

pub open spec fn trim_end(s: Seq<char>) -> Seq<char>
    decreases s.len(),
{
    if s.len() > 0 && is_white_space(s.last()) {
        trim_end(s.drop_last())
    } else {
        s
    }
}

/// `s` without whitespace at either end.
pub open spec fn trim(s: Seq<char>) -> Seq<char> {
    trim_end(trim_start(s))
}

/// The snake_case parts of a word: its pieces between underscores, trimmed, the
/// empty ones left out.
pub open spec fn snake_parts(w: Seq<char>) -> Seq<Seq<char>> {
    underscore_pieces(w).map_values(|p: Seq<char>| trim(p)).filter(|p: Seq<char>| p.len() > 0)
}

/// The tokens of a text whose cleaning is done: the snake_case parts of each word.
pub open spec fn tokens_of_cleaned(t: Seq<char>) -> Seq<Seq<char>> {
    words(t).map_values(|w: Seq<char>| snake_parts(w)).flatten()
}

/// The text that the splitting steps start from.
pub open spec fn cleaned(s: Seq<char>) -> Seq<char> {
    numbers_collapsed(punctuation_spaced(lower_of(camel_spaced(s))))
}

/// The tokens of a source text.
pub open spec fn tokens_of(s: Seq<char>) -> Seq<Seq<char>> {
    tokens_of_cleaned(cleaned(s))
}

/// The bounds of `trim(v[from..to])` within `v`.
fn trimmed_bounds(v: &Vec<char>, from: usize, to: usize) -> (r: (usize, usize))
    requires
        from <= to <= v.len(),
    ensures
        from <= r.0 <= r.1 <= to,
        v@.subrange(r.0 as int, r.1 as int) == trim(v@.subrange(from as int, to as int)),
{
    let mut a: usize = from;
    while a < to && is_whitespace(v[a])
        invariant
            from <= a <= to <= v.len(),
            trim_start(v@.subrange(from as int, to as int)) == trim_start(
                v@.subrange(a as int, to as int),
            ),
        decreases to - a,
    {
        assert(v@.subrange(a as int, to as int).drop_first() =~= v@.subrange(
            a + 1,
            to as int,
        ));
        a += 1;
    }
    let mut b: usize = to;
    while b > a && is_whitespace(v[b - 1])
        invariant
            from <= a <= b <= to <= v.len(),
            trim_end(v@.subrange(a as int, to as int)) == trim_end(
                v@.subrange(a as int, b as int),
            ),
        decreases b,
    {
        assert(v@.subrange(a as int, b as int).drop_last() =~= v@.subrange(
            a as int,
            b - 1,
        ));
        b -= 1;
    }
    (a, b)
}

/// Taking the last piece into account: it is kept, trimmed, if it is not empty then.
proof fn lemma_snake_parts_last(pieces: Seq<Seq<char>>)
    requires
        pieces.len() > 0,
    ensures
        ({
            let kept = pieces.drop_last().map_values(|p: Seq<char>| trim(p)).filter(
                |p: Seq<char>| p.len() > 0,
            );
            pieces.map_values(|p: Seq<char>| trim(p)).filter(|p: Seq<char>| p.len() > 0) == if trim(
                pieces.last(),
            ).len() > 0 {
                kept.push(trim(pieces.last()))
            } else {
                kept
            }
        }),
{
    reveal(Seq::filter);
    let m = pieces.map_values(|p: Seq<char>| trim(p));
    assert(m.drop_last() =~= pieces.drop_last().map_values(|p: Seq<char>| trim(p)));
}

/// The pieces of `v` that are done: those before the last underscore, trimmed, the
/// empty ones left out.
spec fn closed_parts(v: Seq<char>) -> Seq<Seq<char>> {
    underscore_pieces(v).drop_last().map_values(|p: Seq<char>| trim(p)).filter(
        |p: Seq<char>| p.len() > 0,
    )
}

/// Splits a word on underscores, trims each piece and drops the empty ones.
pub fn tokenize_snakecase(word: String) -> (r: Vec<String>)
    ensures
        texts(r@) == snake_parts(word@),
        forall|i: int| 0 <= i < r.len() ==> r[i]@.len() > 0,
{
    let v = chars_of(word.as_str());
    let mut out: Vec<String> = Vec::new();
    let mut start: usize = 0;
    let mut i: usize = 0;
    while i < v.len()
        invariant
            start <= i <= v.len(),
            v@ == word@,
            forall|k: int| 0 <= k < out.len() ==> out[k]@.len() > 0,
            underscore_pieces(v@.subrange(0, i as int)).len() > 0,
            underscore_pieces(v@.subrange(0, i as int)).last() == v@.subrange(
                start as int,
                i as int,
            ),
            texts(out@) == closed_parts(v@.subrange(0, i as int)),
        decreases v.len() - i,
    {
        let ghost prefix = v@.subrange(0, i as int);
        let ghost pieces = underscore_pieces(prefix);
        if v[i] == '_' {
            let (a, b) = trimmed_bounds(&v, start, i);
            let ghost before = out@;
            if a < b {
                let piece = string_of_range(&v, a, b);
                out.push(piece);
            }
            proof {
                lemma_snake_parts_last(pieces);
                if a < b {
                    assert(texts(out@) =~= texts(before).push(trim(pieces.last())));
                } else {
                    assert(texts(out@) =~= texts(before));
                }
                assert(v@.subrange(0, i + 1) =~= prefix.push('_'));
                assert(v@.subrange(0, i + 1).drop_last() =~= prefix);
                assert(underscore_pieces(v@.subrange(0, i + 1)).drop_last() =~= pieces);
                assert(v@.subrange(i + 1, i + 1) =~= Seq::<char>::empty());
            }
            start = i + 1;
        } else {
            proof {
                let c = v@[i as int];
                assert(v@.subrange(0, i + 1) =~= prefix.push(c));
                assert(v@.subrange(0, i + 1).drop_last() =~= prefix);
                assert(v@.subrange(start as int, i + 1) =~= v@.subrange(
                    start as int,
                    i as int,
                ).push(c));
                assert(underscore_pieces(v@.subrange(0, i + 1)).drop_last() =~= pieces.drop_last());
            }
        }
        i += 1;
    }
    let (a, b) = trimmed_bounds(&v, start, i);
    let ghost before = out@;
    if a < b {
        let piece = string_of_range(&v, a, b);
        out.push(piece);
    }
    proof {
        let pieces = underscore_pieces(v@.subrange(0, i as int));
        lemma_snake_parts_last(pieces);
        if a < b {
            assert(texts(out@) =~= texts(before).push(trim(pieces.last())));
        } else {
            assert(texts(out@) =~= texts(before));
        }
        assert(v@.subrange(0, i as int) =~= word@);
    }
    out
}

/// The snake_case parts of one word.
pub fn tokenize_word(word: String) -> (r: Vec<String>)
    ensures
        texts(r@) == snake_parts(word@),
        forall|i: int| 0 <= i < r.len() ==> r[i]@.len() > 0,
{
    tokenize_snakecase(word)
}

/// Splits `v` on runs of whitespace; no word is empty.
fn split_words(v: &Vec<char>) -> (r: Vec<String>)
    ensures
        texts(r@) == words(v@),
{
    let mut out: Vec<String> = Vec::new();
    let mut start: usize = 0;
    let mut in_word = false;
    let mut i: usize = 0;
    while i < v.len()
        invariant
            start <= i <= v.len(),
            in_word == (i > 0 && !is_white_space(v@[i - 1])),
            in_word ==> start < i && words(v@.subrange(0, i as int)) == texts(out@).push(
                v@.subrange(start as int, i as int),
            ),
            !in_word ==> words(v@.subrange(0, i as int)) == texts(out@),
        decreases v.len() - i,
    {
        let ghost prefix = v@.subrange(0, i as int);
        let ghost before = out@;
        let c = v[i];
        proof {
            assert(v@.subrange(0, i + 1) =~= prefix.push(c));
            assert(v@.subrange(0, i + 1).drop_last() =~= prefix);
        }
        if is_whitespace(c) {
            if in_word {
                let w = string_of_range(v, start, i);
                out.push(w);
                assert(texts(out@) =~= texts(before).push(v@.subrange(start as int, i as int)));
            }
            in_word = false;
        } else {
            if in_word {
                assert(v@.subrange(start as int, i + 1) =~= v@.subrange(start as int, i as int).push(
                    c,
                ));
                assert(texts(out@).push(v@.subrange(start as int, i as int)).drop_last() =~= texts(
                    out@,
                ));
            } else {
                start = i;
                assert(v@.subrange(start as int, i + 1) =~= seq![c]);
            }
            in_word = true;
        }
        i += 1;
    }
    let ghost before = out@;
    if in_word {
        let w = string_of_range(v, start, i);
        out.push(w);
        assert(texts(out@) =~= texts(before).push(v@.subrange(start as int, i as int)));
    }
    assert(v@.subrange(0, i as int) =~= v@);
    out
}

/// Splits a cleaned text into its tokens: on whitespace into words, then each word
/// into its snake_case parts.
pub fn tokenize_cleaned(text: &str) -> (r: Vec<String>)
    ensures
        texts(r@) == tokens_of_cleaned(text@),
        forall|i: int| 0 <= i < r.len() ==> r[i]@.len() > 0,
{
    let v = chars_of(text);
    let ws = split_words(&v);
    let mut acc: Vec<String> = Vec::new();
    let mut k: usize = 0;
    while k < ws.len()
        invariant
            k <= ws.len(),
            texts(ws@) == words(text@),
            texts(acc@) == texts(ws@).subrange(0, k as int).map_values(
                |w: Seq<char>| snake_parts(w),
            ).flatten(),
            forall|i: int| 0 <= i < acc.len() ==> acc[i]@.len() > 0,
        decreases ws.len() - k,
    {
        let parts = tokenize_word(ws[k].clone());
        let ghost base = texts(acc@);
        let mut j: usize = 0;
        while j < parts.len()
            invariant
                j <= parts.len(),
                texts(acc@) == base + texts(parts@).subrange(0, j as int),
                forall|i: int| 0 <= i < acc.len() ==> acc[i]@.len() > 0,
                forall|i: int| 0 <= i < parts.len() ==> parts[i]@.len() > 0,
            decreases parts.len() - j,
        {
            let ghost prev = acc@;
            acc.push(parts[j].clone());
            assert(texts(acc@) =~= texts(prev).push(parts@[j as int]@));
            assert(texts(parts@).subrange(0, j + 1) =~= texts(parts@).subrange(0, j as int).push(
                parts@[j as int]@,
            ));
            j += 1;
        }
        proof {
            let done = texts(ws@).subrange(0, k as int);
            assert(texts(ws@).subrange(0, k + 1) =~= done.push(ws@[k as int]@));
            assert(texts(parts@).subrange(0, j as int) =~= texts(parts@));
        }
        k += 1;
    }
    assert(texts(ws@).subrange(0, k as int) =~= texts(ws@));
    acc
}

/// The tokens of a piece of source code: camelCase boundaries are split, the text
/// is lower-cased, punctuation is set apart, digit runs become `NUMBER`, and the
/// result is split on whitespace and underscores. No token is empty.
pub fn tokenize_python_code(s: String) -> (r: Vec<String>)
    ensures
        texts(r@) == tokens_of(s@),
        forall|i: int| 0 <= i < r.len() ==> r[i]@.len() > 0,
{
    let camel = clean_camelcase(s);
    let lower = lowercase(camel.as_str());
    let cleaned_str = clean_numbers(handle_punctuation(lower));
    tokenize_cleaned(cleaned_str.as_str())
}

} // verus!

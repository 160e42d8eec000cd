//! What holds of every tokenization.

use vstd::prelude::*;
use vstd::seq_lib::lemma_flatten_concat;

use crate::text::is_white_space;
use crate::tokenization::{
    camel_spaced, cleaned, collapsed_at, is_decimal_digit, lower_of, number_placeholder,
    numbers_collapsed, punctuation_spaced, snake_parts, tokens_of, tokens_of_cleaned, trim,
    trim_end, trim_start, underscore_pieces, words,
};

verus! {

/// No character of `s` is a decimal digit.
pub open spec fn digit_free(s: Seq<char>) -> bool {
    forall|i: int| 0 <= i < s.len() ==> !is_decimal_digit(#[trigger] s[i])
}

/// Every element of every member of `ss` has `p`; then so does every element of
/// their concatenation.
proof fn lemma_flatten_all<A>(ss: Seq<Seq<A>>, p: spec_fn(A) -> bool)
    requires
        forall|i: int, j: int| 0 <= i < ss.len() && 0 <= j < ss[i].len() ==> p(#[trigger] ss[i][j]),
    ensures
        forall|k: int| 0 <= k < ss.flatten().len() ==> p(#[trigger] ss.flatten()[k]),
    decreases ss.len(),
{
    if ss.len() > 0 {
        let rest = ss.drop_first();
        assert forall|i: int, j: int| 0 <= i < rest.len() && 0 <= j < rest[i].len() implies p(
            #[trigger] rest[i][j],
        ) by {
            assert(rest[i] == ss[i + 1]);
        }
        lemma_flatten_all(rest, p);
        let f = ss.flatten();
        assert forall|k: int| 0 <= k < f.len() implies p(#[trigger] f[k]) by {
            if k < ss[0].len() {
                assert(f[k] == ss[0][k]);
            } else {
                assert(f[k] == rest.flatten()[k - ss[0].len()]);
            }
        }
    }
}

proof fn lemma_words_digit_free(s: Seq<char>)
    requires
        digit_free(s),
    ensures
        forall|i: int| 0 <= i < words(s).len() ==> digit_free(#[trigger] words(s)[i]),
    decreases s.len(),
{
    if s.len() > 0 {
        let prev = words(s.drop_last());
        assert(digit_free(s.drop_last()));
        lemma_words_digit_free(s.drop_last());
        let c = s.last();
        assert(!is_decimal_digit(c));
        if !is_white_space(c) {
            if s.len() >= 2 && !is_white_space(s[s.len() - 2]) {
                if prev.len() > 0 {
                    assert(digit_free(prev.last()));
                    assert(digit_free(prev.last().push(c)));
                }
            }
        }
    }
}

proof fn lemma_pieces_digit_free(s: Seq<char>)
    requires
        digit_free(s),
    ensures
        forall|i: int|
            0 <= i < underscore_pieces(s).len() ==> digit_free(#[trigger] underscore_pieces(s)[i]),
    decreases s.len(),
{
    if s.len() > 0 {
        let prev = underscore_pieces(s.drop_last());
        assert(digit_free(s.drop_last()));
        lemma_pieces_digit_free(s.drop_last());
        let c = s.last();
        assert(!is_decimal_digit(c));
        if c != '_' && prev.len() > 0 {
            assert(digit_free(prev.last()));
            assert(digit_free(prev.last().push(c)));
        }
    }
}

proof fn lemma_trim_start_digit_free(s: Seq<char>)
    requires
        digit_free(s),
    ensures
        digit_free(trim_start(s)),
    decreases s.len(),
{
    if s.len() > 0 {
        assert(digit_free(s.drop_first()));
        lemma_trim_start_digit_free(s.drop_first());
    }
}

proof fn lemma_trim_end_digit_free(s: Seq<char>)
    requires
        digit_free(s),
    ensures
        digit_free(trim_end(s)),
    decreases s.len(),
{
    if s.len() > 0 {
        assert(digit_free(s.drop_last()));
        lemma_trim_end_digit_free(s.drop_last());
    }
}

proof fn lemma_snake_parts_digit_free(w: Seq<char>)
    requires
        digit_free(w),
    ensures
        forall|i: int| 0 <= i < snake_parts(w).len() ==> digit_free(#[trigger] snake_parts(w)[i]),
{
    let pieces = underscore_pieces(w);
    lemma_pieces_digit_free(w);
    let m = pieces.map_values(|p: Seq<char>| trim(p));
    let keep = |p: Seq<char>| p.len() > 0;
    assert forall|i: int| 0 <= i < snake_parts(w).len() implies digit_free(
        #[trigger] snake_parts(w)[i],
    ) by {
        let t = snake_parts(w)[i];
        assert(m.filter(keep).contains(t));
        m.lemma_filter_contains_rev(keep, t);
        let j = choose|j: int| 0 <= j < m.len() && m[j] == t;
        assert(digit_free(pieces[j]));
        lemma_trim_start_digit_free(pieces[j]);
        lemma_trim_end_digit_free(trim_start(pieces[j]));
    }
}

/// Collapsing digit runs leaves no digit behind.
proof fn lemma_numbers_collapsed_digit_free(s: Seq<char>)
    ensures
        digit_free(numbers_collapsed(s)),
{
    let parts = Seq::new(s.len(), |i: int| collapsed_at(s, i));
    assert forall|i: int, j: int| 0 <= i < parts.len() && 0 <= j < parts[i].len() implies !is_decimal_digit(
        #[trigger] parts[i][j],
    ) by {
        if is_decimal_digit(s[i]) && !(i > 0 && is_decimal_digit(s[i - 1])) {
            assert(parts[i] == number_placeholder());
        }
    }
    lemma_flatten_all(parts, |c: char| !is_decimal_digit(c));
}

/// Tokenizing depends on the text alone: equal texts give equal tokens, call after call.
pub proof fn lemma_tokenize_deterministic(s1: Seq<char>, s2: Seq<char>)
    requires
        s1 == s2,
    ensures
        tokens_of(s1) == tokens_of(s2),
{
}

/// No token is empty.
pub proof fn lemma_tokens_non_empty(s: Seq<char>)
    ensures
        forall|i: int| 0 <= i < tokens_of(s).len() ==> #[trigger] tokens_of(s)[i].len() > 0,
{
    let ws = words(cleaned(s));
    let parts = ws.map_values(|w: Seq<char>| snake_parts(w));
    let keep = |p: Seq<char>| p.len() > 0;
    assert forall|i: int, j: int| 0 <= i < parts.len() && 0 <= j < parts[i].len() implies keep(
        #[trigger] parts[i][j],
    ) by {
        let m = underscore_pieces(ws[i]).map_values(|p: Seq<char>| trim(p));
        m.lemma_filter_pred(keep, j);
    }
    lemma_flatten_all(parts, keep);
}

/// No token holds a decimal digit: every run of digits, whatever its length, is
/// replaced by the placeholder before the text is split.
pub proof fn lemma_tokens_digit_free(s: Seq<char>)
    ensures
        forall|i: int| 0 <= i < tokens_of(s).len() ==> digit_free(#[trigger] tokens_of(s)[i]),
{
    let t = cleaned(s);
    lemma_numbers_collapsed_digit_free(punctuation_spaced(lower_of(camel_spaced(s))));
    lemma_words_digit_free(t);
    let ws = words(t);
    let parts = ws.map_values(|w: Seq<char>| snake_parts(w));
    assert forall|i: int, j: int| 0 <= i < parts.len() && 0 <= j < parts[i].len() implies digit_free(
        #[trigger] parts[i][j],
    ) by {
        lemma_snake_parts_digit_free(ws[i]);
    }
    lemma_flatten_all(parts, |x: Seq<char>| digit_free(x));
    assert(tokens_of(s) == tokens_of_cleaned(t));
}

proof fn lemma_flatten_of_empties<A>(ss: Seq<Seq<A>>)
    requires
        forall|i: int| 0 <= i < ss.len() ==> (#[trigger] ss[i]).len() == 0,
    ensures
        ss.flatten() == Seq::<A>::empty(),
    decreases ss.len(),
{
    if ss.len() > 0 {
        let rest = ss.drop_first();
        assert forall|i: int| 0 <= i < rest.len() implies (#[trigger] rest[i]).len() == 0 by {
            assert(rest[i] == ss[i + 1]);
        }
        lemma_flatten_of_empties(rest);
        assert(ss.flatten() =~= ss[0] + rest.flatten());
    }
}

/// A run of digits of any length, with no digit right before or after it, becomes
/// one placeholder: the text around it is collapsed as it would be on its own.
pub proof fn lemma_digit_run_collapses(a: Seq<char>, d: Seq<char>, b: Seq<char>)
    requires
        d.len() > 0,
        forall|i: int| 0 <= i < d.len() ==> is_decimal_digit(#[trigger] d[i]),
        a.len() > 0 ==> !is_decimal_digit(a.last()),
        b.len() > 0 ==> !is_decimal_digit(b[0]),
    ensures
        numbers_collapsed(a + d + b) == numbers_collapsed(a) + number_placeholder()
            + numbers_collapsed(b),
{
    let s = a + d + b;
    let la = a.len() as int;
    let ld = d.len() as int;
    let parts = Seq::new(s.len(), |i: int| collapsed_at(s, i));
    let pa = Seq::new(a.len(), |i: int| collapsed_at(a, i));
    let pb = Seq::new(b.len(), |i: int| collapsed_at(b, i));
    let pd = parts.subrange(la, la + ld);
    assert(parts.subrange(0, la) =~= pa) by {
        assert forall|i: int| 0 <= i < la implies parts[i] == pa[i] by {
            assert(s[i] == a[i]);
            if i > 0 {
                assert(s[i - 1] == a[i - 1]);
            }
        }
    }
    assert(parts.subrange(la + ld, s.len() as int) =~= pb) by {
        assert forall|j: int| 0 <= j < b.len() implies parts[la + ld + j] == pb[j] by {
            assert(s[la + ld + j] == b[j]);
            if j > 0 {
                assert(s[la + ld + j - 1] == b[j - 1]);
            }
        }
    }
    assert(pd[0] == number_placeholder()) by {
        assert(s[la] == d[0]);
        if la > 0 {
            assert(s[la - 1] == a.last());
        }
    }
    let rest = pd.drop_first();
    assert forall|i: int| 0 <= i < rest.len() implies (#[trigger] rest[i]).len() == 0 by {
        assert(s[la + i + 1] == d[i + 1]);
        assert(s[la + i] == d[i]);
    }
    lemma_flatten_of_empties(rest);
    assert(pd.flatten() =~= number_placeholder());
    assert(parts =~= pa + pd + pb);
    lemma_flatten_concat(pa + pd, pb);
    lemma_flatten_concat(pa, pd);
}

} // verus!

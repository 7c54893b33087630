//! Scanning raw text into tokens.
//!
//! The scanner walks the text left to right. A run of digits, optionally
//! followed by a decimal point and a further run of digits, becomes one
//! numeric literal; each of the eight operator symbols becomes an operator
//! token; every other character (whitespace, commas, letters) is skipped and
//! produces nothing.

use vstd::prelude::*;

use crate::token::{is_operator_char, token_views, Operator, Token, TokenView};

verus! {

/// A decimal digit.
pub open spec fn is_digit_char(c: char) -> bool {
    '0' <= c && c <= '9'
}

/// Length of the longest run of digits at the front of `s`.
pub open spec fn digit_run(s: Seq<char>) -> nat
    decreases s.len(),
{
    if s.len() == 0 || !is_digit_char(s[0]) {
        0
    } else {
        1 + digit_run(s.skip(1))
    }
}

/// Length of the numeric literal at the front of `s` (whose first character
/// is a digit): a run of digits, optionally followed by a decimal point and
/// a further, non-empty run of digits.
pub open spec fn number_len(s: Seq<char>) -> nat {
    let d = digit_run(s) as int;
    if d < s.len() && s[d] == '.' && d + 1 < s.len() && is_digit_char(s[d + 1]) {
        (d + 1 + digit_run(s.skip(d + 1))) as nat
    } else {
        d as nat
    }
}

proof fn lemma_digit_run_le_len(s: Seq<char>)
    ensures
        digit_run(s) <= s.len(),
    decreases s.len(),
{
    if s.len() == 0 || !is_digit_char(s[0]) {
    } else {
        lemma_digit_run_le_len(s.skip(1));
    }
}

proof fn lemma_number_len_bounds(s: Seq<char>)
    requires
        s.len() > 0,
        is_digit_char(s[0]),
    ensures
        1 <= number_len(s) <= s.len(),
{
    lemma_digit_run_le_len(s);
    assert(digit_run(s) >= 1);
    let d = digit_run(s) as int;
    if d < s.len() && s[d] == '.' && d + 1 < s.len() && is_digit_char(s[d + 1]) {
        lemma_digit_run_le_len(s.skip(d + 1));
    }
}

/// The token sequence found in `s`, in order of first character matched.
pub open spec fn spec_tokenize(s: Seq<char>) -> Seq<TokenView>
    decreases s.len() via spec_tokenize_decreases
{
    if s.len() == 0 {
        Seq::empty()
    } else if is_operator_char(s[0]) {
        seq![TokenView::Operator(Operator::spec_from_symbol(s[0]))] + spec_tokenize(s.skip(1))
    } else if is_digit_char(s[0]) {
        let n = number_len(s) as int;
        seq![TokenView::Number(s.take(n))] + spec_tokenize(s.skip(n))
    } else {
        spec_tokenize(s.skip(1))
    }
}

#[via_fn]
proof fn spec_tokenize_decreases(s: Seq<char>) {
    if s.len() > 0 && !is_operator_char(s[0]) && is_digit_char(s[0]) {
        lemma_number_len_bounds(s);
    }
}

/// A digit run is exactly as long as the scan that found it: `j` digits and
/// then either the end of the text or something that is no digit.
proof fn lemma_digit_run_exact(s: Seq<char>, j: int)
    requires
        0 <= j <= s.len(),
        forall|k: int| 0 <= k < j ==> is_digit_char(s[k]),
        j == s.len() || !is_digit_char(s[j]),
    ensures
        digit_run(s) == j,
    decreases j,
{
    if j == 0 {
    } else {
        assert(is_digit_char(s[0]));
        lemma_digit_run_exact(s.skip(1), j - 1);
    }
}

/// The digit run of a concatenation either stops at a non-digit inside `a`
/// or swallows all of `a` and continues into `b`.
proof fn lemma_digit_run_concat(a: Seq<char>, b: Seq<char>)
    ensures
        digit_run(a + b) as int == (if digit_run(a) < a.len() {
            digit_run(a) as int
        } else {
            a.len() + digit_run(b) as int
        }),
    decreases a.len(),
{
    lemma_digit_run_le_len(a);
    if a.len() == 0 {
        assert(a + b =~= b);
    } else if !is_digit_char(a[0]) {
        assert((a + b)[0] == a[0]);
    } else {
        assert((a + b)[0] == a[0]);
        assert((a + b).skip(1) =~= a.skip(1) + b);
        lemma_digit_run_concat(a.skip(1), b);
        lemma_digit_run_le_len(a.skip(1));
    }
}

/// A character that is no digit, no operator symbol and no decimal point
/// never makes it into a token: inserting one splits the scan cleanly in
/// two. This is why whitespace or commas between tokens change nothing.
pub proof fn lemma_tokenize_ignores_noise(s1: Seq<char>, c: char, s2: Seq<char>)
    requires
        !is_digit_char(c),
        !is_operator_char(c),
        c != '.',
    ensures
        spec_tokenize(s1 + seq![c] + s2) == spec_tokenize(s1) + spec_tokenize(s2),
    decreases s1.len(),
{
    let t = s1 + seq![c] + s2;
    if s1.len() == 0 {
        assert(t =~= seq![c] + s2);
        assert(t[0] == c);
        assert(t.skip(1) =~= s2);
        assert(spec_tokenize(s1) =~= Seq::<TokenView>::empty());
        assert(spec_tokenize(s1) + spec_tokenize(s2) =~= spec_tokenize(s2));
    } else if is_operator_char(s1[0]) {
        assert(t[0] == s1[0]);
        assert(t.skip(1) =~= s1.skip(1) + seq![c] + s2);
        lemma_tokenize_ignores_noise(s1.skip(1), c, s2);
        let head = seq![TokenView::Operator(Operator::spec_from_symbol(s1[0]))];
        assert((head + spec_tokenize(s1.skip(1))) + spec_tokenize(s2) =~= head + (spec_tokenize(
            s1.skip(1),
        ) + spec_tokenize(s2)));
    } else if is_digit_char(s1[0]) {
        let d1 = digit_run(s1) as int;
        lemma_digit_run_le_len(s1);
        lemma_digit_run_concat(s1, seq![c] + s2);
        assert(t =~= s1 + (seq![c] + s2));
        if d1 == s1.len() {
            assert((seq![c] + s2)[0] == c);
            assert(digit_run(seq![c] + s2) == 0);
        }
        assert(digit_run(t) as int == d1);
        let n1 = number_len(s1) as int;
        if d1 < s1.len() {
            assert(t[d1] == s1[d1]);
            if s1[d1] == '.' {
                if d1 + 1 < s1.len() {
                    assert(t[d1 + 1] == s1[d1 + 1]);
                    if is_digit_char(s1[d1 + 1]) {
                        assert(t.skip(d1 + 1) =~= s1.skip(d1 + 1) + (seq![c] + s2));
                        lemma_digit_run_concat(s1.skip(d1 + 1), seq![c] + s2);
                        lemma_digit_run_le_len(s1.skip(d1 + 1));
                        if digit_run(s1.skip(d1 + 1)) == s1.skip(d1 + 1).len() {
                            assert((seq![c] + s2)[0] == c);
                            assert(digit_run(seq![c] + s2) == 0);
                        }
                    }
                } else {
                    assert(t[d1 + 1] == c);
                }
            }
        } else {
            assert(t[d1] == c);
        }
        assert(number_len(t) as int == n1);
        lemma_number_len_bounds(s1);
        assert(t.take(n1) =~= s1.take(n1));
        assert(t.skip(n1) =~= s1.skip(n1) + seq![c] + s2);
        lemma_tokenize_ignores_noise(s1.skip(n1), c, s2);
        let head = seq![TokenView::Number(s1.take(n1))];
        assert(spec_tokenize(t) == head + (spec_tokenize(s1.skip(n1)) + spec_tokenize(s2)));
        assert((head + spec_tokenize(s1.skip(n1))) + spec_tokenize(s2) =~= head + (spec_tokenize(
            s1.skip(n1),
        ) + spec_tokenize(s2)));
    } else {
        assert(t[0] == s1[0]);
        assert(t.skip(1) =~= s1.skip(1) + seq![c] + s2);
        lemma_tokenize_ignores_noise(s1.skip(1), c, s2);
    }
}

fn is_digit(c: char) -> (r: bool)
    ensures
        r == is_digit_char(c),
{
    '0' <= c && c <= '9'
}

fn is_operator(c: char) -> (r: bool)
    ensures
        r == is_operator_char(c),
{
    c == '+' || c == '-' || c == '*' || c == '/' || c == '%' || c == '^' || c == '(' || c == ')'
}

/// Scans `text` and returns the tokens it contains, in order.
pub fn tokenize(text: &str) -> (r: Vec<Token>)
    ensures
        token_views(r@) == spec_tokenize(text@),
{
    let n = text.unicode_len();
    let mut tokens: Vec<Token> = Vec::new();
    let mut i: usize = 0;
    proof {
        assert(text@.skip(0) =~= text@);
        assert(token_views(tokens@) =~= Seq::<TokenView>::empty());
        assert(token_views(tokens@) + spec_tokenize(text@) =~= spec_tokenize(text@));
    }
    while i < n
        invariant
            n == text@.len(),
            i <= n,
            token_views(tokens@) + spec_tokenize(text@.skip(i as int)) == spec_tokenize(text@),
        decreases n - i,
    {
        let ghost s = text@;
        let ghost rest = s.skip(i as int);
        let c = text.get_char(i);
        assert(rest[0] == c);
        if is_operator(c) {
            let tok = Token::Operator(Operator::from_symbol(c));
            proof {
                assert(rest.skip(1) =~= s.skip(i + 1));
                assert(token_views(tokens@.push(tok)) =~= token_views(tokens@).push(tok@));
                assert(token_views(tokens@).push(tok@) + spec_tokenize(s.skip(i + 1)) =~= token_views(
                    tokens@,
                ) + spec_tokenize(rest));
            }
            tokens.push(tok);
            i = i + 1;
        } else if is_digit(c) {
            let start = i;
            i = i + 1;
            while i < n && is_digit(text.get_char(i))
                invariant
                    n == text@.len(),
                    s == text@,
                    start < i <= n,
                    forall|k: int| start <= k < i ==> is_digit_char(s[k]),
                decreases n - i,
            {
                i = i + 1;
            }
            let int_end = i;
            proof {
                assert forall|k: int| 0 <= k < int_end - start implies is_digit_char(
                    s.skip(start as int)[k],
                ) by {
                    assert(s.skip(start as int)[k] == s[k + start]);
                }
                lemma_digit_run_exact(s.skip(start as int), int_end - start);
            }
            // A decimal point counts as part of the literal only when at
            // least one digit follows it.
            let has_fraction = int_end < n && text.get_char(int_end) == '.' && int_end + 1 < n
                && is_digit(text.get_char(int_end + 1));
            if has_fraction {
                i = int_end + 2;
                while i < n && is_digit(text.get_char(i))
                    invariant
                        n == text@.len(),
                        s == text@,
                        int_end + 2 <= i <= n,
                        is_digit_char(s[int_end + 1]),
                        forall|k: int| int_end + 2 <= k < i ==> is_digit_char(s[k]),
                    decreases n - i,
                {
                    i = i + 1;
                }
                proof {
                    assert forall|k: int| 0 <= k < i - int_end - 1 implies is_digit_char(
                        #[trigger] s.skip(int_end + 1)[k],
                    ) by {
                        assert(s.skip(int_end + 1)[k] == s[k + int_end + 1]);
                    }
                    lemma_digit_run_exact(s.skip(int_end + 1), i - int_end - 1);
                }
            }
            let end = i;
            proof {
                let d = digit_run(s.skip(start as int)) as int;
                assert(d == int_end - start);
                if has_fraction {
                    assert(s.skip(start as int)[d] == s[int_end as int]);
                    assert(s.skip(start as int)[d + 1] == s[int_end + 1]);
                    assert(s.skip(start as int).skip(d + 1) =~= s.skip(int_end + 1));
                    assert(number_len(s.skip(start as int)) == end - start);
                } else {
                    if d < s.skip(start as int).len() {
                        assert(s.skip(start as int)[d] == s[int_end as int]);
                    }
                    assert(number_len(s.skip(start as int)) == end - start);
                }
            }
            let mut lex: Vec<char> = Vec::new();
            let mut j = start;
            while j < end
                invariant
                    n == text@.len(),
                    s == text@,
                    start <= j <= end <= n,
                    lex@ == s.subrange(start as int, j as int),
                decreases end - j,
            {
                let cj = text.get_char(j);
                proof {
                    assert(s.subrange(start as int, j as int).push(cj) =~= s.subrange(
                        start as int,
                        j + 1,
                    ));
                }
                lex.push(cj);
                j = j + 1;
            }
            let tok = Token::Number(lex);
            proof {
                assert(rest.take(end - start) =~= s.subrange(start as int, end as int));
                assert(rest.skip(end - start) =~= s.skip(end as int));
                assert(spec_tokenize(rest) == seq![tok@] + spec_tokenize(s.skip(end as int)));
                assert(token_views(tokens@.push(tok)) =~= token_views(tokens@).push(tok@));
                assert(token_views(tokens@).push(tok@) + spec_tokenize(s.skip(end as int)) =~= token_views(
                    tokens@,
                ) + spec_tokenize(rest));
            }
            tokens.push(tok);
        } else {
            proof {
                assert(rest.skip(1) =~= s.skip(i + 1));
            }
            i = i + 1;
        }
    }
    proof {
        assert(text@.skip(n as int) =~= Seq::<char>::empty());
        assert(token_views(tokens@) + spec_tokenize(text@.skip(n as int)) =~= token_views(tokens@));
    }
    tokens
}

} // verus!

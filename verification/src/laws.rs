//! Library-wide laws of the tokenizer, each stated and proved over the
//! mathematical model in [`crate::lexer`].

use vstd::prelude::*;

use crate::lexer::{
    KeywordType, SpecToken, begins_with, comment_end, digit_run_end, ident_run_end, is_digit,
    is_ident_char, is_letter, is_operator_char, keyword_text, lemma_comment_end_bounds, lemma_digit_run_bounds,
    lemma_ident_run_bounds, lemma_step_len, spec_step, spec_tokenize,
};

verus! {

/// A whitespace character: space, tab, newline or carriage return.
pub open spec fn is_space(c: char) -> bool {
    c == ' ' || c == '\t' || c == '\n' || c == '\r'
}

/// The text begins with one of the reserved words.
pub open spec fn begins_with_keyword(s: Seq<char>) -> bool {
    ||| begins_with(s, keyword_text(KeywordType::Definition))
    ||| begins_with(s, keyword_text(KeywordType::Extern))
    ||| begins_with(s, keyword_text(KeywordType::If))
    ||| begins_with(s, keyword_text(KeywordType::Then))
    ||| begins_with(s, keyword_text(KeywordType::Else))
}

/// The identifier shape: a letter followed by letters and digits.
pub open spec fn is_identifier_text(s: Seq<char>) -> bool {
    s.len() > 0 && is_letter(s[0]) && (forall|j: int| 0 <= j < s.len() ==> is_ident_char(s[j]))
}

/// Every character of the text is a decimal digit.
pub open spec fn all_digits(s: Seq<char>) -> bool {
    forall|j: int| 0 <= j < s.len() ==> is_digit(s[j])
}

/// The numeric value of one digit.
pub open spec fn digit_value(c: char) -> int {
    c as u32 - '0' as u32
}

/// The value of a digit string read in base ten.
pub open spec fn decimal_value(s: Seq<char>) -> int
    decreases s.len(),
{
    if s.len() == 0 {
        0
    } else {
        decimal_value(s.drop_last()) * 10 + digit_value(s.last())
    }
}

/// The decimal value carried by a number token (zero for any other token).
pub open spec fn number_token_value(t: SpecToken) -> int {
    match t {
        SpecToken::Number(text) => decimal_value(text),
        _ => 0,
    }
}

/// The text consists of nothing but whitespace and comments.
pub open spec fn trivia_only(s: Seq<char>) -> bool
    decreases s.len()
        via trivia_only_decreases
{
    if s.len() == 0 {
        true
    } else if is_space(s[0]) {
        trivia_only(s.skip(1))
    } else if s[0] == '#' {
        trivia_only(s.skip(comment_end(s, 0)))
    } else {
        false
    }
}

#[via_fn]
proof fn trivia_only_decreases(s: Seq<char>) {
    if s.len() > 0 && !is_space(s[0]) && s[0] == '#' {
        lemma_comment_end_bounds(s, 0);
    }
}

/// No reserved word begins with `p` when `p`'s first character is not a
/// letter, since every reserved word is made of letters.
proof fn lemma_keyword_needs_letter(s: Seq<char>)
    requires
        s.len() > 0,
        !is_letter(s[0]),
    ensures
        !begins_with_keyword(s),
        !begins_with(s, keyword_text(KeywordType::Definition)),
        !begins_with(s, keyword_text(KeywordType::Extern)),
        !begins_with(s, keyword_text(KeywordType::If)),
        !begins_with(s, keyword_text(KeywordType::Then)),
        !begins_with(s, keyword_text(KeywordType::Else)),
{
    if begins_with(s, keyword_text(KeywordType::Definition)) {
        assert(s[0] == keyword_text(KeywordType::Definition)[0]);
    }
    if begins_with(s, keyword_text(KeywordType::Extern)) {
        assert(s[0] == keyword_text(KeywordType::Extern)[0]);
    }
    if begins_with(s, keyword_text(KeywordType::If)) {
        assert(s[0] == keyword_text(KeywordType::If)[0]);
    }
    if begins_with(s, keyword_text(KeywordType::Then)) {
        assert(s[0] == keyword_text(KeywordType::Then)[0]);
    }
    if begins_with(s, keyword_text(KeywordType::Else)) {
        assert(s[0] == keyword_text(KeywordType::Else)[0]);
    }
}

/// A mismatched character refutes a prefix claim.
proof fn lemma_mismatch(s: Seq<char>, p: Seq<char>, k: int)
    requires
        0 <= k < p.len(),
        k < s.len(),
        s[k] != p[k],
    ensures
        !begins_with(s, p),
{
    assert(begins_with(s, p) ==> s[k] == p[k]);
}

/// Law: a text of nothing but whitespace and comments yields no tokens.
pub proof fn lemma_trivia_only_no_tokens(s: Seq<char>)
    requires
        trivia_only(s),
    ensures
        spec_tokenize(s) == Seq::<SpecToken>::empty(),
    decreases s.len(),
{
    if s.len() == 0 {
    } else if is_space(s[0]) {
        lemma_keyword_needs_letter(s);
        assert(spec_step(s).0 is None && spec_step(s).1 == 1);
        lemma_trivia_only_no_tokens(s.skip(1));
    } else {
        lemma_comment_end_bounds(s, 0);
        lemma_trivia_only_no_tokens(s.skip(comment_end(s, 0)));
    }
}

/// Law: each reserved word standing alone yields exactly one keyword token
/// of the matching kind — never an identifier.
pub proof fn lemma_keyword_alone(k: KeywordType)
    ensures
        spec_tokenize(keyword_text(k)) == seq![SpecToken::Keyword(k)],
{
    reveal_with_fuel(spec_tokenize, 2);
    let s = keyword_text(k);
    match k {
        KeywordType::Definition => {
            assert(begins_with(s, keyword_text(KeywordType::Definition)));
            assert(s.skip(3) =~= Seq::<char>::empty());
            assert(spec_tokenize(s) =~= seq![SpecToken::Keyword(k)]);
        },
        KeywordType::Extern => {
            lemma_mismatch(s, keyword_text(KeywordType::Definition), 0);
            assert(begins_with(s, keyword_text(KeywordType::Extern)));
            assert(s.skip(6) =~= Seq::<char>::empty());
            assert(spec_tokenize(s) =~= seq![SpecToken::Keyword(k)]);
        },
        KeywordType::If => {
            assert(!begins_with(s, keyword_text(KeywordType::Definition)));
            assert(!begins_with(s, keyword_text(KeywordType::Extern)));
            assert(begins_with(s, keyword_text(KeywordType::If)));
            assert(s.skip(2) =~= Seq::<char>::empty());
            assert(spec_tokenize(s) =~= seq![SpecToken::Keyword(k)]);
        },
        KeywordType::Then => {
            lemma_mismatch(s, keyword_text(KeywordType::Definition), 0);
            assert(!begins_with(s, keyword_text(KeywordType::Extern)));
            lemma_mismatch(s, keyword_text(KeywordType::If), 0);
            assert(begins_with(s, keyword_text(KeywordType::Then)));
            assert(s.skip(4) =~= Seq::<char>::empty());
            assert(spec_tokenize(s) =~= seq![SpecToken::Keyword(k)]);
        },
        KeywordType::Else => {
            lemma_mismatch(s, keyword_text(KeywordType::Definition), 0);
            assert(!begins_with(s, keyword_text(KeywordType::Extern)));
            lemma_mismatch(s, keyword_text(KeywordType::If), 0);
            lemma_mismatch(s, keyword_text(KeywordType::Then), 0);
            assert(begins_with(s, keyword_text(KeywordType::Else)));
            assert(s.skip(4) =~= Seq::<char>::empty());
            assert(spec_tokenize(s) =~= seq![SpecToken::Keyword(k)]);
        },
    }
}

/// Law: an identifier-shaped text that does not begin with a reserved word
/// yields exactly one identifier token carrying the whole text.
///
/// The guard is needed because the keyword-first rule splits a text such as
/// `define` into the keyword `def` and the identifier `ine`, even though
/// `define` is identifier-shaped and equal to no reserved word.
pub proof fn lemma_identifier_alone(s: Seq<char>)
    requires
        is_identifier_text(s),
        !begins_with_keyword(s),
    ensures
        spec_tokenize(s) == seq![SpecToken::Identifier(s)],
{
    reveal_with_fuel(spec_tokenize, 2);
    lemma_ident_run_bounds(s, 0);
    let e = ident_run_end(s, 0);
    assert(e == s.len());
    assert(s.subrange(0, e) =~= s);
    assert(s.skip(e) =~= Seq::<char>::empty());
    assert(spec_tokenize(s) =~= seq![SpecToken::Identifier(s)]);
}

/// Law: a non-empty all-digit text yields exactly one number token; the
/// token carries the text itself, so its decimal value is the decimal value
/// of the input.
pub proof fn lemma_digits_alone(d: Seq<char>)
    requires
        d.len() > 0,
        all_digits(d),
    ensures
        spec_tokenize(d) == seq![SpecToken::Number(d)],
        number_token_value(spec_tokenize(d)[0]) == decimal_value(d),
{
    reveal_with_fuel(spec_tokenize, 2);
    lemma_keyword_needs_letter(d);
    lemma_digit_run_bounds(d, 0);
    let e = digit_run_end(d, 0);
    assert(e == d.len());
    assert(d.subrange(0, e) =~= d);
    assert(d.skip(e) =~= Seq::<char>::empty());
    assert(spec_tokenize(d) =~= seq![SpecToken::Number(d)]);
}

/// A comment scan in `a` and in `a` followed by a newline and `b` agree,
/// except that a comment running off the end of `a` also swallows the
/// separating newline.
proof fn lemma_comment_end_extend(a: Seq<char>, b: Seq<char>, i: int)
    requires
        0 <= i <= a.len(),
    ensures
        ({
            let s = a + seq!['\n'] + b;
            comment_end(s, i) == comment_end(a, i) || (comment_end(a, i) == a.len()
                && comment_end(s, i) == a.len() + 1)
        }),
    decreases a.len() - i,
{
    let s = a + seq!['\n'] + b;
    if i < a.len() {
        assert(s[i] == a[i]);
        if a[i] != '\n' {
            lemma_comment_end_extend(a, b, i + 1);
        }
    } else {
        assert(s[i] == '\n');
    }
}

/// An identifier run never crosses the separating newline.
proof fn lemma_ident_run_extend(a: Seq<char>, b: Seq<char>, i: int)
    requires
        0 <= i <= a.len(),
    ensures
        ident_run_end(a + seq!['\n'] + b, i) == ident_run_end(a, i),
    decreases a.len() - i,
{
    let s = a + seq!['\n'] + b;
    if i < a.len() {
        assert(s[i] == a[i]);
        if is_ident_char(a[i]) {
            lemma_ident_run_extend(a, b, i + 1);
        }
    } else {
        assert(s[i] == '\n');
        assert(!is_ident_char('\n'));
    }
}

/// A digit run never crosses the separating newline.
proof fn lemma_digit_run_extend(a: Seq<char>, b: Seq<char>, i: int)
    requires
        0 <= i <= a.len(),
    ensures
        digit_run_end(a + seq!['\n'] + b, i) == digit_run_end(a, i),
    decreases a.len() - i,
{
    let s = a + seq!['\n'] + b;
    if i < a.len() {
        assert(s[i] == a[i]);
        if is_digit(a[i]) {
            lemma_digit_run_extend(a, b, i + 1);
        }
    } else {
        assert(s[i] == '\n');
        assert(!is_digit('\n'));
    }
}

/// A newline-free text is a prefix of `a` exactly when it is a prefix of
/// `a` followed by a newline and `b`.
proof fn lemma_begins_with_extend(a: Seq<char>, b: Seq<char>, p: Seq<char>)
    requires
        forall|k: int| 0 <= k < p.len() ==> p[k] != '\n',
    ensures
        begins_with(a + seq!['\n'] + b, p) == begins_with(a, p),
{
    let s = a + seq!['\n'] + b;
    if p.len() <= a.len() {
        if begins_with(a, p) {
            assert forall|k: int| 0 <= k < p.len() implies s[k] == p[k] by {
                assert(a[k] == p[k]);
            }
        }
        if begins_with(s, p) {
            assert forall|k: int| 0 <= k < p.len() implies a[k] == p[k] by {
                assert(s[k] == p[k]);
            }
        }
    } else {
        assert(!begins_with(a, p));
        if begins_with(s, p) {
            assert(s[a.len() as int] == '\n');
            assert(s[a.len() as int] == p[a.len() as int]);
            assert(false);
        }
    }
}

/// One scanning step on `a` followed by a newline and `b` behaves as the
/// step on `a` alone, except that a comment running off the end of `a` also
/// swallows the separating newline.
proof fn lemma_step_extend(a: Seq<char>, b: Seq<char>)
    requires
        a.len() > 0,
    ensures
        ({
            let s = a + seq!['\n'] + b;
            (spec_step(s).0 == spec_step(a).0 && spec_step(s).1 == spec_step(a).1 && 1 <= spec_step(
                a,
            ).1 <= a.len()) || (a[0] == '#' && spec_step(a).0 is None && spec_step(a).1 == a.len()
                && spec_step(s).0 is None && spec_step(s).1 == a.len() + 1)
        }),
{
    let s = a + seq!['\n'] + b;
    assert(s[0] == a[0]);
    lemma_step_len(a);
    lemma_begins_with_extend(a, b, keyword_text(KeywordType::Definition));
    lemma_begins_with_extend(a, b, keyword_text(KeywordType::Extern));
    lemma_begins_with_extend(a, b, keyword_text(KeywordType::If));
    lemma_begins_with_extend(a, b, keyword_text(KeywordType::Then));
    lemma_begins_with_extend(a, b, keyword_text(KeywordType::Else));
    if a[0] == '#' {
        lemma_comment_end_extend(a, b, 0);
        lemma_comment_end_bounds(a, 0);
        lemma_comment_end_bounds(s, 0);
    } else if begins_with_keyword(a) {
    } else if is_letter(a[0]) {
        lemma_ident_run_extend(a, b, 0);
        lemma_ident_run_bounds(a, 0);
        let e = ident_run_end(a, 0);
        assert(s.subrange(0, e) =~= a.subrange(0, e));
    } else if a[0] == '(' || a[0] == ')' || a[0] == ',' || a[0] == ';' {
    } else if is_digit(a[0]) {
        lemma_digit_run_extend(a, b, 0);
        lemma_digit_run_bounds(a, 0);
        let j = digit_run_end(a, 0);
        if j < a.len() {
            assert(s[j] == a[j]);
            if a[j] == '.' {
                if j + 1 < a.len() {
                    assert(s[j + 1] == a[j + 1]);
                    if is_digit(a[j + 1]) {
                        lemma_digit_run_extend(a, b, j + 1);
                        lemma_digit_run_bounds(a, j + 1);
                        let e = digit_run_end(a, j + 1);
                        assert(s.subrange(0, e) =~= a.subrange(0, e));
                    } else {
                        assert(s.subrange(0, j) =~= a.subrange(0, j));
                    }
                } else {
                    // the dot is the last character of `a`; in `s` it is
                    // followed by the newline, which is no digit
                    assert(s[j + 1] == '\n');
                    assert(s.subrange(0, j) =~= a.subrange(0, j));
                }
            } else {
                assert(s.subrange(0, j) =~= a.subrange(0, j));
            }
        } else {
            // the digit run reaches the end of `a`; in `s` it is followed
            // by the newline, which is neither dot nor digit
            assert(s[j] == '\n');
            assert(s.subrange(0, j) =~= a.subrange(0, j));
        }
    } else if a[0] == '.' {
        if a.len() >= 2 {
            assert(s[1] == a[1]);
            if is_digit(a[1]) {
                lemma_digit_run_extend(a, b, 1);
                lemma_digit_run_bounds(a, 1);
                let e = digit_run_end(a, 1);
                assert(s.subrange(0, e) =~= a.subrange(0, e));
            }
        } else {
            assert(s[1] == '\n');
        }
    } else if is_operator_char(a[0]) {
        assert(seq![s[0]] =~= seq![a[0]]);
    } else {
    }
}

/// Law: tokenizing two texts joined by a newline yields the concatenation of
/// their two token sequences, whatever the texts are. (The newline both
/// separates adjacent tokens and terminates a comment left open at the end
/// of the first text; a space or tab separator would not do the latter.)
pub proof fn lemma_tokenize_concat(a: Seq<char>, b: Seq<char>)
    ensures
        spec_tokenize(a + seq!['\n'] + b) == spec_tokenize(a) + spec_tokenize(b),
    decreases a.len(),
{
    let s = a + seq!['\n'] + b;
    assert(s.len() == a.len() + 1 + b.len());
    if a.len() == 0 {
        assert(s[0] == '\n');
        lemma_keyword_needs_letter(s);
        assert(spec_step(s).0 is None && spec_step(s).1 == 1);
        assert(s.skip(1) =~= b);
        assert(spec_tokenize(a) =~= Seq::<SpecToken>::empty());
        assert(spec_tokenize(a) + spec_tokenize(b) =~= spec_tokenize(b));
    } else {
        lemma_step_extend(a, b);
        lemma_step_len(a);
        lemma_step_len(s);
        if spec_step(s).0 == spec_step(a).0 && spec_step(s).1 == spec_step(a).1 && spec_step(a).1
            <= a.len() {
            let m = spec_step(a).1;
            assert(s.skip(m) =~= a.skip(m) + seq!['\n'] + b);
            lemma_tokenize_concat(a.skip(m), b);
            let rest = spec_tokenize(a.skip(m));
            match spec_step(a).0 {
                Some(t) => {
                    assert(seq![t] + (rest + spec_tokenize(b)) =~= (seq![t] + rest)
                        + spec_tokenize(b));
                },
                None => {},
            }
        } else {
            assert(spec_step(a).1 == a.len() && spec_step(s).1 == a.len() + 1);
            assert(s.skip((a.len() + 1) as int) =~= b);
            assert(a.skip(a.len() as int) =~= Seq::<char>::empty());
            assert(spec_tokenize(a) =~= Seq::<SpecToken>::empty()) by {
                reveal_with_fuel(spec_tokenize, 2);
            }
            assert(Seq::<SpecToken>::empty() + spec_tokenize(b) =~= spec_tokenize(b));
        }
    }
}

} // verus!

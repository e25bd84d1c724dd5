//! The tokenizer: source text in, ordered token sequence out.
//!
//! The grammar is expressed twice: once as a mathematical model over
//! `Seq<char>` (`spec_step`, `spec_tokenize`) and once as executable code
//! (`tokenize`), with the latter proved equal to the former.

use vstd::prelude::*;

verus! {

/// The closed set of reserved words.
#[derive(Clone, Debug, PartialEq, Eq, Structural)]
pub enum KeywordType {
    /// `def`, introduces a function definition.
    Definition,
    /// `extern`, introduces an external declaration.
    Extern,
    /// `if`
    If,
    /// `then`
    Then,
    /// `else`
    Else,
}

/// One lexical unit of the source text.
///
/// A `Number` carries the exact literal text it was scanned from (one of the
/// shapes `12`, `3.14`, `.4`), so no precision is lost at scan time; turning
/// that text into a machine number is a downstream concern.
#[derive(Clone, Debug, PartialEq)]
pub enum Token {
    /// A reserved keyword.
    Keyword(KeywordType),
    /// A word (letter followed by letters/digits) that is not a keyword.
    Identifier(String),
    /// `(`
    OpenParenthesis,
    /// `)`
    CloseParenthesis,
    /// `,`
    Comma,
    /// `;`
    Semicolon,
    /// A numeric literal, carrying its exact source text.
    Number(String),
    /// A single-character operator from `+ - * / < > =`.
    Operator(String),
}

/// The mathematical shape of a token: the same variants as [`Token`], with
/// text payloads abstracted to character sequences.
pub enum SpecToken {
    Keyword(KeywordType),
    Identifier(Seq<char>),
    OpenParenthesis,
    CloseParenthesis,
    Comma,
    Semicolon,
    Number(Seq<char>),
    Operator(Seq<char>),
}

impl View for Token {
    type V = SpecToken;

    open spec fn view(&self) -> SpecToken {
        match self {
            Token::Keyword(k) => SpecToken::Keyword(*k),
            Token::Identifier(s) => SpecToken::Identifier(s@),
            Token::OpenParenthesis => SpecToken::OpenParenthesis,
            Token::CloseParenthesis => SpecToken::CloseParenthesis,
            Token::Comma => SpecToken::Comma,
            Token::Semicolon => SpecToken::Semicolon,
            Token::Number(s) => SpecToken::Number(s@),
            Token::Operator(s) => SpecToken::Operator(s@),
        }
    }
}

impl DeepView for Token {
    type V = SpecToken;

    open spec fn deep_view(&self) -> SpecToken {
        self.view()
    }
}

/// An ASCII letter.
pub open spec fn is_letter(c: char) -> bool {
    ('a' <= c && c <= 'z') || ('A' <= c && c <= 'Z')
}

/// A decimal digit.
pub open spec fn is_digit(c: char) -> bool {
    '0' <= c && c <= '9'
}

/// A character that may continue an identifier.
pub open spec fn is_ident_char(c: char) -> bool {
    is_letter(c) || is_digit(c)
}

/// A single-character operator.
pub open spec fn is_operator_char(c: char) -> bool {
    c == '+' || c == '-' || c == '*' || c == '/' || c == '<' || c == '>' || c == '='
}

/// The literal text of each reserved word.
pub open spec fn keyword_text(k: KeywordType) -> Seq<char> {
    match k {
        KeywordType::Definition => seq!['d', 'e', 'f'],
        KeywordType::Extern => seq!['e', 'x', 't', 'e', 'r', 'n'],
        KeywordType::If => seq!['i', 'f'],
        KeywordType::Then => seq!['t', 'h', 'e', 'n'],
        KeywordType::Else => seq!['e', 'l', 's', 'e'],
    }
}

/// `p` is a prefix of `s`.
pub open spec fn begins_with(s: Seq<char>, p: Seq<char>) -> bool {
    p.len() <= s.len() && (forall|k: int| 0 <= k < p.len() ==> s[k] == p[k])
}

/// The scan position just past a comment whose body starts at `i`: one past
/// the first newline at or after `i`, or the end of the text if no newline
/// follows (a comment at the end of the input is honoured to the end).
pub open spec fn comment_end(s: Seq<char>, i: int) -> int
    decreases s.len() - i,
{
    if 0 <= i < s.len() {
        if s[i] == '\n' {
            i + 1
        } else {
            comment_end(s, i + 1)
        }
    } else {
        i
    }
}

/// The end of the run of identifier characters starting at `i`.
pub open spec fn ident_run_end(s: Seq<char>, i: int) -> int
    decreases s.len() - i,
{
    if 0 <= i < s.len() && is_ident_char(s[i]) {
        ident_run_end(s, i + 1)
    } else {
        i
    }
}

/// The end of the run of digits starting at `i`.
pub open spec fn digit_run_end(s: Seq<char>, i: int) -> int
    decreases s.len() - i,
{
    if 0 <= i < s.len() && is_digit(s[i]) {
        digit_run_end(s, i + 1)
    } else {
        i
    }
}

pub proof fn lemma_comment_end_bounds(s: Seq<char>, i: int)
    requires
        0 <= i <= s.len(),
    ensures
        i <= comment_end(s, i) <= s.len(),
        i < s.len() ==> i + 1 <= comment_end(s, i),
        comment_end(s, i) < s.len() ==> s[comment_end(s, i) - 1] == '\n',
        forall|j: int| i <= j < comment_end(s, i) - 1 ==> s[j] != '\n',
    decreases s.len() - i,
{
    if 0 <= i < s.len() && s[i] != '\n' {
        lemma_comment_end_bounds(s, i + 1);
    }
}

pub proof fn lemma_ident_run_bounds(s: Seq<char>, i: int)
    requires
        0 <= i <= s.len(),
    ensures
        i <= ident_run_end(s, i) <= s.len(),
        forall|j: int| i <= j < ident_run_end(s, i) ==> is_ident_char(s[j]),
        ident_run_end(s, i) == s.len() || !is_ident_char(s[ident_run_end(s, i)]),
    decreases s.len() - i,
{
    if 0 <= i < s.len() && is_ident_char(s[i]) {
        lemma_ident_run_bounds(s, i + 1);
    }
}

pub proof fn lemma_digit_run_bounds(s: Seq<char>, i: int)
    requires
        0 <= i <= s.len(),
    ensures
        i <= digit_run_end(s, i) <= s.len(),
        forall|j: int| i <= j < digit_run_end(s, i) ==> is_digit(s[j]),
        digit_run_end(s, i) == s.len() || !is_digit(s[digit_run_end(s, i)]),
    decreases s.len() - i,
{
    if 0 <= i < s.len() && is_digit(s[i]) {
        lemma_digit_run_bounds(s, i + 1);
    }
}

/// One scanning step on a non-empty text: the token produced at position 0
/// (or `None` for trivia and unrecognized characters) and the number of
/// characters consumed. The rules are tried in priority order: comment,
/// reserved words, identifier, punctuation, number, operator; the first that
/// matches wins, and an unmatched character is consumed without a token.
pub open spec fn spec_step(s: Seq<char>) -> (Option<SpecToken>, int)
    recommends
        s.len() > 0,
{
    if s[0] == '#' {
        (None, comment_end(s, 0))
    } else if begins_with(s, keyword_text(KeywordType::Definition)) {
        (Some(SpecToken::Keyword(KeywordType::Definition)), 3)
    } else if begins_with(s, keyword_text(KeywordType::Extern)) {
        (Some(SpecToken::Keyword(KeywordType::Extern)), 6)
    } else if begins_with(s, keyword_text(KeywordType::If)) {
        (Some(SpecToken::Keyword(KeywordType::If)), 2)
    } else if begins_with(s, keyword_text(KeywordType::Then)) {
        (Some(SpecToken::Keyword(KeywordType::Then)), 4)
    } else if begins_with(s, keyword_text(KeywordType::Else)) {
        (Some(SpecToken::Keyword(KeywordType::Else)), 4)
    } else if is_letter(s[0]) {
        (Some(SpecToken::Identifier(s.subrange(0, ident_run_end(s, 0)))), ident_run_end(s, 0))
    } else if s[0] == '(' {
        (Some(SpecToken::OpenParenthesis), 1)
    } else if s[0] == ')' {
        (Some(SpecToken::CloseParenthesis), 1)
    } else if s[0] == ',' {
        (Some(SpecToken::Comma), 1)
    } else if s[0] == ';' {
        (Some(SpecToken::Semicolon), 1)
    } else if is_digit(s[0]) {
        let j: int = digit_run_end(s, 0);
        if j < s.len() && s[j] == '.' && j + 1 < s.len() && is_digit(s[j + 1]) {
            let k: int = digit_run_end(s, j + 1);
            (Some(SpecToken::Number(s.subrange(0, k))), k)
        } else {
            (Some(SpecToken::Number(s.subrange(0, j))), j)
        }
    } else if s[0] == '.' && s.len() >= 2 && is_digit(s[1]) {
        let k: int = digit_run_end(s, 1);
        (Some(SpecToken::Number(s.subrange(0, k))), k)
    } else if is_operator_char(s[0]) {
        (Some(SpecToken::Operator(seq![s[0]])), 1)
    } else {
        (None, 1)
    }
}

/// Every step on a non-empty text consumes at least one character and never
/// runs past the end.
pub proof fn lemma_step_len(s: Seq<char>)
    requires
        s.len() > 0,
    ensures
        1 <= spec_step(s).1 <= s.len(),
{
    lemma_comment_end_bounds(s, 0);
    lemma_ident_run_bounds(s, 0);
    lemma_ident_run_bounds(s, 1);
    lemma_digit_run_bounds(s, 0);
    lemma_digit_run_bounds(s, 1);
    let j: int = digit_run_end(s, 0);
    if is_digit(s[0]) && j < s.len() && s[j] == '.' && j + 1 < s.len() && is_digit(s[j + 1]) {
        lemma_digit_run_bounds(s, j + 1);
        lemma_digit_run_bounds(s, j + 2);
    }
}

/// The token sequence of a text: step at position 0, then tokenize what
/// remains. Comments and unrecognized characters contribute no token.
pub open spec fn spec_tokenize(s: Seq<char>) -> Seq<SpecToken>
    decreases s.len()
        via spec_tokenize_decreases
{
    if s.len() == 0 {
        Seq::empty()
    } else {
        let rest: Seq<SpecToken> = spec_tokenize(s.skip(spec_step(s).1));
        match spec_step(s).0 {
            Some(t) => seq![t] + rest,
            None => rest,
        }
    }
}

#[via_fn]
proof fn spec_tokenize_decreases(s: Seq<char>) {
    if s.len() > 0 {
        lemma_step_len(s);
    }
}

/// The reserved-word spec texts are exactly the corresponding literals.
proof fn lemma_keyword_literals()
    ensures
        "def"@ == keyword_text(KeywordType::Definition),
        "extern"@ == keyword_text(KeywordType::Extern),
        "if"@ == keyword_text(KeywordType::If),
        "then"@ == keyword_text(KeywordType::Then),
        "else"@ == keyword_text(KeywordType::Else),
{
    reveal_strlit("def");
    reveal_strlit("extern");
    reveal_strlit("if");
    reveal_strlit("then");
    reveal_strlit("else");
    assert("def"@ =~= keyword_text(KeywordType::Definition));
    assert("extern"@ =~= keyword_text(KeywordType::Extern));
    assert("if"@ =~= keyword_text(KeywordType::If));
    assert("then"@ =~= keyword_text(KeywordType::Then));
    assert("else"@ =~= keyword_text(KeywordType::Else));
}

fn letter_char(c: char) -> (r: bool)
    ensures
        r == is_letter(c),
{
    ('a' <= c && c <= 'z') || ('A' <= c && c <= 'Z')
}

fn digit_char(c: char) -> (r: bool)
    ensures
        r == is_digit(c),
{
    '0' <= c && c <= '9'
}

fn ident_char(c: char) -> (r: bool)
    ensures
        r == is_ident_char(c),
{
    letter_char(c) || digit_char(c)
}

fn operator_char(c: char) -> (r: bool)
    ensures
        r == is_operator_char(c),
{
    c == '+' || c == '-' || c == '*' || c == '/' || c == '<' || c == '>' || c == '='
}

/// Whether the text starting at position `i` of `input` begins with `p`.
fn begins_with_at(input: &str, n: usize, i: usize, p: &str) -> (b: bool)
    requires
        n == input@.len(),
        i <= n,
    ensures
        b == begins_with(input@.skip(i as int), p@),
{
    let m: usize = p.unicode_len();
    if m > n - i {
        return false;
    }
    let mut j: usize = 0;
    while j < m
        invariant
            n == input@.len(),
            m == p@.len(),
            i <= n,
            m <= n - i,
            j <= m,
            forall|k: int| 0 <= k < j ==> input@.skip(i as int)[k] == p@[k],
        decreases m - j,
    {
        if input.get_char(i + j) != p.get_char(j) {
            assert(input@.skip(i as int)[j as int] != p@[j as int]);
            return false;
        }
        j += 1;
    }
    true
}

/// The absolute position just past the comment that starts at or after `i`.
fn scan_comment_end(input: &str, n: usize, i: usize) -> (e: usize)
    requires
        n == input@.len(),
        i <= n,
    ensures
        i <= e <= n,
        e - i == comment_end(input@.skip(i as int), 0),
{
    let ghost suf = input@.skip(i as int);
    let mut j: usize = i;
    while j < n
        invariant
            n == input@.len(),
            i <= j <= n,
            suf == input@.skip(i as int),
            comment_end(suf, 0) == comment_end(suf, j - i),
        decreases n - j,
    {
        let c = input.get_char(j);
        proof {
            assert(suf[j - i] == input@[j as int]);
        }
        if c == '\n' {
            return j + 1;
        }
        j += 1;
    }
    n
}

/// The absolute end of the run of identifier characters that starts at
/// `from`, related to the suffix of `input` that starts at `i`.
fn scan_ident_end(input: &str, n: usize, i: usize, from: usize) -> (e: usize)
    requires
        n == input@.len(),
        i <= from <= n,
    ensures
        from <= e <= n,
        e - i == ident_run_end(input@.skip(i as int), from - i),
{
    let ghost suf = input@.skip(i as int);
    let mut j: usize = from;
    while j < n
        invariant
            n == input@.len(),
            i <= from <= j <= n,
            suf == input@.skip(i as int),
            ident_run_end(suf, from - i) == ident_run_end(suf, j - i),
        decreases n - j,
    {
        let c = input.get_char(j);
        proof {
            assert(suf[j - i] == input@[j as int]);
        }
        if !ident_char(c) {
            return j;
        }
        j += 1;
    }
    n
}

/// The absolute end of the run of digits that starts at `from`, related to
/// the suffix of `input` that starts at `i`.
fn scan_digit_end(input: &str, n: usize, i: usize, from: usize) -> (e: usize)
    requires
        n == input@.len(),
        i <= from <= n,
    ensures
        from <= e <= n,
        e - i == digit_run_end(input@.skip(i as int), from - i),
{
    let ghost suf = input@.skip(i as int);
    let mut j: usize = from;
    while j < n
        invariant
            n == input@.len(),
            i <= from <= j <= n,
            suf == input@.skip(i as int),
            digit_run_end(suf, from - i) == digit_run_end(suf, j - i),
        decreases n - j,
    {
        let c = input.get_char(j);
        proof {
            assert(suf[j - i] == input@[j as int]);
        }
        if !digit_char(c) {
            return j;
        }
        j += 1;
    }
    n
}

/// One scanning step at position `i`: the token scanned there, if any, and
/// the number of characters consumed, exactly as [`spec_step`] prescribes
/// for the suffix starting at `i`.
fn step(input: &str, n: usize, i: usize) -> (r: (Option<Token>, usize))
    requires
        n == input@.len(),
        i < n,
    ensures
        ({
            let st = spec_step(input@.skip(i as int));
            &&& r.1 == st.1
            &&& 1 <= r.1 && i + r.1 <= n
            &&& (match r.0 {
                Some(t) => st.0 == Some(t@),
                None => st.0 == None::<SpecToken>,
            })
        }),
{
    let ghost suf = input@.skip(i as int);
    proof {
        lemma_step_len(suf);
        lemma_keyword_literals();
        assert(suf[0] == input@[i as int]);
    }
    let c = input.get_char(i);
    if c == '#' {
        let e = scan_comment_end(input, n, i);
        (None, e - i)
    } else if begins_with_at(input, n, i, "def") {
        (Some(Token::Keyword(KeywordType::Definition)), 3)
    } else if begins_with_at(input, n, i, "extern") {
        (Some(Token::Keyword(KeywordType::Extern)), 6)
    } else if begins_with_at(input, n, i, "if") {
        (Some(Token::Keyword(KeywordType::If)), 2)
    } else if begins_with_at(input, n, i, "then") {
        (Some(Token::Keyword(KeywordType::Then)), 4)
    } else if begins_with_at(input, n, i, "else") {
        (Some(Token::Keyword(KeywordType::Else)), 4)
    } else if letter_char(c) {
        let e = scan_ident_end(input, n, i, i);
        let text = input.substring_char(i, e).to_owned();
        proof {
            assert(text@ =~= suf.subrange(0, e - i));
        }
        (Some(Token::Identifier(text)), e - i)
    } else if c == '(' {
        (Some(Token::OpenParenthesis), 1)
    } else if c == ')' {
        (Some(Token::CloseParenthesis), 1)
    } else if c == ',' {
        (Some(Token::Comma), 1)
    } else if c == ';' {
        (Some(Token::Semicolon), 1)
    } else if digit_char(c) {
        let j = scan_digit_end(input, n, i, i);
        proof {
            if j < n {
                assert(suf[j - i] == input@[j as int]);
            }
            if j + 1 < n {
                assert(suf[j + 1 - i] == input@[j + 1]);
            }
        }
        if j < n && input.get_char(j) == '.' && j + 1 < n && digit_char(input.get_char(j + 1)) {
            let k = scan_digit_end(input, n, i, j + 1);
            let text = input.substring_char(i, k).to_owned();
            proof {
                assert(text@ =~= suf.subrange(0, k - i));
            }
            (Some(Token::Number(text)), k - i)
        } else {
            let text = input.substring_char(i, j).to_owned();
            proof {
                assert(text@ =~= suf.subrange(0, j - i));
            }
            (Some(Token::Number(text)), j - i)
        }
    } else if c == '.' && i + 1 < n && {
        let c1 = input.get_char(i + 1);
        proof {
            assert(suf[1] == input@[i + 1]);
        }
        digit_char(c1)
    } {
        let k = scan_digit_end(input, n, i, i + 1);
        let text = input.substring_char(i, k).to_owned();
        proof {
            assert(text@ =~= suf.subrange(0, k - i));
        }
        (Some(Token::Number(text)), k - i)
    } else if operator_char(c) {
        let sym = input.substring_char(i, i + 1).to_owned();
        proof {
            assert(sym@ =~= seq![suf[0]]);
        }
        (Some(Token::Operator(sym)), 1)
    } else {
        (None, 1)
    }
}

/// Convert a complete source text into its ordered sequence of tokens, in
/// one left-to-right pass.
///
/// The result is exactly the token sequence that the mathematical model
/// [`spec_tokenize`] assigns to the text: rules are tried in priority order
/// at each position (comment, reserved word, identifier, punctuation,
/// number, operator), the first match is consumed, comments and whitespace
/// produce no token, and a character that matches no rule is silently
/// skipped. The empty input yields the empty sequence.
pub fn tokenize(input: &str) -> (tokens: Vec<Token>)
    ensures
        tokens.deep_view() == spec_tokenize(input@),
{
    let n: usize = input.unicode_len();
    let mut tokens: Vec<Token> = Vec::new();
    let mut i: usize = 0;
    proof {
        assert(input@.skip(0) =~= input@);
        assert(tokens.deep_view() =~= Seq::<SpecToken>::empty());
        assert(Seq::<SpecToken>::empty() + spec_tokenize(input@) =~= spec_tokenize(input@));
    }
    while i < n
        invariant
            n == input@.len(),
            i <= n,
            spec_tokenize(input@) == tokens.deep_view() + spec_tokenize(input@.skip(i as int)),
        decreases n - i,
    {
        let ghost pre = tokens.deep_view();
        let ghost suf = input@.skip(i as int);
        let (t, used) = step(input, n, i);
        proof {
            assert(suf.skip(spec_step(suf).1) =~= input@.skip(i + used));
        }
        let ghost rest = spec_tokenize(input@.skip(i + used));
        match t {
            Some(tok) => {
                let ghost tv = tok@;
                tokens.push(tok);
                proof {
                    assert(tokens.deep_view() =~= pre.push(tv));
                    assert(pre.push(tv) + rest =~= pre + (seq![tv] + rest));
                }
            },
            None => {},
        }
        i = i + used;
    }
    proof {
        assert(input@.skip(i as int) =~= Seq::<char>::empty());
        assert(tokens.deep_view() + spec_tokenize(input@.skip(i as int)) =~= tokens.deep_view());
    }
    tokens
}

} // verus!

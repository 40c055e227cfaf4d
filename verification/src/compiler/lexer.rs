//! Tokenizer for the Java subset the route compiler reads. It never fails on
//! characters it does not know (they become `Token::Other`); the only error is
//! a string literal that is never closed.
use vstd::prelude::*;
use crate::text::{char_alphabetic, char_alphanumeric, chars_of, copy_string, decimal, is_alphabetic, is_alphanumeric, is_whitespace, is_ws, push_str, string_from_chars, string_of, string_of_range, u64_to_string};

verus! {

#[derive(Debug)]
pub enum Token {
    Ident(String),
    Str(String),
    At,
    LParen,
    RParen,
    LBrace,
    RBrace,
    Comma,
    Semi,
    Plus,
    Eq,
    Dot,
    /// Any character the route-compiler subset does not care about (`<`, `>`,
    /// `[`, numbers, operators...). The parser skips these.
    Other(char),
    Eof,
}

/// The mathematical value of a token: identifiers and string literals carry
/// their characters.
pub enum Tok {
    Ident(Seq<char>),
    Str(Seq<char>),
    At,
    LParen,
    RParen,
    LBrace,
    RBrace,
    Comma,
    Semi,
    Plus,
    Eq,
    Dot,
    Other(char),
    Eof,
}

impl View for Token {
    type V = Tok;

    open spec fn view(&self) -> Tok {
        match self {
            Token::Ident(s) => Tok::Ident(s@),
            Token::Str(s) => Tok::Str(s@),
            Token::At => Tok::At,
            Token::LParen => Tok::LParen,
            Token::RParen => Tok::RParen,
            Token::LBrace => Tok::LBrace,
            Token::RBrace => Tok::RBrace,
            Token::Comma => Tok::Comma,
            Token::Semi => Tok::Semi,
            Token::Plus => Tok::Plus,
            Token::Eq => Tok::Eq,
            Token::Dot => Tok::Dot,
            Token::Other(c) => Tok::Other(*c),
            Token::Eof => Tok::Eof,
        }
    }
}

impl Token {
    pub fn copy(&self) -> (r: Token)
        ensures
            r@ == self@,
    {
        match self {
            Token::Ident(s) => Token::Ident(copy_string(s)),
            Token::Str(s) => Token::Str(copy_string(s)),
            Token::At => Token::At,
            Token::LParen => Token::LParen,
            Token::RParen => Token::RParen,
            Token::LBrace => Token::LBrace,
            Token::RBrace => Token::RBrace,
            Token::Comma => Token::Comma,
            Token::Semi => Token::Semi,
            Token::Plus => Token::Plus,
            Token::Eq => Token::Eq,
            Token::Dot => Token::Dot,
            Token::Other(c) => Token::Other(*c),
            Token::Eof => Token::Eof,
        }
    }
}

pub open spec fn toks_view(v: Seq<Token>) -> Seq<Tok> {
    v.map_values(|t: Token| t@)
}

#[derive(Debug)]
pub enum LexError {
    UnterminatedString(usize),
}

impl LexError {
    /// The human-readable description of the error.
    pub fn message(&self) -> (r: String)
        ensures
            r@ == (match self {
                LexError::UnterminatedString(l) => "unterminated string literal at line "@
                    + decimal(*l as nat),
            }),
    {
        match self {
            LexError::UnterminatedString(l) => {
                let mut s = string_of("unterminated string literal at line ");
                let n = u64_to_string(*l as u64);
                push_str(&mut s, n.as_str());
                s
            },
        }
    }
}

// ---------------------------------------------------------------------------
// Specification
// ---------------------------------------------------------------------------

/// A `//` comment whose second slash is at `j`: the index after the first
/// newline at or after `j` (or the end), and whether a newline was found.
pub open spec fn line_comment_end(s: Seq<char>, j: int) -> (int, bool)
    decreases s.len() - j,
{
    if j < 0 || j >= s.len() {
        (s.len() as int, false)
    } else if s[j] == '\n' {
        (j + 1, true)
    } else {
        line_comment_end(s, j + 1)
    }
}

/// A `/* ... */` comment scanned from `j`; `prev` is the previous character.
/// Yields the index after the closing `*/` (or the end) and the line count.
pub open spec fn block_comment_end(s: Seq<char>, j: int, prev: char, line: nat) -> (int, nat)
    decreases s.len() - j,
{
    if j < 0 || j >= s.len() {
        (s.len() as int, line)
    } else {
        let c = s[j];
        let line2 = if c == '\n' {
            line + 1
        } else {
            line
        };
        if prev == '*' && c == '/' {
            (j + 1, line2)
        } else {
            block_comment_end(s, j + 1, c, line2)
        }
    }
}

/// What an escape `\x` stands for inside a string literal.
pub open spec fn unescape(x: char) -> Seq<char> {
    if x == 'n' {
        seq!['\n']
    } else if x == 't' {
        seq!['\t']
    } else if x == 'r' {
        seq!['\r']
    } else if x == '"' {
        seq!['"']
    } else if x == '\\' {
        seq!['\\']
    } else {
        seq!['\\', x]
    }
}

/// The body of a string literal starting at `j` (after the opening quote):
/// its characters and the index after the closing quote, or `None` when the
/// literal is never closed.
pub open spec fn string_lit(s: Seq<char>, j: int, acc: Seq<char>) -> Option<(Seq<char>, int)>
    decreases s.len() - j,
{
    if j < 0 || j >= s.len() {
        None
    } else if s[j] == '\\' {
        if j + 1 >= s.len() {
            None
        } else {
            string_lit(s, j + 2, acc + unescape(s[j + 1]))
        }
    } else if s[j] == '"' {
        Some((acc, j + 1))
    } else {
        string_lit(s, j + 1, acc.push(s[j]))
    }
}

pub open spec fn ident_char(c: char) -> bool {
    char_alphanumeric(c) || c == '_' || c == '$'
}

/// End of an identifier whose remaining characters start at `j`.
pub open spec fn ident_end(s: Seq<char>, j: int) -> int
    decreases s.len() - j,
{
    if j < 0 || j >= s.len() || !ident_char(s[j]) {
        j
    } else {
        ident_end(s, j + 1)
    }
}

/// The single-character punctuation tokens.
pub open spec fn punct(c: char) -> Option<Tok> {
    if c == '@' {
        Some(Tok::At)
    } else if c == '(' {
        Some(Tok::LParen)
    } else if c == ')' {
        Some(Tok::RParen)
    } else if c == '{' {
        Some(Tok::LBrace)
    } else if c == '}' {
        Some(Tok::RBrace)
    } else if c == ',' {
        Some(Tok::Comma)
    } else if c == ';' {
        Some(Tok::Semi)
    } else if c == '+' {
        Some(Tok::Plus)
    } else if c == '=' {
        Some(Tok::Eq)
    } else if c == '.' {
        Some(Tok::Dot)
    } else {
        None
    }
}

/// One step of the tokenizer at index `i`: either the final outcome, or the
/// next index, line and token list.
pub enum LexStep {
    Done(Result<Seq<Tok>, nat>),
    Next(int, nat, Seq<Tok>),
}

pub open spec fn lex_step(s: Seq<char>, i: int, line: nat, toks: Seq<Tok>) -> LexStep {
    if i < 0 || i >= s.len() {
        LexStep::Done(Ok(toks.push(Tok::Eof)))
    } else {
        let c = s[i];
        if c == '\n' {
            LexStep::Next(i + 1, line + 1, toks)
        } else if is_ws(c) {
            LexStep::Next(i + 1, line, toks)
        } else if c == '/' {
            if i + 1 < s.len() && s[i + 1] == '/' {
                let (e, nl) = line_comment_end(s, i + 1);
                LexStep::Next(e, if nl { line + 1 } else { line }, toks)
            } else if i + 1 < s.len() && s[i + 1] == '*' {
                let (e, l2) = block_comment_end(s, i + 2, '\0', line);
                LexStep::Next(e, l2, toks)
            } else {
                LexStep::Next(i + 1, line, toks.push(Tok::Other('/')))
            }
        } else if punct(c) is Some {
            LexStep::Next(i + 1, line, toks.push(punct(c)->0))
        } else if c == '"' {
            match string_lit(s, i + 1, Seq::empty()) {
                None => LexStep::Done(Err(line)),
                Some((v, e)) => LexStep::Next(e, line, toks.push(Tok::Str(v))),
            }
        } else if char_alphabetic(c) || c == '_' || c == '$' {
            let e = ident_end(s, i + 1);
            LexStep::Next(e, line, toks.push(Tok::Ident(s.subrange(i, e))))
        } else {
            LexStep::Next(i + 1, line, toks.push(Tok::Other(c)))
        }
    }
}

/// Tokenizes `s` from index `i` on, `line` being the current line number and
/// `toks` the tokens produced so far. `Err(line)` reports an unterminated
/// string literal opened on that line.
pub open spec fn lex_from(s: Seq<char>, i: int, line: nat, toks: Seq<Tok>) -> Result<
    Seq<Tok>,
    nat,
>
    decreases s.len() - i,
{
    match lex_step(s, i, line, toks) {
        LexStep::Done(r) => r,
        LexStep::Next(i2, l2, t2) => if i < i2 <= s.len() {
            lex_from(s, i2, l2, t2)
        } else {
            Ok(t2)
        },
    }
}

/// The token stream of a source text (always ending in `Eof`), or the line
/// of an unterminated string literal.
pub open spec fn lex_spec(s: Seq<char>) -> Result<Seq<Tok>, nat> {
    lex_from(s, 0, 1, Seq::empty())
}

// ---------------------------------------------------------------------------
// Facts about the scanners
// ---------------------------------------------------------------------------

pub proof fn lemma_line_comment_end(s: Seq<char>, j: int)
    requires
        0 <= j <= s.len(),
    ensures
        j <= line_comment_end(s, j).0 <= s.len(),
        line_comment_end(s, j).1 ==> line_comment_end(s, j).0 > j,
    decreases s.len() - j,
{
    if j < s.len() && s[j] != '\n' {
        lemma_line_comment_end(s, j + 1);
    }
}

pub proof fn lemma_block_comment_end(s: Seq<char>, j: int, prev: char, line: nat)
    requires
        0 <= j <= s.len(),
    ensures
        j <= block_comment_end(s, j, prev, line).0 <= s.len(),
        line <= block_comment_end(s, j, prev, line).1 <= line + (block_comment_end(
            s,
            j,
            prev,
            line,
        ).0 - j),
    decreases s.len() - j,
{
    if j < s.len() {
        let c = s[j];
        let line2 = if c == '\n' {
            line + 1
        } else {
            line
        };
        if !(prev == '*' && c == '/') {
            lemma_block_comment_end(s, j + 1, c, line2);
        }
    }
}

pub proof fn lemma_string_lit(s: Seq<char>, j: int, acc: Seq<char>)
    requires
        0 <= j <= s.len(),
    ensures
        string_lit(s, j, acc) matches Some((v, e)) ==> j < e <= s.len(),
    decreases s.len() - j,
{
    if j < s.len() {
        if s[j] == '\\' {
            if j + 1 < s.len() {
                lemma_string_lit(s, j + 2, acc + unescape(s[j + 1]));
            }
        } else if s[j] != '"' {
            lemma_string_lit(s, j + 1, acc.push(s[j]));
        }
    }
}

pub proof fn lemma_ident_end(s: Seq<char>, j: int)
    requires
        0 <= j <= s.len(),
    ensures
        j <= ident_end(s, j) <= s.len(),
    decreases s.len() - j,
{
    if j < s.len() && ident_char(s[j]) {
        lemma_ident_end(s, j + 1);
    }
}

// ---------------------------------------------------------------------------
// The shape of a token stream
// ---------------------------------------------------------------------------

/// Newline characters in `s`.
pub open spec fn newlines(s: Seq<char>) -> nat
    decreases s.len(),
{
    if s.len() == 0 {
        0
    } else {
        newlines(s.drop_last()) + if s.last() == '\n' {
            1nat
        } else {
            0nat
        }
    }
}

proof fn lemma_newlines_step(s: Seq<char>, k: int)
    requires
        0 <= k < s.len(),
    ensures
        newlines(s.take(k + 1)) == newlines(s.take(k)) + if s[k] == '\n' {
            1nat
        } else {
            0nat
        },
{
    assert(s.take(k + 1).drop_last() =~= s.take(k));
}

proof fn lemma_newlines_mono(s: Seq<char>, a: int, b: int)
    requires
        0 <= a <= b <= s.len(),
    ensures
        newlines(s.take(a)) <= newlines(s.take(b)),
    decreases b - a,
{
    if a < b {
        lemma_newlines_step(s, b - 1);
        lemma_newlines_mono(s, a, b - 1);
    }
}

proof fn lemma_line_comment_newline(s: Seq<char>, j: int)
    requires
        0 <= j <= s.len(),
    ensures
        line_comment_end(s, j).1 ==> s[line_comment_end(s, j).0 - 1] == '\n' && line_comment_end(s, j).0 - 1 >= j,
    decreases s.len() - j,
{
    if j < s.len() && s[j] != '\n' {
        lemma_line_comment_newline(s, j + 1);
    }
}

proof fn lemma_block_comment_lines(s: Seq<char>, j: int, prev: char, line: nat)
    requires
        0 <= j <= s.len(),
    ensures
        block_comment_end(s, j, prev, line).1 + newlines(s.take(j)) <= line + newlines(
            s.take(block_comment_end(s, j, prev, line).0),
        ),
    decreases s.len() - j,
{
    if j < s.len() {
        lemma_newlines_step(s, j);
        let c = s[j];
        let line2 = if c == '\n' {
            line + 1
        } else {
            line
        };
        if !(prev == '*' && c == '/') {
            lemma_block_comment_lines(s, j + 1, c, line2);
        }
    }
}

proof fn lemma_lex_step(s: Seq<char>, i: int, line: nat, toks: Seq<Tok>)
    requires
        0 <= i < s.len(),
        1 <= line <= 1 + newlines(s.take(i)),
    ensures
        match lex_step(s, i, line, toks) {
            LexStep::Done(r) => r matches Err(n) && 1 <= n <= 1 + newlines(s.take(i)),
            LexStep::Next(i2, l2, t2) => i < i2 <= s.len() && 1 <= l2 <= 1 + newlines(s.take(i2)),
        },
{
    let c = s[i];
    lemma_newlines_step(s, i);
    if c == '\n' {
    } else if is_ws(c) {
    } else if c == '/' {
        if i + 1 < s.len() && s[i + 1] == '/' {
            lemma_line_comment_end(s, i + 1);
            lemma_line_comment_newline(s, i + 1);
            let (e, nl) = line_comment_end(s, i + 1);
            lemma_newlines_mono(s, i, e);
            if nl {
                lemma_newlines_step(s, e - 1);
                lemma_newlines_mono(s, i, e - 1);
            }
        } else if i + 1 < s.len() && s[i + 1] == '*' {
            lemma_block_comment_end(s, i + 2, '\0', line);
            lemma_block_comment_lines(s, i + 2, '\0', line);
            lemma_newlines_mono(s, i, i + 2);
        }
    } else if punct(c) is Some {
    } else if c == '"' {
        lemma_string_lit(s, i + 1, Seq::empty());
        if let Some((v, e)) = string_lit(s, i + 1, Seq::empty()) {
            lemma_newlines_mono(s, i, e);
        }
    } else if char_alphabetic(c) || c == '_' || c == '$' {
        lemma_ident_end(s, i + 1);
        lemma_newlines_mono(s, i, ident_end(s, i + 1));
    }
}

proof fn lemma_lex_from(s: Seq<char>, i: int, line: nat, toks: Seq<Tok>)
    requires
        0 <= i <= s.len(),
        1 <= line <= 1 + newlines(s.take(i)),
    ensures
        match lex_from(s, i, line, toks) {
            Ok(ts) => ts.len() > 0 && ts.last() == Tok::Eof,
            Err(n) => 1 <= n <= 1 + newlines(s),
        },
    decreases s.len() - i,
{
    assert(s.take(s.len() as int) =~= s);
    if i < s.len() {
        lemma_lex_step(s, i, line, toks);
        lemma_newlines_mono(s, i, s.len() as int);
        match lex_step(s, i, line, toks) {
            LexStep::Done(r) => {},
            LexStep::Next(i2, l2, t2) => {
                lemma_lex_from(s, i2, l2, t2);
            },
        }
    }
}

/// Tokens before the end: no `Eof`, no empty identifier.
pub open spec fn toks_before_end(toks: Seq<Tok>) -> bool {
    forall|k: int| 0 <= k < toks.len() ==> tok_before_end(#[trigger] toks[k])
}

pub open spec fn tok_before_end(t: Tok) -> bool {
    t != Tok::Eof && (t matches Tok::Ident(x) ==> x.len() > 0)
}

/// A complete token stream: `Eof` last and nowhere else, and no empty
/// identifier.
pub open spec fn well_lexed(ts: Seq<Tok>) -> bool {
    &&& ts.len() > 0
    &&& ts.last() == Tok::Eof
    &&& toks_before_end(ts.drop_last())
}

proof fn lemma_push_tok(toks: Seq<Tok>, t: Tok)
    requires
        toks_before_end(toks),
        tok_before_end(t),
    ensures
        toks_before_end(toks.push(t)),
{
    assert forall|k: int| 0 <= k < toks.push(t).len() implies tok_before_end(#[trigger] toks.push(t)[k]) by {
        if k < toks.len() {
            assert(toks.push(t)[k] == toks[k]);
        }
    }
}

/// How Java writes a character inside a string literal: newline, tab,
/// carriage return, double quote and backslash as the two-character
/// escapes `\n`, `\t`, `\r`, `\"` and `\\`; any other character as itself.
pub open spec fn java_escape_char(c: char) -> Seq<char> {
    if c == '\n' {
        seq!['\\', 'n']
    } else if c == '\t' {
        seq!['\\', 't']
    } else if c == '\r' {
        seq!['\\', 'r']
    } else if c == '"' {
        seq!['\\', '"']
    } else if c == '\\' {
        seq!['\\', '\\']
    } else {
        seq![c]
    }
}

/// A text written as the body of a Java string literal.
pub open spec fn java_escaped(x: Seq<char>) -> Seq<char>
    decreases x.len(),
{
    if x.len() == 0 {
        Seq::empty()
    } else {
        java_escape_char(x[0]) + java_escaped(x.drop_first())
    }
}

proof fn lemma_string_lit_escaped(s: Seq<char>, j: int, x: Seq<char>, acc: Seq<char>)
    requires
        0 <= j,
        j + java_escaped(x).len() < s.len(),
        s.subrange(j, j + java_escaped(x).len() as int) == java_escaped(x),
        s[j + java_escaped(x).len() as int] == '"',
    ensures
        string_lit(s, j, acc) == Some((acc + x, j + java_escaped(x).len() + 1)),
    decreases x.len(),
{
    let n: int = java_escaped(x).len() as int;
    if x.len() == 0 {
        assert(acc + x =~= acc);
    } else {
        let c = x[0];
        let e = java_escape_char(c);
        let rest = x.drop_first();
        let er = java_escaped(rest);
        assert(java_escaped(x) == e + er);
        assert forall|k: int| 0 <= k < e.len() implies s[j + k] == #[trigger] e[k] by {
            assert(s.subrange(j, j + n)[k] == java_escaped(x)[k]);
        }
        assert(s.subrange(j + e.len(), j + e.len() + er.len()) =~= er) by {
            assert forall|k: int| 0 <= k < er.len() implies s.subrange(j + e.len(), j + e.len() + er.len())[k] == er[k] by {
                assert(s.subrange(j, j + n)[e.len() + k] == java_escaped(x)[e.len() + k]);
            }
        }
        assert(acc + x =~= (acc + seq![c]) + rest);
        if e.len() == 2 {
            assert(s[j + 0] == e[0]);
            assert(s[j + 1] == e[1]);
            assert(s[j] == '\\');
            assert(unescape(s[j + 1]) =~= seq![c]);
            lemma_string_lit_escaped(s, j + 2, rest, acc + unescape(s[j + 1]));
        } else {
            assert(e[0] == c);
            assert(s[j + 0] == e[0]);
            assert(acc.push(c) =~= acc + seq![c]);
            lemma_string_lit_escaped(s, j + 1, rest, acc.push(c));
        }
    }
}

/// A Java string literal tokenizes to exactly the text it writes: each
/// escape decoded (`\n` a newline, `\t` a tab, `\r` a carriage return,
/// `\"` a double quote, `\\` a backslash), every other character as is.
pub proof fn lemma_lex_string_literal(x: Seq<char>)
    ensures
        lex_spec(seq!['"'] + java_escaped(x) + seq!['"']) == Ok::<Seq<Tok>, nat>(seq![Tok::Str(x), Tok::Eof]),
{
    let s = seq!['"'] + java_escaped(x) + seq!['"'];
    let n: int = java_escaped(x).len() as int;
    assert(s.subrange(1, 1 + n) =~= java_escaped(x));
    assert(s[1 + n] == '"');
    lemma_string_lit_escaped(s, 1, x, Seq::empty());
    assert(Seq::<char>::empty() + x =~= x);
    assert(s[0] == '"');
    assert(!is_ws('"'));
    assert(punct('"') is None);
    assert(lex_step(s, 0, 1, Seq::empty()) == LexStep::Next(s.len() as int, 1, seq![Tok::Str(x)]));
    assert(seq![Tok::Str(x)].push(Tok::Eof) =~= seq![Tok::Str(x), Tok::Eof]);
    assert(lex_from(s, s.len() as int, 1, seq![Tok::Str(x)]) == Ok::<Seq<Tok>, nat>(seq![Tok::Str(x), Tok::Eof]));
    assert(lex_from(s, 0, 1, Seq::empty()) == lex_from(s, s.len() as int, 1, seq![Tok::Str(x)]));
}

/// Tokenizing succeeds with a token stream that ends in `Eof`, or reports
/// an unterminated string literal on a line of the text: between 1 and one
/// more than its number of newlines.
pub proof fn lemma_lex_shape(s: Seq<char>)
    ensures
        match lex_spec(s) {
            Ok(ts) => ts.len() > 0 && ts.last() == Tok::Eof,
            Err(n) => 1 <= n <= 1 + newlines(s),
        },
{
    assert(s.take(0) =~= Seq::<char>::empty());
    lemma_lex_from(s, 0, 1, Seq::empty());
}

// ---------------------------------------------------------------------------
// Implementation
// ---------------------------------------------------------------------------

fn scan_line_comment(s: &Vec<char>, j: usize) -> (r: (usize, bool))
    requires
        j <= s@.len(),
    ensures
        (r.0 as int, r.1) == line_comment_end(s@, j as int),
{
    let mut k = j;
    while k < s.len()
        invariant
            j <= k <= s@.len(),
            line_comment_end(s@, j as int) == line_comment_end(s@, k as int),
        decreases s.len() - k,
    {
        if s[k] == '\n' {
            return (k + 1, true);
        }
        k = k + 1;
    }
    (k, false)
}

fn scan_block_comment(s: &Vec<char>, j: usize, line: usize) -> (r: (usize, usize))
    requires
        j <= s@.len(),
        line <= j,
        s@.len() < usize::MAX,
    ensures
        (r.0 as int, r.1 as nat) == block_comment_end(s@, j as int, '\0', line as nat),
{
    let mut k = j;
    let mut prev = '\0';
    let mut l = line;
    while k < s.len()
        invariant
            j <= k <= s@.len(),
            line <= l <= line + (k - j),
            line <= j,
            s@.len() < usize::MAX,
            block_comment_end(s@, j as int, '\0', line as nat) == block_comment_end(
                s@,
                k as int,
                prev,
                l as nat,
            ),
        decreases s.len() - k,
    {
        let c = s[k];
        if c == '\n' {
            l = l + 1;
        }
        if prev == '*' && c == '/' {
            return (k + 1, l);
        }
        prev = c;
        k = k + 1;
    }
    (k, l)
}

fn unescape_into(x: char, out: &mut Vec<char>)
    ensures
        final(out)@ == old(out)@ + unescape(x),
{
    if x == 'n' {
        out.push('\n');
    } else if x == 't' {
        out.push('\t');
    } else if x == 'r' {
        out.push('\r');
    } else if x == '"' {
        out.push('"');
    } else if x == '\\' {
        out.push('\\');
    } else {
        out.push('\\');
        out.push(x);
    }
    assert(final(out)@ =~= old(out)@ + unescape(x));
}

fn scan_string(s: &Vec<char>, j: usize) -> (r: Option<(Vec<char>, usize)>)
    requires
        j <= s@.len(),
    ensures
        match r {
            None => string_lit(s@, j as int, Seq::empty()) is None,
            Some((v, e)) => string_lit(s@, j as int, Seq::empty()) == Some((v@, e as int)),
        },
{
    let mut k = j;
    let mut acc: Vec<char> = Vec::new();
    while k < s.len()
        invariant
            j <= k <= s@.len(),
            string_lit(s@, j as int, Seq::empty()) == string_lit(s@, k as int, acc@),
        decreases s.len() - k,
    {
        let c = s[k];
        if c == '\\' {
            if k + 1 >= s.len() {
                return None;
            }
            unescape_into(s[k + 1], &mut acc);
            k = k + 2;
        } else if c == '"' {
            return Some((acc, k + 1));
        } else {
            acc.push(c);
            k = k + 1;
        }
    }
    None
}

fn scan_ident(s: &Vec<char>, j: usize) -> (r: usize)
    requires
        j <= s@.len(),
    ensures
        r as int == ident_end(s@, j as int),
{
    let mut k = j;
    while k < s.len()
        invariant
            j <= k <= s@.len(),
            ident_end(s@, j as int) == ident_end(s@, k as int),
        decreases s.len() - k,
    {
        let c = s[k];
        if !(is_alphanumeric(c) || c == '_' || c == '$') {
            return k;
        }
        k = k + 1;
    }
    k
}

fn punct_token(c: char) -> (r: Option<Token>)
    ensures
        match r {
            None => punct(c) is None,
            Some(t) => punct(c) == Some(t@),
        },
{
    if c == '@' {
        Some(Token::At)
    } else if c == '(' {
        Some(Token::LParen)
    } else if c == ')' {
        Some(Token::RParen)
    } else if c == '{' {
        Some(Token::LBrace)
    } else if c == '}' {
        Some(Token::RBrace)
    } else if c == ',' {
        Some(Token::Comma)
    } else if c == ';' {
        Some(Token::Semi)
    } else if c == '+' {
        Some(Token::Plus)
    } else if c == '=' {
        Some(Token::Eq)
    } else if c == '.' {
        Some(Token::Dot)
    } else {
        None
    }
}

pub proof fn lemma_push_view(v: Seq<Token>, t: Token)
    ensures
        toks_view(v.push(t)) == toks_view(v).push(t@),
{
    assert(toks_view(v.push(t)) =~= toks_view(v).push(t@));
}

/// Tokenizes Java source text.
/// Appends a token that is neither `Eof` nor an empty identifier.
fn push_token(tokens: &mut Vec<Token>, t: Token)
    requires
        tok_before_end(t@),
    ensures
        toks_view(final(tokens)@) == toks_view(old(tokens)@).push(t@),
        toks_before_end(toks_view(old(tokens)@)) ==> toks_before_end(toks_view(final(tokens)@)),
{
    proof {
        lemma_push_view(tokens@, t);
        if toks_before_end(toks_view(tokens@)) {
            lemma_push_tok(toks_view(tokens@), t@);
        }
    }
    tokens.push(t);
}

/// Tokenizes a source text. On success the tokens are those of `lex_spec`:
/// they end in `Eof`, which occurs nowhere else, and no identifier is
/// empty; the only error is an unterminated string literal.
pub fn lex(src: &str) -> (r: Result<Vec<Token>, LexError>)
    requires
        src@.len() < usize::MAX,
    ensures
        match r {
            Ok(v) => lex_spec(src@) == Ok::<Seq<Tok>, nat>(toks_view(v@)) && well_lexed(toks_view(v@)),
            Err(LexError::UnterminatedString(l)) => lex_spec(src@) == Err::<Seq<Tok>, nat>(
                l as nat,
            ),
        },
{
    let s = chars_of(src);
    let mut tokens: Vec<Token> = Vec::new();
    let mut i: usize = 0;
    let mut line: usize = 1;
    assert(toks_view(tokens@) =~= Seq::<Tok>::empty());
    while i < s.len()
        invariant
            i <= s@.len(),
            s@ == src@,
            s@.len() < usize::MAX,
            1 <= line <= i + 1,
            lex_spec(src@) == lex_from(s@, i as int, line as nat, toks_view(tokens@)),
            toks_before_end(toks_view(tokens@)),
        decreases s.len() - i,
    {
        let c = s[i];
        let pt = punct_token(c);
        if c == '\n' {
            line = line + 1;
            i = i + 1;
            assert(lex_spec(src@) == lex_from(s@, i as int, line as nat, toks_view(tokens@)));
        } else if is_whitespace(c) {
            i = i + 1;
            assert(lex_spec(src@) == lex_from(s@, i as int, line as nat, toks_view(tokens@)));
        } else if c == '/' {
            if i + 1 < s.len() && s[i + 1] == '/' {
                let (e, nl) = scan_line_comment(&s, i + 1);
                proof {
                    lemma_line_comment_end(s@, i + 1);
                }
                if nl {
                    line = line + 1;
                }
                i = e;
                assert(lex_spec(src@) == lex_from(s@, i as int, line as nat, toks_view(tokens@)));
            } else if i + 1 < s.len() && s[i + 1] == '*' {
                let (e, l2) = scan_block_comment(&s, i + 2, line);
                proof {
                    lemma_block_comment_end(s@, i + 2, '\0', line as nat);
                }
                line = l2;
                i = e;
                assert(lex_spec(src@) == lex_from(s@, i as int, line as nat, toks_view(tokens@)));
            } else {
                push_token(&mut tokens, Token::Other('/'));
                i = i + 1;
                assert(lex_spec(src@) == lex_from(s@, i as int, line as nat, toks_view(tokens@)));
            }
        } else if pt.is_some() {
            let t = pt.unwrap();
            push_token(&mut tokens, t);
            i = i + 1;
            assert(lex_spec(src@) == lex_from(s@, i as int, line as nat, toks_view(tokens@)));
        } else if c == '"' {
            proof {
                lemma_string_lit(s@, i + 1, Seq::empty());
            }
            match scan_string(&s, i + 1) {
                None => {
                    return Err(LexError::UnterminatedString(line));
                },
                Some((v, e)) => {
                    let t = Token::Str(string_from_chars(v.as_slice()));
                    push_token(&mut tokens, t);
                    i = e;
                    assert(lex_spec(src@) == lex_from(s@, i as int, line as nat, toks_view(tokens@)));
                },
            }
        } else if is_alphabetic(c) || c == '_' || c == '$' {
            let e = scan_ident(&s, i + 1);
            proof {
                lemma_ident_end(s@, i + 1);
            }
            let t = Token::Ident(string_of_range(&s, i, e));
            push_token(&mut tokens, t);
            i = e;
            assert(lex_spec(src@) == lex_from(s@, i as int, line as nat, toks_view(tokens@)));
        } else {
            push_token(&mut tokens, Token::Other(c));
            i = i + 1;
            assert(lex_spec(src@) == lex_from(s@, i as int, line as nat, toks_view(tokens@)));
        }
    }
    proof {
        lemma_push_view(tokens@, Token::Eof);
        assert(toks_view(tokens@).push(Tok::Eof).drop_last() =~= toks_view(tokens@));
    }
    tokens.push(Token::Eof);
    Ok(tokens)
}

} // verus!

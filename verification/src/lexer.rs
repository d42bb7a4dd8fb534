//! The tokenizer: raw text to a sequence of lexical tokens.
//!
//! `spec_next_tok` is the mathematical tokenizer: it says, for any input and
//! position, whether the next token is well formed, what it is, and where the
//! one after it starts.  `spec_tokens_at` folds it over the whole input.
//! [`TokenIterator`] is the executable, single-pass counterpart, proved to
//! follow `spec_next_tok` step by step.
//!
//! Whitespace outside strings is skipped.  Inside a string every character is
//! significant until an unescaped closing quote; a backslash consumes the
//! character after it without interpreting it.  The six structural characters
//! terminate any unquoted run; a run is classified at emission as a keyword,
//! a numeric literal, or quoted text with the surrounding characters
//! stripped.  Line and column numbers locate the offending character of a
//! lexical error.

use vstd::prelude::*;

use vstd::std_specs::iter::IteratorSpec;

use crate::errors::JSONError;
use crate::errors::SpecErr;
use crate::numbers::is_number_literal;
use crate::numbers::is_number_run;

verus! {

/// Insignificant whitespace outside strings.
pub open spec fn is_ws(c: char) -> bool {
    c == ' ' || c == '\t' || c == '\n'
}

/// The six structural characters.
pub open spec fn is_structural(c: char) -> bool {
    c == '{' || c == '}' || c == '[' || c == ']' || c == ':' || c == ','
}

/// Characters that terminate an unquoted run.
pub open spec fn ends_run(c: char) -> bool {
    is_ws(c) || is_structural(c) || c == '"' || c == '\\'
}

/// The line of the character at index `i`: one more than the number of
/// newlines before it.
pub open spec fn line_of(s: Seq<char>, i: int) -> int
    decreases i,
{
    if i <= 0 {
        1
    } else {
        line_of(s, i - 1) + if s[i - 1] == '\n' {
            1int
        } else {
            0int
        }
    }
}

/// The column of the character at index `i`: one more than its distance from
/// the start of its line.
pub open spec fn col_of(s: Seq<char>, i: int) -> int
    decreases i,
{
    if i <= 0 {
        1
    } else if s[i - 1] == '\n' {
        1
    } else {
        col_of(s, i - 1) + 1
    }
}

pub proof fn lemma_pos_bounds(s: Seq<char>, i: int)
    requires
        0 <= i,
    ensures
        1 <= line_of(s, i) <= i + 1,
        1 <= col_of(s, i) <= i + 1,
    decreases i,
{
    if i > 0 {
        lemma_pos_bounds(s, i - 1);
    }
}

/// A lexical token.  `Number` carries the literal text, `Text` the string
/// contents with the surrounding quotes stripped.
pub enum SpecToken {
    LBrace,
    RBrace,
    LBracket,
    RBracket,
    Colon,
    Comma,
    Bool(bool),
    Null,
    Number(Seq<char>),
    Text(Seq<char>),
}

/// The executable counterpart of [`SpecToken`].
#[derive(Debug)]
pub enum Token {
    LBrace,
    RBrace,
    LBracket,
    RBracket,
    Colon,
    Comma,
    Bool(bool),
    Null,
    Number(String),
    Text(String),
}

impl Token {
    /// The mathematical token this value stands for.
    pub open spec fn model(self) -> SpecToken {
        match self {
            Token::LBrace => SpecToken::LBrace,
            Token::RBrace => SpecToken::RBrace,
            Token::LBracket => SpecToken::LBracket,
            Token::RBracket => SpecToken::RBracket,
            Token::Colon => SpecToken::Colon,
            Token::Comma => SpecToken::Comma,
            Token::Bool(b) => SpecToken::Bool(b),
            Token::Null => SpecToken::Null,
            Token::Number(s) => SpecToken::Number(s@),
            Token::Text(s) => SpecToken::Text(s@),
        }
    }
}

/// The token standing for one structural character.
pub open spec fn structural_token(c: char) -> SpecToken {
    if c == '{' {
        SpecToken::LBrace
    } else if c == '}' {
        SpecToken::RBrace
    } else if c == '[' {
        SpecToken::LBracket
    } else if c == ']' {
        SpecToken::RBracket
    } else if c == ':' {
        SpecToken::Colon
    } else {
        SpecToken::Comma
    }
}

/// The index of the quote closing a string whose contents start at `j`, or
/// `None` when the input ends first.  A backslash consumes the character
/// after it.
pub open spec fn scan_string(s: Seq<char>, j: int) -> Option<int>
    decreases s.len() - j,
{
    if j < 0 || j >= s.len() {
        None
    } else if s[j] == '"' {
        Some(j)
    } else if s[j] == '\\' {
        if j + 2 <= s.len() {
            scan_string(s, j + 2)
        } else {
            None
        }
    } else {
        scan_string(s, j + 1)
    }
}

pub proof fn lemma_scan_string_bounds(s: Seq<char>, j: int)
    requires
        0 <= j,
    ensures
        scan_string(s, j) matches Some(q) ==> j <= q < s.len() && s[q] == '"',
    decreases s.len() - j,
{
    if j < s.len() && s[j] != '"' {
        if s[j] == '\\' {
            if j + 2 <= s.len() {
                lemma_scan_string_bounds(s, j + 2);
            }
        } else {
            lemma_scan_string_bounds(s, j + 1);
        }
    }
}

/// The first index at or after `i` that ends an unquoted run, or `s.len()`.
pub open spec fn run_end(s: Seq<char>, i: int) -> int
    decreases s.len() - i,
{
    if i < 0 || i >= s.len() {
        s.len() as int
    } else if ends_run(s[i]) {
        i
    } else {
        run_end(s, i + 1)
    }
}

pub proof fn lemma_run_end_bounds(s: Seq<char>, i: int)
    requires
        0 <= i <= s.len(),
    ensures
        i <= run_end(s, i) <= s.len(),
        forall|k: int| i <= k < run_end(s, i) ==> !ends_run(#[trigger] s[k]),
        run_end(s, i) < s.len() ==> ends_run(s[run_end(s, i)]),
    decreases s.len() - i,
{
    if i < s.len() && !ends_run(s[i]) {
        lemma_run_end_bounds(s, i + 1);
    }
}

/// The run spells `true`.
pub open spec fn is_true_run(r: Seq<char>) -> bool {
    r.len() == 4 && r[0] == 't' && r[1] == 'r' && r[2] == 'u' && r[3] == 'e'
}

/// The run spells `false`.
pub open spec fn is_false_run(r: Seq<char>) -> bool {
    r.len() == 5 && r[0] == 'f' && r[1] == 'a' && r[2] == 'l' && r[3] == 's' && r[4] == 'e'
}

/// The run spells `null`.
pub open spec fn is_null_run(r: Seq<char>) -> bool {
    r.len() == 4 && r[0] == 'n' && r[1] == 'u' && r[2] == 'l' && r[3] == 'l'
}

/// The token of the unquoted run `r`: a keyword, a numeric literal, or text
/// with the surrounding characters stripped.
pub open spec fn classify_run(r: Seq<char>) -> Option<SpecToken> {
    if is_true_run(r) {
        Some(SpecToken::Bool(true))
    } else if is_false_run(r) {
        Some(SpecToken::Bool(false))
    } else if is_null_run(r) {
        Some(SpecToken::Null)
    } else if is_number_literal(r) {
        Some(SpecToken::Number(r))
    } else if r.len() >= 2 {
        Some(SpecToken::Text(r.subrange(1, r.len() - 1)))
    } else {
        None
    }
}

/// The outcome of one tokenizer step.
pub enum SpecNext {
    /// The input ended with no further token.
    Eoi,
    /// The next token, and the index where the one after it starts.
    Tok(SpecToken, int),
    /// A lexical error.
    Fail(SpecErr),
}

/// The mathematical tokenizer, one token at a time.
pub open spec fn spec_next_tok(s: Seq<char>, i: int) -> SpecNext
    decreases s.len() - i,
{
    if i < 0 || i >= s.len() {
        SpecNext::Eoi
    } else {
        let c = s[i];
        if is_ws(c) {
            spec_next_tok(s, i + 1)
        } else if is_structural(c) {
            SpecNext::Tok(structural_token(c), i + 1)
        } else if c == '"' {
            match scan_string(s, i + 1) {
                None => SpecNext::Fail(SpecErr::UnexpectedEndOfInput),
                Some(q) => SpecNext::Tok(SpecToken::Text(s.subrange(i + 1, q)), q + 1),
            }
        } else if c == '\\' {
            SpecNext::Fail(SpecErr::UnexpectedCharacter('\\', line_of(s, i), col_of(s, i)))
        } else {
            let e = run_end(s, i);
            if e < s.len() && s[e] == '\\' {
                SpecNext::Fail(SpecErr::UnexpectedCharacter('\\', line_of(s, e), col_of(s, e)))
            } else {
                match classify_run(s.subrange(i, e)) {
                    Some(t) => SpecNext::Tok(t, e),
                    None => SpecNext::Fail(
                        SpecErr::UnexpectedCharacter(s[i], line_of(s, i), col_of(s, i)),
                    ),
                }
            }
        }
    }
}

pub proof fn lemma_next_tok_advances(s: Seq<char>, i: int)
    requires
        0 <= i,
    ensures
        spec_next_tok(s, i) matches SpecNext::Tok(_, j) ==> i < j <= s.len(),
    decreases s.len() - i,
{
    if i < s.len() {
        let c = s[i];
        if is_ws(c) {
            lemma_next_tok_advances(s, i + 1);
        } else if is_structural(c) {
        } else if c == '"' {
            lemma_scan_string_bounds(s, i + 1);
        } else if c != '\\' {
            lemma_run_end_bounds(s, i);
        }
    }
}

/// All tokens of `s` from index `i` on, or the first lexical error.
pub open spec fn spec_tokens_at(s: Seq<char>, i: int) -> Result<Seq<SpecToken>, SpecErr>
    decreases s.len() - i,
        via spec_tokens_at_dec
{
    match spec_next_tok(s, i) {
        SpecNext::Eoi => Ok(Seq::empty()),
        SpecNext::Fail(e) => Err(e),
        SpecNext::Tok(t, j) => match spec_tokens_at(s, j) {
            Ok(rest) => Ok(seq![t] + rest),
            Err(e) => Err(e),
        },
    }
}

#[via_fn]
proof fn spec_tokens_at_dec(s: Seq<char>, i: int) {
    if 0 <= i {
        lemma_next_tok_advances(s, i);
    } else {
        assert(spec_next_tok(s, i) is Eoi);
    }
}

/// Relies on `String::push`: appends the given character to the end of the
/// string.
#[verifier::external_body]
pub(crate) fn push_char(s: &mut String, c: char)
    ensures
        final(s)@ == old(s)@.push(c),
{
    s.push(c);
}

/// The character at `i` is insignificant whitespace.
fn ws_at(v: &Vec<char>, i: usize) -> (r: bool)
    requires
        i < v@.len(),
    ensures
        r == is_ws(v@[i as int]),
{
    let c = v[i];
    c == ' ' || c == '\t' || c == '\n'
}

/// The character at `i` continues an unquoted run.
fn run_char_at(v: &Vec<char>, i: usize) -> (r: bool)
    requires
        i < v@.len(),
    ensures
        r == !ends_run(v@[i as int]),
{
    let c = v[i];
    !(c == ' ' || c == '\t' || c == '\n' || c == '{' || c == '}' || c == '[' || c == ']'
        || c == ':' || c == ',' || c == '"' || c == '\\')
}

/// The characters `v[from..to]`, as an owned string.
fn string_of_range(v: &Vec<char>, from: usize, to: usize) -> (s: String)
    requires
        from <= to <= v@.len(),
    ensures
        s@ == v@.subrange(from as int, to as int),
{
    let mut s = String::new();
    let mut i: usize = from;
    while i < to
        invariant
            from <= i <= to <= v@.len(),
            s@ == v@.subrange(from as int, i as int),
        decreases to - i,
    {
        push_char(&mut s, v[i]);
        i = i + 1;
        proof {
            assert(v@.subrange(from as int, i as int) == v@.subrange(
                from as int,
                i - 1,
            ).push(v@[i - 1]));
        }
    }
    s
}

/// A lazy, single-pass tokenizer over one complete input text, with source
/// position tracking for diagnostics.
pub struct TokenIterator {
    chars: Vec<char>,
    pos: usize,
    line: usize,
    col: usize,
}

impl TokenIterator {
    /// The input text being tokenized.
    pub closed spec fn input(self) -> Seq<char> {
        self.chars@
    }

    /// The index of the next character to examine.
    pub closed spec fn position(self) -> int {
        self.pos as int
    }

    /// The iterator's counters agree with its position.
    pub closed spec fn wf(self) -> bool {
        &&& self.pos <= self.chars@.len()
        &&& self.chars@.len() < usize::MAX
        &&& self.line == line_of(self.chars@, self.pos as int)
        &&& self.col == col_of(self.chars@, self.pos as int)
    }

    /// A well-formed tokenizer sits somewhere within its input.
    pub proof fn lemma_iter_bounds(self)
        requires
            self.wf(),
        ensures
            0 <= self.position() <= self.input().len(),
    {
    }

    /// A tokenizer positioned at the start of `s`.
    pub fn new(s: &str) -> (it: TokenIterator)
        requires
            s@.len() < usize::MAX,
        ensures
            it.wf(),
            it.input() == s@,
            it.position() == 0,
    {
        broadcast use vstd::string::axiom_spec_iter, vstd::string::next_postcondition;

        let mut chars: Vec<char> = Vec::new();
        let mut cs = s.chars();
        loop
            invariant
                chars@ + cs.remaining() == s@,
            ensures
                chars@ == s@,
            decreases s@.len() - chars@.len(),
        {
            let ghost old_rem = cs.remaining();
            let ghost old_chars = chars@;
            match cs.next() {
                Some(c) => {
                    chars.push(c);
                    proof {
                        assert(chars@ + cs.remaining() =~= old_chars + old_rem);
                    }
                },
                None => {
                    proof {
                        assert(chars@ =~= s@);
                    }
                    break ;
                },
            }
        }
        TokenIterator { chars, pos: 0, line: 1, col: 1 }
    }

    /// The line of the character at the current position (the first line is
    /// line 1).
    pub fn get_line(&self) -> (l: usize)
        requires
            self.wf(),
        ensures
            l == line_of(self.input(), self.position()),
    {
        self.line
    }

    /// The column of the character at the current position (the first column
    /// of a line is column 1).
    pub fn get_char(&self) -> (c: usize)
        requires
            self.wf(),
        ensures
            c == col_of(self.input(), self.position()),
    {
        self.col
    }

    /// Step past the character at the current position, keeping the line and
    /// column counters true.
    fn advance(&mut self)
        requires
            old(self).wf(),
            old(self).position() < old(self).input().len(),
        ensures
            final(self).wf(),
            final(self).input() == old(self).input(),
            final(self).position() == old(self).position() + 1,
    {
        proof {
            lemma_pos_bounds(self.chars@, self.pos as int);
        }
        let c = self.chars[self.pos];
        if c == '\n' {
            self.line = self.line + 1;
            self.col = 1;
        } else {
            self.col = self.col + 1;
        }
        self.pos = self.pos + 1;
    }

    /// The next token of the input: `Ok(None)` at the end of the input,
    /// `Ok(Some(_))` on a well-formed token, and the lexical error otherwise,
    /// exactly as `spec_next_tok` says.
    #[verifier::loop_isolation(false)]
    pub fn next_token(&mut self) -> (r: Result<Option<Token>, JSONError>)
        requires
            old(self).wf(),
        ensures
            final(self).wf(),
            final(self).input() == old(self).input(),
            match spec_next_tok(old(self).input(), old(self).position()) {
                SpecNext::Eoi => r == Ok::<Option<Token>, JSONError>(None)
                    && final(self).position() == old(self).input().len(),
                SpecNext::Tok(t, j) => (match r {
                    Ok(Some(tok)) => tok.model() == t,
                    _ => false,
                }) && final(self).position() == j,
                SpecNext::Fail(e) => match r {
                    Err(err) => err.model() == e,
                    _ => false,
                },
            },
    {
        let ghost s = self.chars@;
        let ghost p0 = self.pos as int;
        // Skip insignificant whitespace.
        while self.pos < self.chars.len() && ws_at(&self.chars, self.pos)
            invariant
                self.wf(),
                self.chars@ == s,
                p0 <= self.pos as int,
                spec_next_tok(s, p0) == spec_next_tok(s, self.pos as int),
            decreases s.len() - self.pos,
        {
            self.advance();
        }
        if self.pos == self.chars.len() {
            return Ok(None);
        }
        let c = self.chars[self.pos];
        let ghost i = self.pos as int;
        if c == '{' || c == '}' || c == '[' || c == ']' || c == ':' || c == ',' {
            self.advance();
            let t = match c {
                '{' => Token::LBrace,
                '}' => Token::RBrace,
                '[' => Token::LBracket,
                ']' => Token::RBracket,
                ':' => Token::Colon,
                _ => Token::Comma,
            };
            return Ok(Some(t));
        }
        if c == '"' {
            self.advance();
            let start = self.pos;
            let mut content = String::new();
            loop
                invariant
                    self.wf(),
                    self.chars@ == s,
                    start as int == i + 1,
                    i + 1 <= self.pos as int <= s.len(),
                    content@ == s.subrange(i + 1, self.pos as int),
                    scan_string(s, i + 1) == scan_string(s, self.pos as int),
                decreases s.len() - self.pos,
            {
                if self.pos == self.chars.len() {
                    return Err(JSONError::UnexpectedEndOfInput);
                }
                let d = self.chars[self.pos];
                if d == '"' {
                    proof {
                        lemma_scan_string_bounds(s, i + 1);
                        assert(s.subrange(i + 1, self.pos as int) == content@);
                    }
                    self.advance();
                    return Ok(Some(Token::Text(content)));
                }
                if d == '\\' {
                    if self.pos + 1 < self.chars.len() {
                        push_char(&mut content, d);
                        self.advance();
                        push_char(&mut content, self.chars[self.pos]);
                        self.advance();
                        proof {
                            assert(content@ =~= s.subrange(i + 1, self.pos as int));
                        }
                    } else {
                        return Err(JSONError::UnexpectedEndOfInput);
                    }
                } else {
                    push_char(&mut content, d);
                    self.advance();
                    proof {
                        assert(content@ =~= s.subrange(i + 1, self.pos as int));
                    }
                }
            }
        }
        if c == '\\' {
            return Err(JSONError::UnexpectedCharacter('\\', self.line, self.col));
        }
        // An unquoted run.
        let run_line = self.line;
        let run_col = self.col;
        let start = self.pos;
        while self.pos < self.chars.len() && run_char_at(&self.chars, self.pos)
            invariant
                self.wf(),
                self.chars@ == s,
                start as int == i,
                i <= self.pos as int <= s.len(),
                run_end(s, i) == run_end(s, self.pos as int),
            decreases s.len() - self.pos,
        {
            self.advance();
        }
        let e = self.pos;
        proof {
            assert(run_end(s, e as int) == e as int);
            assert(run_end(s, i) == e as int);
        }
        if e < self.chars.len() && self.chars[e] == '\\' {
            return Err(JSONError::UnexpectedCharacter('\\', self.line, self.col));
        }
        let ghost r = s.subrange(i, e as int);
        let len = e - start;
        if len == 4 && self.chars[start] == 't' && self.chars[start + 1] == 'r' && self.chars[start
            + 2] == 'u' && self.chars[start + 3] == 'e' {
            return Ok(Some(Token::Bool(true)));
        }
        if len == 5 && self.chars[start] == 'f' && self.chars[start + 1] == 'a' && self.chars[start
            + 2] == 'l' && self.chars[start + 3] == 's' && self.chars[start + 4] == 'e' {
            return Ok(Some(Token::Bool(false)));
        }
        if len == 4 && self.chars[start] == 'n' && self.chars[start + 1] == 'u' && self.chars[start
            + 2] == 'l' && self.chars[start + 3] == 'l' {
            return Ok(Some(Token::Null));
        }
        if is_number_run(&self.chars, start, e) {
            let text = string_of_range(&self.chars, start, e);
            return Ok(Some(Token::Number(text)));
        }
        if len >= 2 {
            let text = string_of_range(&self.chars, start + 1, e - 1);
            proof {
                assert(r.subrange(1, r.len() - 1) =~= s.subrange(i + 1, e - 1));
            }
            return Ok(Some(Token::Text(text)));
        }
        Err(JSONError::UnexpectedCharacter(self.chars[start], run_line, run_col))
    }
}

/// A run whose characters all continue a run, ending exactly where a
/// terminator or the input's end stands, is the run the tokenizer reads.
pub proof fn lemma_run_end_exact(s: Seq<char>, i: int, e: int)
    requires
        0 <= i <= e <= s.len(),
        forall|t: int| i <= t < e ==> !ends_run(#[trigger] s[t]),
        e == s.len() || ends_run(s[e]),
    ensures
        run_end(s, i) == e,
    decreases e - i,
{
    if i < e {
        lemma_run_end_exact(s, i + 1, e);
    }
}

/// A string whose contents hold no quote and no backslash closes at the
/// first quote after them.
pub proof fn lemma_scan_string_exact(s: Seq<char>, j: int, q: int)
    requires
        0 <= j <= q < s.len(),
        forall|t: int| j <= t < q ==> (#[trigger] s[t]) != '"' && s[t] != '\\',
        s[q] == '"',
    ensures
        scan_string(s, j) == Some(q),
    decreases q - j,
{
    if j < q {
        lemma_scan_string_exact(s, j + 1, q);
    }
}

/// The word `true` does not match the numeric grammar.
pub proof fn lemma_true_run_not_number(x: Seq<char>)
    requires
        is_true_run(x),
    ensures
        !crate::numbers::is_number_literal(x),
{
    assert(crate::numbers::strip_sign(x) == x);
    crate::numbers::lemma_first_e_bounds(x, 0);
    let e = crate::numbers::first_e(x, 0);
    assert(x[3] == 'e');
    assert(e == 3);
    let m = x.subrange(0, 3);
    crate::numbers::lemma_first_dot_bounds(m, 0);
    assert(m[0] == 't');
    assert(crate::numbers::first_dot(m, 0) == 3);
    assert(!crate::numbers::is_digit(m[0]));
}

/// The word `false` does not match the numeric grammar.
pub proof fn lemma_false_run_not_number(x: Seq<char>)
    requires
        is_false_run(x),
    ensures
        !crate::numbers::is_number_literal(x),
{
    assert(crate::numbers::strip_sign(x) == x);
    crate::numbers::lemma_first_e_bounds(x, 0);
    let e = crate::numbers::first_e(x, 0);
    assert(x[4] == 'e');
    assert(e == 4);
    let m = x.subrange(0, 4);
    crate::numbers::lemma_first_dot_bounds(m, 0);
    assert(m[0] == 'f');
    assert(crate::numbers::first_dot(m, 0) == 4);
    assert(!crate::numbers::is_digit(m[0]));
}

/// The word `null` does not match the numeric grammar.
pub proof fn lemma_null_run_not_number(x: Seq<char>)
    requires
        is_null_run(x),
    ensures
        !crate::numbers::is_number_literal(x),
{
    assert(crate::numbers::strip_sign(x) == x);
    crate::numbers::lemma_first_e_bounds(x, 0);
    let e = crate::numbers::first_e(x, 0);
    assert(e == 4);
    crate::numbers::lemma_first_dot_bounds(x, 0);
    assert(crate::numbers::first_dot(x, 0) == 4);
    assert(!crate::numbers::is_digit(x[0]));
}

/// No number character ends a run.
pub proof fn lemma_number_char_not_ends_run(c: char)
    requires
        crate::numbers::is_number_char(c),
    ensures
        !ends_run(c),
{
}

/// The models of a sequence of tokens, in order.
pub open spec fn token_models(ts: Seq<Token>) -> Seq<SpecToken> {
    Seq::new(ts.len(), |i: int| ts[i].model())
}

/// The whole token sequence of `s`, or the first lexical error: the
/// tokenizer run to the end of the input.
#[verifier::loop_isolation(false)]
pub fn tokenize(s: &str) -> (r: Result<Vec<Token>, JSONError>)
    requires
        s@.len() < usize::MAX,
    ensures
        match spec_tokens_at(s@, 0) {
            Ok(ts) => match r {
                Ok(toks) => token_models(toks@) == ts,
                _ => false,
            },
            Err(e) => match r {
                Err(err) => err.model() == e,
                _ => false,
            },
        },
{
    let mut it = TokenIterator::new(s);
    let mut toks: Vec<Token> = Vec::new();
    proof {
        assert(token_models(toks@) =~= Seq::<SpecToken>::empty());
    }
    loop
        invariant
            it.wf(),
            it.input() == s@,
            spec_tokens_at(s@, 0) == (match spec_tokens_at(s@, it.position()) {
                Ok(rest) => Ok::<Seq<SpecToken>, SpecErr>(token_models(toks@) + rest),
                Err(e) => Err::<Seq<SpecToken>, SpecErr>(e),
            }),
        decreases s@.len() - it.position(),
    {
        let ghost pos = it.position();
        let ghost done = token_models(toks@);
        proof {
            it.lemma_iter_bounds();
            lemma_next_tok_advances(s@, pos);
        }
        match it.next_token() {
            Err(e) => {
                return Err(e);
            },
            Ok(None) => {
                proof {
                    assert(done + Seq::<SpecToken>::empty() =~= done);
                }
                return Ok(toks);
            },
            Ok(Some(tok)) => {
                let ghost tm = tok.model();
                toks.push(tok);
                proof {
                    assert(token_models(toks@) =~= done.push(tm));
                    match spec_next_tok(s@, pos) {
                        SpecNext::Tok(t, j) => {
                            match spec_tokens_at(s@, j) {
                                Ok(rest2) => {
                                    assert(spec_tokens_at(s@, pos) == Ok::<
                                        Seq<SpecToken>,
                                        SpecErr,
                                    >(seq![t] + rest2));
                                    assert(done + (seq![t] + rest2) =~= done.push(tm) + rest2);
                                },
                                Err(_) => {},
                            }
                        },
                        _ => {
                            assert(false);
                        },
                    }
                }
            },
        }
    }
}

} // verus!

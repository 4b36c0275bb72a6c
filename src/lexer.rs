use vstd::prelude::*;

use crate::lexeme::{tokens_of, Lexeme, Token};

verus! {

/// Whether `char::is_alphabetic` holds of a character.
pub uninterp spec fn alphabetic(c: char) -> bool;

/// Whether `char::is_alphanumeric` holds of a character.
pub uninterp spec fn alphanumeric(c: char) -> bool;

/// An ASCII letter.
pub open spec fn ascii_letter(c: char) -> bool {
    ('a' <= c && c <= 'z') || ('A' <= c && c <= 'Z')
}

/// A decimal digit, `0` to `9`.
pub open spec fn decimal_digit(c: char) -> bool {
    '0' <= c && c <= '9'
}

/// Relies on `char::is_alphabetic`: Unicode's Alphabetic property, which
/// among ASCII characters holds of the letters only.
#[verifier::external_body]
fn is_alphabetic(c: char) -> (r: bool)
    ensures
        r == alphabetic(c),
        (c as u32) < 128 ==> (r <==> ascii_letter(c)),
{
    c.is_alphabetic()
}

/// Relies on `char::is_alphanumeric`: alphabetic or numeric, which among
/// ASCII characters holds of the letters and the decimal digits only.
#[verifier::external_body]
fn is_alphanumeric(c: char) -> (r: bool)
    ensures
        r == alphanumeric(c),
        alphabetic(c) ==> r,
        (c as u32) < 128 ==> (r <==> (ascii_letter(c) || decimal_digit(c))),
{
    c.is_alphanumeric()
}

/// Relies on `str::chars`: the characters of the text, in order.
#[verifier::external_body]
fn chars_of(code: &String) -> (r: Vec<char>)
    ensures
        r@ == code@,
{
    code.chars().collect()
}

/// Why lexing stopped.
#[derive(Debug, Clone, Copy, PartialEq, Eq, Structural)]
pub enum LexError {
    /// A character that starts no lexeme.
    UnknownCharacter(char),
    /// A run of digits whose value does not fit in an `i32`.
    IntegerOverflow,
}

/// A letter: among ASCII characters `a` to `z` and `A` to `Z`, beyond them
/// what `char::is_alphabetic` says.
pub open spec fn letter(c: char) -> bool {
    if (c as u32) < 128 {
        ascii_letter(c)
    } else {
        alphabetic(c)
    }
}

/// A letter or a digit: among ASCII characters the letters and `0` to `9`,
/// beyond them what `char::is_alphanumeric` says.
pub open spec fn letter_or_digit(c: char) -> bool {
    if (c as u32) < 128 {
        ascii_letter(c) || decimal_digit(c)
    } else {
        alphanumeric(c)
    }
}

/// A character that begins a name.
pub open spec fn starts_name(c: char) -> bool {
    letter(c) || c == '_'
}

/// A character that extends a name.
pub open spec fn continues_name(c: char) -> bool {
    c == '_' || letter_or_digit(c)
}

/// The classes of characters that the lexer reads greedily.
pub enum Run {
    NameChars,
    Digits,
    NotQuote,
}

pub open spec fn in_run(r: Run, c: char) -> bool {
    match r {
        Run::NameChars => continues_name(c),
        Run::Digits => decimal_digit(c),
        Run::NotQuote => c != '\'',
    }
}

/// The first position at or after `k` that does not hold a character of the
/// run (or the length of `s`).
pub open spec fn run_end(s: Seq<char>, k: int, r: Run) -> int
    decreases s.len() - k,
{
    if 0 <= k < s.len() && in_run(r, s[k]) {
        run_end(s, k + 1, r)
    } else {
        k
    }
}

/// The value of a decimal digit.
pub open spec fn digit_value(c: char) -> int {
    (c as u32) as int - ('0' as u32) as int
}

/// The value of a run of decimal digits.
pub open spec fn digits_value(d: Seq<char>) -> int
    decreases d.len(),
{
    if d.len() == 0 {
        0
    } else {
        digits_value(d.drop_last()) * 10 + digit_value(d.last())
    }
}

/// What the lexer does at one position.
pub enum Step {
    /// Emits a token and goes on at the given position.
    Emit(Token, int),
    /// Drops a string literal that runs to the end of the input, whose text is given.
    Unclosed(Seq<char>),
    Unknown(char),
    Overflow,
}

/// The lexer's decision at position `i` of `s`, by the first rule that applies.
pub open spec fn step(s: Seq<char>, i: int) -> Step {
    let c = s[i];
    if starts_name(c) {
        let j = run_end(s, i + 1, Run::NameChars);
        Step::Emit(Token::Name(s.subrange(i, j)), j)
    } else if decimal_digit(c) {
        let j = run_end(s, i + 1, Run::Digits);
        let v = digits_value(s.subrange(i, j));
        if v <= i32::MAX {
            Step::Emit(Token::Int(v as i32), j)
        } else {
            Step::Overflow
        }
    } else if c == ':' {
        Step::Emit(Token::Colon, i + 1)
    } else if c == '/' {
        Step::Emit(Token::Slash, i + 1)
    } else if c == '\t' {
        Step::Emit(Token::Tab, i + 1)
    } else if c == ' ' {
        if i + 1 < s.len() && s[i + 1] == ' ' {
            Step::Emit(Token::Tab, i + 2)
        } else {
            Step::Emit(Token::Space, i + 1)
        }
    } else if c == '\n' {
        Step::Emit(Token::Newline, i + 1)
    } else if c == '\'' {
        let j = run_end(s, i + 1, Run::NotQuote);
        if j < s.len() {
            Step::Emit(Token::String(s.subrange(i + 1, j)), j + 1)
        } else {
            Step::Unclosed(s.subrange(i + 1, s.len() as int))
        }
    } else {
        Step::Unknown(c)
    }
}

/// What lexing yields: the tokens, and the text of a string literal left
/// open at the end of the input, if any.
pub struct Lexed {
    pub tokens: Seq<Token>,
    pub unclosed: Option<Seq<char>>,
}

/// The result of lexing `s` from position `i` to its end.
pub open spec fn lex_from(s: Seq<char>, i: int) -> Result<Lexed, LexError>
    decreases s.len() - i,
    via lex_from_decreases
{
    if i < 0 || i >= s.len() {
        Ok(Lexed { tokens: seq![], unclosed: None })
    } else {
        match step(s, i) {
            Step::Emit(t, j) => match lex_from(s, j) {
                Ok(rest) => Ok(Lexed { tokens: seq![t] + rest.tokens, unclosed: rest.unclosed }),
                Err(e) => Err(e),
            },
            Step::Unclosed(text) => Ok(Lexed { tokens: seq![], unclosed: Some(text) }),
            Step::Unknown(c) => Err(LexError::UnknownCharacter(c)),
            Step::Overflow => Err(LexError::IntegerOverflow),
        }
    }
}

/// The result of lexing the whole of `s`.
pub open spec fn lex(s: Seq<char>) -> Result<Lexed, LexError> {
    lex_from(s, 0)
}

pub proof fn lemma_run_end_bounds(s: Seq<char>, k: int, r: Run)
    requires
        0 <= k <= s.len(),
    ensures
        k <= run_end(s, k, r) <= s.len(),
    decreases s.len() - k,
{
    if k < s.len() && in_run(r, s[k]) {
        lemma_run_end_bounds(s, k + 1, r);
    }
}

/// Every emitted token moves the position forward.
pub proof fn lemma_step_advances(s: Seq<char>, i: int)
    requires
        0 <= i < s.len(),
    ensures
        step(s, i) matches Step::Emit(_, j) ==> i < j <= s.len(),
{
    lemma_run_end_bounds(s, i + 1, Run::NameChars);
    lemma_run_end_bounds(s, i + 1, Run::Digits);
    lemma_run_end_bounds(s, i + 1, Run::NotQuote);
}

#[via_fn]
proof fn lex_from_decreases(s: Seq<char>, i: int) {
    if 0 <= i < s.len() {
        lemma_step_advances(s, i);
    }
}

/// A run ends where its characters stop.
pub proof fn lemma_run_end_at(s: Seq<char>, k: int, e: int, r: Run)
    requires
        0 <= k <= e <= s.len(),
        forall|m: int| k <= m < e ==> in_run(r, #[trigger] s[m]),
        e == s.len() || !in_run(r, s[e]),
    ensures
        run_end(s, k, r) == e,
    decreases e - k,
{
    if k < e {
        lemma_run_end_at(s, k + 1, e, r);
    }
}

/// Appending a digit to a run multiplies its value by ten and adds the digit.
pub proof fn lemma_digits_value_push(s: Seq<char>, i: int, k: int)
    requires
        0 <= i <= k < s.len(),
    ensures
        digits_value(s.subrange(i, k + 1)) == digits_value(s.subrange(i, k)) * 10
            + digit_value(s[k]),
{
    assert(s.subrange(i, k + 1).drop_last() =~= s.subrange(i, k));
}

/// Lexing state: the input, the lexemes emitted so far, the position of the
/// next character to read, and the text of a string literal that was left
/// open at the end of the input.
pub struct LexicalAnalyzer {
    pub input: Vec<char>,
    pub lexemes: Vec<Lexeme>,
    pub i: usize,
    pub unclosed: Option<Vec<char>>,
}

/// Joins what was lexed so far with what lexing the rest yields.
pub open spec fn resume(
    done: Seq<Token>,
    unclosed: Option<Seq<char>>,
    rest: Result<Lexed, LexError>,
) -> Result<Lexed, LexError> {
    match rest {
        Ok(r) => Ok(
            Lexed {
                tokens: done + r.tokens,
                unclosed: match r.unclosed {
                    Some(u) => Some(u),
                    None => unclosed,
                },
            },
        ),
        Err(e) => Err(e),
    }
}

pub open spec fn unclosed_view(u: Option<Vec<char>>) -> Option<Seq<char>> {
    match u {
        Some(v) => Some(v@),
        None => None,
    }
}

/// Creates a lexer positioned at the start of `code`.
pub fn new_lexical_analyzer(code: String) -> (r: LexicalAnalyzer)
    ensures
        r.input@ == code@,
        r.lexemes@.len() == 0,
        r.i == 0,
        r.unclosed is None,
        r.wf(),
{
    LexicalAnalyzer { input: chars_of(&code), lexemes: Vec::new(), i: 0, unclosed: None }
}

impl LexicalAnalyzer {
    /// The position lies within the input, and an open string literal was
    /// only recorded once the whole input was read.
    pub open spec fn wf(&self) -> bool {
        &&& self.i <= self.input.len()
        &&& self.unclosed is Some ==> self.i == self.input.len()
    }

    /// What lexing yields once this state runs to the end of the input.
    pub open spec fn outcome(&self) -> Result<Lexed, LexError> {
        resume(tokens_of(self.lexemes@), unclosed_view(self.unclosed), lex_from(self.input@, self.i as int))
    }

    /// Lexes the rest of the input. On success the position is at the end
    /// of the input and the lexemes and the open literal are those of
    /// `outcome`; on failure the error is that of `outcome`.
    pub fn init(&mut self) -> (r: Result<(), LexError>)
        requires
            old(self).wf(),
        ensures
            final(self).input@ == old(self).input@,
            match old(self).outcome() {
                Ok(l) => {
                    &&& r is Ok
                    &&& final(self).i == final(self).input.len()
                    &&& tokens_of(final(self).lexemes@) == l.tokens
                    &&& unclosed_view(final(self).unclosed) == l.unclosed
                },
                Err(e) => r == Err::<(), LexError>(e),
            },
    {
        while self.i < self.input.len()
            invariant
                self.wf(),
                self.input@ == old(self).input@,
                self.outcome() == old(self).outcome(),
            decreases self.input.len() - self.i,
        {
            let r = self.generate_lexeme();
            if r.is_err() {
                return r;
            }
        }
        proof {
            assert(tokens_of(self.lexemes@) + seq![] =~= tokens_of(self.lexemes@));
        }
        Ok(())
    }

    /// The character at position `k`, if there is one.
    pub fn char_at(&self, k: usize) -> (r: Option<char>)
        ensures
            r == (if k < self.input.len() {
                Some(self.input@[k as int])
            } else {
                None
            }),
    {
        if k >= self.input.len() {
            return None;
        }
        Some(self.input[k])
    }

    /// Reads the lexeme that starts at the current position, by the rule
    /// that `step` gives.
    pub fn generate_lexeme(&mut self) -> (r: Result<(), LexError>)
        requires
            old(self).wf(),
        ensures
            final(self).input@ == old(self).input@,
            old(self).i >= old(self).input.len() ==> r is Ok && *final(self) == *old(self),
            old(self).i < old(self).input.len() ==> match step(
                old(self).input@,
                old(self).i as int,
            ) {
                Step::Emit(t, j) => {
                    &&& r is Ok
                    &&& final(self).i == j
                    &&& tokens_of(final(self).lexemes@) == tokens_of(old(self).lexemes@).push(t)
                    &&& final(self).unclosed == old(self).unclosed
                },
                Step::Unclosed(text) => {
                    &&& r is Ok
                    &&& final(self).i == final(self).input.len()
                    &&& final(self).lexemes@ == old(self).lexemes@
                    &&& unclosed_view(final(self).unclosed) == Some(text)
                },
                Step::Unknown(c) => r == Err::<(), LexError>(LexError::UnknownCharacter(c)),
                Step::Overflow => r == Err::<(), LexError>(LexError::IntegerOverflow),
            },
            r is Ok ==> final(self).wf() && final(self).outcome() == old(self).outcome(),
            r is Ok && old(self).i < old(self).input.len() ==> final(self).i > old(self).i,
    {
        if self.i >= self.input.len() {
            return Ok(());
        }
        let ghost s = self.input@;
        let ghost i0 = self.i as int;
        let ghost done = tokens_of(self.lexemes@);
        proof {
            lemma_step_advances(s, i0);
        }
        let ch = self.input[self.i];
        let alpha = is_alphabetic(ch);
        if alpha || ch == '_' {
            self.generate_name();
        } else if '0' <= ch && ch <= '9' {
            let r = self.generate_number();
            if r.is_err() {
                return r;
            }
        } else if ch == ':' {
            self.i += 1;
            self.lexemes.push(Lexeme::Colon);
        } else if ch == '/' {
            self.i += 1;
            self.lexemes.push(Lexeme::Slash);
        } else if ch == '\t' {
            self.i += 1;
            self.lexemes.push(Lexeme::Tab);
        } else if ch == ' ' {
            self.i += 1;
            if let Some(next_ch) = self.char_at(self.i) {
                if next_ch == ' ' {
                    self.i += 1;
                    self.lexemes.push(Lexeme::Tab);
                    proof {
                        assert(tokens_of(self.lexemes@) =~= done.push(Token::Tab));
                        self.lemma_resume_step(done, s, i0);
                    }
                    return Ok(());
                }
            }
            self.lexemes.push(Lexeme::Space);
        } else if ch == '\n' {
            self.i += 1;
            self.lexemes.push(Lexeme::Newline);
        } else if ch == '\'' {
            self.generate_string();
        } else {
            return Err(LexError::UnknownCharacter(ch));
        }
        proof {
            match step(s, i0) {
                Step::Emit(t, j) => {
                    assert(tokens_of(self.lexemes@) =~= done.push(t));
                    self.lemma_resume_step(done, s, i0);
                },
                _ => {},
            }
        }
        Ok(())
    }

    /// Emitting the token of a step keeps the outcome.
    proof fn lemma_resume_step(&self, done: Seq<Token>, s: Seq<char>, i: int)
        requires
            0 <= i < s.len(),
            self.input@ == s,
            self.unclosed is None,
            step(s, i) matches Step::Emit(t, j) && self.i == j && tokens_of(self.lexemes@)
                == done.push(t),
        ensures
            self.outcome() == resume(done, None, lex_from(s, i)),
    {
        lemma_step_advances(s, i);
        let t = step(s, i)->Emit_0;
        match lex_from(s, self.i as int) {
            Ok(rest) => {
                assert(done.push(t) + rest.tokens =~= done + (seq![t] + rest.tokens));
            },
            Err(_) => {},
        }
    }

    /// Reads a name: the character at the position and the name characters
    /// that follow it.
    pub fn generate_name(&mut self)
        requires
            old(self).i < old(self).input.len(),
            starts_name(old(self).input@[old(self).i as int]),
        ensures
            final(self).input@ == old(self).input@,
            final(self).unclosed == old(self).unclosed,
            ({
                let s = old(self).input@;
                let j = run_end(s, old(self).i + 1, Run::NameChars);
                &&& final(self).i == j
                &&& tokens_of(final(self).lexemes@) == tokens_of(old(self).lexemes@).push(
                    Token::Name(s.subrange(old(self).i as int, j)),
                )
            }),
    {
        let ghost s = self.input@;
        let start = self.i;
        let mut chars: Vec<char> = Vec::new();
        while self.i < self.input.len() && (self.input[self.i] == '_' || is_alphanumeric(
            self.input[self.i],
        ))
            invariant
                self.input@ == s,
                self.lexemes == old(self).lexemes,
                self.unclosed == old(self).unclosed,
                start == old(self).i,
                start < s.len(),
                starts_name(s[start as int]),
                start <= self.i <= s.len(),
                chars@ == s.subrange(start as int, self.i as int),
                forall|m: int| start < m < self.i ==> continues_name(#[trigger] s[m]),
            decreases s.len() - self.i,
        {
            chars.push(self.input[self.i]);
            self.i += 1;
            assert(chars@ =~= s.subrange(start as int, self.i as int));
        }
        proof {
            lemma_run_end_at(s, start + 1, self.i as int, Run::NameChars);
        }
        self.lexemes.push(Lexeme::Name(chars));
        assert(tokens_of(self.lexemes@) =~= tokens_of(old(self).lexemes@).push(
            Token::Name(s.subrange(start as int, self.i as int)),
        ));
    }

    /// Reads a run of decimal digits as an `i32`, or fails where its value
    /// does not fit.
    pub fn generate_number(&mut self) -> (r: Result<(), LexError>)
        requires
            old(self).i < old(self).input.len(),
            decimal_digit(old(self).input@[old(self).i as int]),
        ensures
            final(self).input@ == old(self).input@,
            final(self).unclosed == old(self).unclosed,
            ({
                let s = old(self).input@;
                let j = run_end(s, old(self).i + 1, Run::Digits);
                let v = digits_value(s.subrange(old(self).i as int, j));
                if v <= i32::MAX {
                    &&& r is Ok
                    &&& final(self).i == j
                    &&& tokens_of(final(self).lexemes@) == tokens_of(old(self).lexemes@).push(
                        Token::Int(v as i32),
                    )
                } else {
                    r == Err::<(), LexError>(LexError::IntegerOverflow)
                }
            }),
    {
        let ghost s = self.input@;
        let start = self.i;
        let mut value: u64 = 0;
        let mut overflow = false;
        while self.i < self.input.len() && '0' <= self.input[self.i] && self.input[self.i] <= '9'
            invariant
                self.input@ == s,
                self.lexemes == old(self).lexemes,
                self.unclosed == old(self).unclosed,
                start == old(self).i,
                start < s.len(),
                decimal_digit(s[start as int]),
                start <= self.i <= s.len(),
                forall|m: int| start <= m < self.i ==> decimal_digit(#[trigger] s[m]),
                !overflow ==> value == digits_value(s.subrange(start as int, self.i as int))
                    && value <= i32::MAX,
                overflow ==> digits_value(s.subrange(start as int, self.i as int)) > i32::MAX,
            decreases s.len() - self.i,
        {
            let d = (self.input[self.i] as u32 - '0' as u32) as u64;
            proof {
                lemma_digits_value_push(s, start as int, self.i as int);
            }
            if !overflow {
                let next = value * 10 + d;
                if next > 2147483647 {
                    overflow = true;
                } else {
                    value = next;
                }
            }
            self.i += 1;
        }
        proof {
            lemma_run_end_at(s, start + 1, self.i as int, Run::Digits);
        }
        if overflow {
            return Err(LexError::IntegerOverflow);
        }
        self.lexemes.push(Lexeme::Int(value as i32));
        assert(tokens_of(self.lexemes@) =~= tokens_of(old(self).lexemes@).push(
            Token::Int(value as i32),
        ));
        Ok(())
    }

    /// Reads a string literal from the opening quote at the position. A
    /// literal that the input ends in before a closing quote emits nothing;
    /// its text is kept in `unclosed`.
    pub fn generate_string(&mut self)
        requires
            old(self).i < old(self).input.len(),
            old(self).input@[old(self).i as int] == '\'',
        ensures
            final(self).input@ == old(self).input@,
            ({
                let s = old(self).input@;
                let j = run_end(s, old(self).i + 1, Run::NotQuote);
                if j < s.len() {
                    &&& final(self).i == j + 1
                    &&& final(self).unclosed == old(self).unclosed
                    &&& tokens_of(final(self).lexemes@) == tokens_of(old(self).lexemes@).push(
                        Token::String(s.subrange(old(self).i + 1, j)),
                    )
                } else {
                    &&& final(self).i == s.len()
                    &&& final(self).lexemes@ == old(self).lexemes@
                    &&& unclosed_view(final(self).unclosed) == Some(
                        s.subrange(old(self).i + 1, s.len() as int),
                    )
                }
            }),
    {
        let ghost s = self.input@;
        self.i += 1;
        let start = self.i;
        let mut chars: Vec<char> = Vec::new();
        while self.i < self.input.len() && self.input[self.i] != '\''
            invariant
                self.input@ == s,
                self.lexemes == old(self).lexemes,
                self.unclosed == old(self).unclosed,
                start == old(self).i + 1,
                start <= self.i <= s.len(),
                chars@ == s.subrange(start as int, self.i as int),
                forall|m: int| start <= m < self.i ==> #[trigger] s[m] != '\'',
            decreases s.len() - self.i,
        {
            chars.push(self.input[self.i]);
            self.i += 1;
            assert(chars@ =~= s.subrange(start as int, self.i as int));
        }
        proof {
            lemma_run_end_at(s, start as int, self.i as int, Run::NotQuote);
        }
        if let Some(ch) = self.char_at(self.i) {
            if ch == '\'' {
                self.i += 1;
            }
        } else {
            self.unclosed = Some(chars);
            return;
        }
        self.lexemes.push(Lexeme::String(chars));
        assert(tokens_of(self.lexemes@) =~= tokens_of(old(self).lexemes@).push(
            Token::String(s.subrange(start as int, self.i - 1)),
        ));
    }
}

/// Lexes `text`: the lexemes of `lex`, or its error. A string literal left
/// open at the end of the text emits no lexeme.
pub fn tokenize(text: Vec<char>) -> (r: Result<Vec<Lexeme>, LexError>)
    ensures
        match lex(text@) {
            Ok(l) => r is Ok && tokens_of(r->Ok_0@) == l.tokens,
            Err(e) => r == Err::<Vec<Lexeme>, LexError>(e),
        },
{
    let mut analyzer = LexicalAnalyzer { input: text, lexemes: Vec::new(), i: 0, unclosed: None };
    proof {
        match lex(text@) {
            Ok(l) => {
                assert(seq![] + l.tokens =~= l.tokens);
            },
            Err(_) => {},
        }
    }
    match analyzer.init() {
        Ok(()) => Ok(analyzer.lexemes),
        Err(e) => Err(e),
    }
}

} // verus!

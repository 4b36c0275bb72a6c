use vstd::prelude::*;

use crate::lexeme::{tokens_of, Lexeme, Token};

verus! {

/// Why normalizing stopped.
#[derive(Debug, Clone, Copy, PartialEq, Eq, Structural)]
pub enum NormalizeError {
    /// The input ended inside a line that has no `Newline`.
    MissingNewline,
}

/// The first position at or after `k` that does not hold a `Tab`.
pub open spec fn tab_run_end(t: Seq<Token>, k: int) -> int
    decreases t.len() - k,
{
    if 0 <= k < t.len() && t[k] == Token::Tab {
        tab_run_end(t, k + 1)
    } else {
        k
    }
}

/// The first position at or after `k` that holds a `Newline` (or the length
/// of `t`).
pub open spec fn line_end(t: Seq<Token>, k: int) -> int
    decreases t.len() - k,
{
    if 0 <= k < t.len() && t[k] != Token::Newline {
        line_end(t, k + 1)
    } else {
        k
    }
}

/// `n` copies of a token.
pub open spec fn repeat(tok: Token, n: nat) -> Seq<Token>
    decreases n,
{
    if n == 0 {
        seq![]
    } else {
        repeat(tok, (n - 1) as nat).push(tok)
    }
}

/// The markers that move the indentation level from `level` to `target`.
pub open spec fn markers(level: int, target: int) -> Seq<Token> {
    if level < target {
        repeat(Token::Indent, (target - level) as nat)
    } else {
        repeat(Token::Unindent, (level - target) as nat)
    }
}

/// The normalized form of the lines of `t` from position `i` on, at
/// indentation level `level`.
pub open spec fn normalize_from(t: Seq<Token>, i: int, level: int) -> Result<
    Seq<Token>,
    NormalizeError,
>
    decreases t.len() - i,
    via normalize_from_decreases
{
    if i < 0 || i >= t.len() {
        Ok(seq![])
    } else {
        let j = tab_run_end(t, i);
        let k = line_end(t, j);
        if k >= t.len() {
            Err(NormalizeError::MissingNewline)
        } else {
            match normalize_from(t, k + 1, j - i) {
                Ok(rest) => Ok(
                    markers(level, j - i) + t.subrange(j, k) + seq![Token::Newline] + rest,
                ),
                Err(e) => Err(e),
            }
        }
    }
}

/// The normalized form of the whole of `t`.
pub open spec fn normalized(t: Seq<Token>) -> Result<Seq<Token>, NormalizeError> {
    normalize_from(t, 0, 0)
}

pub proof fn lemma_tab_run_end_bounds(t: Seq<Token>, k: int)
    requires
        0 <= k <= t.len(),
    ensures
        k <= tab_run_end(t, k) <= t.len(),
    decreases t.len() - k,
{
    if k < t.len() && t[k] == Token::Tab {
        lemma_tab_run_end_bounds(t, k + 1);
    }
}

pub proof fn lemma_line_end_bounds(t: Seq<Token>, k: int)
    requires
        0 <= k <= t.len(),
    ensures
        k <= line_end(t, k) <= t.len(),
    decreases t.len() - k,
{
    if k < t.len() && t[k] != Token::Newline {
        lemma_line_end_bounds(t, k + 1);
    }
}

#[via_fn]
proof fn normalize_from_decreases(t: Seq<Token>, i: int, level: int) {
    if 0 <= i < t.len() {
        lemma_tab_run_end_bounds(t, i);
        lemma_line_end_bounds(t, tab_run_end(t, i));
    }
}

/// A tab run ends where its tabs stop.
pub proof fn lemma_tab_run_end_at(t: Seq<Token>, k: int, e: int)
    requires
        0 <= k <= e <= t.len(),
        forall|m: int| k <= m < e ==> #[trigger] t[m] == Token::Tab,
        e == t.len() || t[e] != Token::Tab,
    ensures
        tab_run_end(t, k) == e,
    decreases e - k,
{
    if k < e {
        lemma_tab_run_end_at(t, k + 1, e);
    }
}

/// A line ends at its first `Newline`.
pub proof fn lemma_line_end_at(t: Seq<Token>, k: int, e: int)
    requires
        0 <= k <= e <= t.len(),
        forall|m: int| k <= m < e ==> #[trigger] t[m] != Token::Newline,
        e == t.len() || t[e] == Token::Newline,
    ensures
        line_end(t, k) == e,
    decreases e - k,
{
    if k < e {
        lemma_line_end_at(t, k + 1, e);
    }
}

/// Prefixes what is already out to a normalized remainder.
pub open spec fn after(done: Seq<Token>, rest: Result<Seq<Token>, NormalizeError>) -> Result<
    Seq<Token>,
    NormalizeError,
> {
    match rest {
        Ok(r) => Ok(done + r),
        Err(e) => Err(e),
    }
}

/// Normalizing state: the lexemes to read, the lexemes emitted so far, and
/// the position of the next lexeme to read.
pub struct IndentationAnalyzer {
    pub input: Vec<Lexeme>,
    pub output: Vec<Lexeme>,
    pub i: usize,
}

/// Creates a normalizer positioned at the start of `lexemes`.
pub fn new_indentation_analyzer(lexemes: Vec<Lexeme>) -> (r: IndentationAnalyzer)
    ensures
        r.input@ == lexemes@,
        r.output@.len() == 0,
        r.i == 0,
{
    IndentationAnalyzer { input: lexemes, output: Vec::new(), i: 0 }
}

impl IndentationAnalyzer {
    /// Normalizes the lines from the position on, starting at level 0, and
    /// appends the result to `output`; fails where a line has no `Newline`.
    pub fn init(&mut self) -> (r: Result<(), NormalizeError>)
        requires
            old(self).i <= old(self).input.len(),
        ensures
            final(self).input@ == old(self).input@,
            match normalize_from(tokens_of(old(self).input@), old(self).i as int, 0) {
                Ok(o) => {
                    &&& r is Ok
                    &&& tokens_of(final(self).output@) == tokens_of(old(self).output@) + o
                },
                Err(e) => r == Err::<(), NormalizeError>(e),
            },
    {
        let ghost t = tokens_of(self.input@);
        let mut indent_level: usize = 0;
        while self.i < self.input.len()
            invariant
                self.input@ == old(self).input@,
                t == tokens_of(self.input@),
                    t.len() == self.input@.len(),
                self.i <= self.input.len(),
                indent_level <= self.input.len(),
                after(tokens_of(self.output@), normalize_from(t, self.i as int, indent_level as int))
                    == after(
                    tokens_of(old(self).output@),
                    normalize_from(t, old(self).i as int, 0),
                ),
            decreases self.input.len() - self.i,
        {
            let ghost line_start = self.i as int;
            let ghost level0 = indent_level as int;
            let ghost out0 = tokens_of(self.output@);
            let mut this_line_indent_level: usize = 0;
            while self.i < self.input.len() && matches!(self.input[self.i], Lexeme::Tab)
                invariant
                    self.input@ == old(self).input@,
                    t == tokens_of(self.input@),
                    t.len() == self.input@.len(),
                    0 <= line_start <= self.i <= self.input.len(),
                    this_line_indent_level == self.i - line_start,
                    forall|m: int| line_start <= m < self.i ==> #[trigger] t[m] == Token::Tab,
                    tokens_of(self.output@) == out0,
                decreases self.input.len() - self.i,
            {
                this_line_indent_level += 1;
                self.i += 1;
            }
            proof {
                lemma_tab_run_end_at(t, line_start, self.i as int);
            }
            let ghost body_start = self.i as int;
            while indent_level < this_line_indent_level
                invariant
                    self.input@ == old(self).input@,
                    t == tokens_of(self.input@),
                    t.len() == self.input@.len(),
                    self.i == body_start,
                    level0 < this_line_indent_level ==> level0 <= indent_level
                        <= this_line_indent_level,
                    level0 >= this_line_indent_level ==> indent_level == level0,
                    tokens_of(self.output@) == out0 + repeat(
                        Token::Indent,
                        (indent_level - level0) as nat,
                    ),
                decreases this_line_indent_level - indent_level,
            {
                let ghost before = tokens_of(self.output@);
                self.output.push(Lexeme::Indent);
                indent_level += 1;
                assert(tokens_of(self.output@) =~= before.push(Token::Indent));
                assert(repeat(Token::Indent, (indent_level - level0) as nat) == repeat(
                    Token::Indent,
                    (indent_level - 1 - level0) as nat,
                ).push(Token::Indent));
                assert(tokens_of(self.output@) =~= out0 + repeat(
                    Token::Indent,
                    (indent_level - level0) as nat,
                ));
            }
            let ghost out1 = tokens_of(self.output@);
            let ghost level1 = indent_level as int;
            while indent_level > this_line_indent_level
                invariant
                    self.input@ == old(self).input@,
                    t == tokens_of(self.input@),
                    t.len() == self.input@.len(),
                    self.i == body_start,
                    level1 > this_line_indent_level ==> this_line_indent_level <= indent_level
                        <= level1,
                    level1 <= this_line_indent_level ==> indent_level == level1,
                    tokens_of(self.output@) == out1 + repeat(
                        Token::Unindent,
                        (level1 - indent_level) as nat,
                    ),
                decreases indent_level,
            {
                let ghost before = tokens_of(self.output@);
                self.output.push(Lexeme::Unindent);
                indent_level -= 1;
                assert(tokens_of(self.output@) =~= before.push(Token::Unindent));
                assert(repeat(Token::Unindent, (level1 - indent_level) as nat) == repeat(
                    Token::Unindent,
                    (level1 - indent_level - 1) as nat,
                ).push(Token::Unindent));
                assert(tokens_of(self.output@) =~= out1 + repeat(
                    Token::Unindent,
                    (level1 - indent_level) as nat,
                ));
            }
            proof {
                assert(out0 + repeat(Token::Indent, 0) =~= out0);
                assert(out1 + repeat(Token::Unindent, 0) =~= out1);
                assert(tokens_of(self.output@) =~= out0 + markers(
                    level0,
                    this_line_indent_level as int,
                ));
            }
            let ghost out2 = tokens_of(self.output@);
            while self.i < self.input.len() && !matches!(self.input[self.i], Lexeme::Newline)
                invariant
                    self.input@ == old(self).input@,
                    t == tokens_of(self.input@),
                    t.len() == self.input@.len(),
                    0 <= body_start <= self.i <= self.input.len(),
                    forall|m: int| body_start <= m < self.i ==> #[trigger] t[m] != Token::Newline,
                    tokens_of(self.output@) == out2 + t.subrange(body_start, self.i as int),
                decreases self.input.len() - self.i,
            {
                let ghost before = tokens_of(self.output@);
                let l = self.input[self.i].duplicate();
                self.output.push(l);
                assert(tokens_of(self.output@) =~= before.push(t[self.i as int]));
                assert(t.subrange(body_start, self.i + 1) =~= t.subrange(
                    body_start,
                    self.i as int,
                ).push(t[self.i as int]));
                self.i += 1;
                assert(tokens_of(self.output@) =~= out2 + t.subrange(body_start, self.i as int));
            }
            proof {
                lemma_line_end_at(t, body_start, self.i as int);
            }
            if self.i >= self.input.len() {
                return Err(NormalizeError::MissingNewline);
            }
            let ghost before = tokens_of(self.output@);
            self.output.push(Lexeme::Newline);
            self.i += 1;
            proof {
                assert(tokens_of(self.output@) =~= before.push(Token::Newline));
                let line = markers(level0, this_line_indent_level as int) + t.subrange(
                    body_start,
                    self.i - 1,
                ) + seq![Token::Newline];
                assert(tokens_of(self.output@) =~= out0 + line);
                match normalize_from(t, self.i as int, indent_level as int) {
                    Ok(rest) => {
                        assert(out0 + line + rest =~= out0 + (line + rest));
                    },
                    Err(_) => {},
                }
            }
        }
        proof {
            assert(tokens_of(self.output@) + seq![] =~= tokens_of(self.output@));
        }
        Ok(())
    }
}

/// Normalizes a lexeme sequence: each line's leading tabs become the
/// `Indent` or `Unindent` markers that move the level to its tab count.
pub fn normalize(lexemes: Vec<Lexeme>) -> (r: Result<Vec<Lexeme>, NormalizeError>)
    ensures
        match normalized(tokens_of(lexemes@)) {
            Ok(o) => r is Ok && tokens_of(r->Ok_0@) == o,
            Err(e) => r == Err::<Vec<Lexeme>, NormalizeError>(e),
        },
{
    let mut analyzer = new_indentation_analyzer(lexemes);
    match analyzer.init() {
        Ok(()) => {
            assert(seq![] + normalized(tokens_of(lexemes@))->Ok_0 =~= normalized(
                tokens_of(lexemes@),
            )->Ok_0);
            Ok(analyzer.output)
        },
        Err(e) => Err(e),
    }
}

} // verus!

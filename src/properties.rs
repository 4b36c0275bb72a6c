use vstd::prelude::*;

use crate::indentation::{
    lemma_line_end_bounds, lemma_tab_run_end_bounds, line_end, markers, normalize_from,
    normalized, repeat, tab_run_end,
};
use crate::lexeme::Token;
use crate::lexer::{
    decimal_digit, in_run, lemma_run_end_bounds, lemma_step_advances, lex, lex_from, run_end,
    starts_name, step, Lexed, Run, Step,
};

verus! {

/// How a token moves the indentation depth.
pub open spec fn delta(x: Token) -> int {
    match x {
        Token::Indent => 1,
        Token::Unindent => -1,
        _ => 0,
    }
}

/// The depth after the tokens of `o`, from depth `d`.
pub open spec fn depth_after(o: Seq<Token>, d: int) -> int
    decreases o.len(),
{
    if o.len() == 0 {
        d
    } else {
        depth_after(o.drop_first(), d + delta(o[0]))
    }
}

/// Whether the depth, from `d`, is never negative before or after any token
/// of `o`.
pub open spec fn stays_nonneg(o: Seq<Token>, d: int) -> bool
    decreases o.len(),
{
    if o.len() == 0 {
        d >= 0
    } else {
        d >= 0 && stays_nonneg(o.drop_first(), d + delta(o[0]))
    }
}

/// The depth at each `Newline` of `o`, in order, from depth `d`.
pub open spec fn depths_at_newlines(o: Seq<Token>, d: int) -> Seq<int>
    decreases o.len(),
{
    if o.len() == 0 {
        seq![]
    } else {
        let d2 = d + delta(o[0]);
        (if o[0] == Token::Newline {
            seq![d2]
        } else {
            seq![]
        }) + depths_at_newlines(o.drop_first(), d2)
    }
}

/// The count of leading tabs of each line of `t` from position `i` on.
pub open spec fn line_tabs(t: Seq<Token>, i: int) -> Seq<int>
    decreases t.len() + 1 - i,
    via line_tabs_decreases
{
    if i < 0 || i >= t.len() {
        seq![]
    } else {
        let j = tab_run_end(t, i);
        seq![j - i] + line_tabs(t, line_end(t, j) + 1)
    }
}

#[via_fn]
proof fn line_tabs_decreases(t: Seq<Token>, i: int) {
    if 0 <= i < t.len() {
        lemma_tab_run_end_bounds(t, i);
        lemma_line_end_bounds(t, tab_run_end(t, i));
    }
}

/// Whether `t` holds no `Indent` or `Unindent`, as lexer output never does.
pub open spec fn no_markers(t: Seq<Token>) -> bool {
    forall|k: int| 0 <= k < t.len() ==> #[trigger] t[k] != Token::Indent && t[k] != Token::Unindent
}

proof fn lemma_depth_concat(a: Seq<Token>, b: Seq<Token>, d: int)
    ensures
        depth_after(a + b, d) == depth_after(b, depth_after(a, d)),
        stays_nonneg(a + b, d) == (stays_nonneg(a, d) && stays_nonneg(b, depth_after(a, d))),
        depths_at_newlines(a + b, d) == depths_at_newlines(a, d) + depths_at_newlines(
            b,
            depth_after(a, d),
        ),
    decreases a.len(),
{
    if a.len() == 0 {
        assert(a + b =~= b);
        assert(depths_at_newlines(a, d) + depths_at_newlines(b, d) =~= depths_at_newlines(b, d));
        if b.len() > 0 {
            assert(stays_nonneg(b, d) ==> d >= 0);
        }
    } else {
        assert((a + b).drop_first() =~= a.drop_first() + b);
        assert((a + b)[0] == a[0]);
        lemma_depth_concat(a.drop_first(), b, d + delta(a[0]));
        let head = if a[0] == Token::Newline {
            seq![d + delta(a[0])]
        } else {
            seq![]
        };
        let d2 = d + delta(a[0]);
        assert(head + (depths_at_newlines(a.drop_first(), d2) + depths_at_newlines(
            b,
            depth_after(a.drop_first(), d2),
        )) =~= (head + depths_at_newlines(a.drop_first(), d2)) + depths_at_newlines(
            b,
            depth_after(a.drop_first(), d2),
        ));
    }
}

proof fn lemma_single(x: Token, d: int)
    ensures
        depth_after(seq![x], d) == d + delta(x),
        stays_nonneg(seq![x], d) == (d >= 0 && d + delta(x) >= 0),
        depths_at_newlines(seq![x], d) == (if x == Token::Newline {
            seq![d + delta(x)]
        } else {
            seq![]
        }),
{
    assert(seq![x].drop_first() =~= Seq::<Token>::empty());
    let e = d + delta(x);
    assert(depth_after(Seq::<Token>::empty(), e) == e);
    assert(stays_nonneg(Seq::<Token>::empty(), e) == (e >= 0));
    assert(depths_at_newlines(Seq::<Token>::empty(), e) == Seq::<int>::empty());
    assert(depths_at_newlines(seq![x], d) =~= (if x == Token::Newline {
        seq![d + delta(x)]
    } else {
        seq![]
    }) + seq![]);
}

proof fn lemma_indents(n: nat, d: int)
    ensures
        depth_after(repeat(Token::Indent, n), d) == d + n,
        stays_nonneg(repeat(Token::Indent, n), d) == (d >= 0),
        depths_at_newlines(repeat(Token::Indent, n), d) == Seq::<int>::empty(),
    decreases n,
{
    if n == 0 {
    } else {
        let prev = repeat(Token::Indent, (n - 1) as nat);
        assert(repeat(Token::Indent, n) =~= prev + seq![Token::Indent]);
        lemma_indents((n - 1) as nat, d);
        lemma_depth_concat(prev, seq![Token::Indent], d);
        lemma_single(Token::Indent, d + n - 1);
        assert(Seq::<int>::empty() + Seq::<int>::empty() =~= Seq::<int>::empty());
    }
}

proof fn lemma_unindents(n: nat, d: int)
    ensures
        depth_after(repeat(Token::Unindent, n), d) == d - n,
        stays_nonneg(repeat(Token::Unindent, n), d) == (d - n >= 0),
        depths_at_newlines(repeat(Token::Unindent, n), d) == Seq::<int>::empty(),
    decreases n,
{
    if n == 0 {
    } else {
        let prev = repeat(Token::Unindent, (n - 1) as nat);
        assert(repeat(Token::Unindent, n) =~= prev + seq![Token::Unindent]);
        lemma_unindents((n - 1) as nat, d);
        lemma_depth_concat(prev, seq![Token::Unindent], d);
        lemma_single(Token::Unindent, d - n + 1);
        assert(Seq::<int>::empty() + Seq::<int>::empty() =~= Seq::<int>::empty());
    }
}

proof fn lemma_markers(level: int, target: int)
    requires
        0 <= level,
        0 <= target,
    ensures
        depth_after(markers(level, target), level) == target,
        stays_nonneg(markers(level, target), level),
        depths_at_newlines(markers(level, target), level) == Seq::<int>::empty(),
{
    if level < target {
        lemma_indents((target - level) as nat, level);
    } else {
        lemma_unindents((level - target) as nat, level);
    }
}

/// A line body, which holds no `Newline` and no markers, keeps the depth.
proof fn lemma_plain(b: Seq<Token>, d: int)
    requires
        forall|k: int|
            0 <= k < b.len() ==> #[trigger] b[k] != Token::Newline && b[k] != Token::Indent
                && b[k] != Token::Unindent,
    ensures
        depth_after(b, d) == d,
        stays_nonneg(b, d) == (d >= 0),
        depths_at_newlines(b, d) == Seq::<int>::empty(),
    decreases b.len(),
{
    if b.len() > 0 {
        assert(forall|k: int| 0 <= k < b.drop_first().len() ==> b.drop_first()[k] == b[k + 1]);
        lemma_plain(b.drop_first(), d);
        assert(Seq::<int>::empty() + Seq::<int>::empty() =~= Seq::<int>::empty());
    }
}

/// The members of a line body hold no `Newline`.
proof fn lemma_line_members(t: Seq<Token>, k: int)
    requires
        0 <= k <= t.len(),
    ensures
        forall|m: int| k <= m < line_end(t, k) ==> #[trigger] t[m] != Token::Newline,
        line_end(t, k) < t.len() ==> t[line_end(t, k)] == Token::Newline,
    decreases t.len() - k,
{
    if k < t.len() && t[k] != Token::Newline {
        lemma_line_members(t, k + 1);
    }
}

proof fn lemma_balance_from(t: Seq<Token>, i: int, level: int)
    requires
        no_markers(t),
        0 <= i,
        0 <= level,
        normalize_from(t, i, level) is Ok,
    ensures
        stays_nonneg(normalize_from(t, i, level)->Ok_0, level),
        depths_at_newlines(normalize_from(t, i, level)->Ok_0, level) == line_tabs(t, i),
    decreases t.len() - i,
{
    if i >= t.len() {
    } else {
        let j = tab_run_end(t, i);
        let k = line_end(t, j);
        lemma_tab_run_end_bounds(t, i);
        lemma_line_end_bounds(t, j);
        lemma_line_members(t, j);
        lemma_balance_from(t, k + 1, j - i);
        let rest = normalize_from(t, k + 1, j - i)->Ok_0;
        let m = markers(level, j - i);
        let body = t.subrange(j, k);
        lemma_markers(level, j - i);
        lemma_plain(body, j - i);
        lemma_single(Token::Newline, j - i);
        lemma_depth_concat(m, body, level);
        lemma_depth_concat(m + body, seq![Token::Newline], level);
        lemma_depth_concat(m + body + seq![Token::Newline], rest, level);
        assert(Seq::<int>::empty() + Seq::<int>::empty() + seq![j - i] + line_tabs(t, k + 1)
            =~= seq![j - i] + line_tabs(t, k + 1));
    }
}

/// Indentation balance: over a normalized sequence, the running sum of
/// `Indent` (+1) and `Unindent` (-1) never goes negative, and at the
/// `Newline` that ends each line it equals that line's count of leading tabs.
pub proof fn indentation_balance(t: Seq<Token>)
    requires
        no_markers(t),
        normalized(t) is Ok,
    ensures
        stays_nonneg(normalized(t)->Ok_0, 0),
        depths_at_newlines(normalized(t)->Ok_0, 0) == line_tabs(t, 0),
{
    lemma_balance_from(t, 0, 0);
}

/// The characters of a run hold its class, and the one that ends it does not.
proof fn lemma_run_members(s: Seq<char>, k: int, r: Run)
    requires
        0 <= k <= s.len(),
    ensures
        forall|m: int| k <= m < run_end(s, k, r) ==> in_run(r, #[trigger] s[m]),
        run_end(s, k, r) < s.len() ==> !in_run(r, s[run_end(s, k, r)]),
    decreases s.len() - k,
{
    if k < s.len() && in_run(r, s[k]) {
        lemma_run_members(s, k + 1, r);
    }
}

/// The tabs of a leading run are tabs.
proof fn lemma_tab_members(t: Seq<Token>, k: int)
    requires
        0 <= k <= t.len(),
    ensures
        forall|m: int| k <= m < tab_run_end(t, k) ==> #[trigger] t[m] == Token::Tab,
    decreases t.len() - k,
{
    if k < t.len() && t[k] == Token::Tab {
        lemma_tab_members(t, k + 1);
    }
}

/// The lexer never emits `Indent` or `Unindent`.
pub proof fn lexed_tokens_hold_no_markers(s: Seq<char>, i: int)
    requires
        lex_from(s, i) is Ok,
    ensures
        no_markers(lex_from(s, i)->Ok_0.tokens),
    decreases s.len() - i,
{
    if 0 <= i < s.len() {
        lemma_step_advances(s, i);
        if let Step::Emit(t, j) = step(s, i) {
            lexed_tokens_hold_no_markers(s, j);
            let rest = lex_from(s, j)->Ok_0.tokens;
            assert(forall|k: int| 0 < k < 1 + rest.len() ==> (seq![t] + rest)[k] == rest[k - 1]);
        }
    }
}

/// The characters that begin a lexeme.
pub open spec fn recognized(c: char) -> bool {
    starts_name(c) || decimal_digit(c) || c == ':' || c == '/' || c == '\t' || c == ' ' || c
        == '\n' || c == '\''
}

proof fn lemma_no_unknown(s: Seq<char>, i: int)
    requires
        forall|k: int| 0 <= k < s.len() ==> recognized(#[trigger] s[k]),
    ensures
        !(lex_from(s, i) is Err && lex_from(s, i)->Err_0 is UnknownCharacter),
    decreases s.len() - i,
{
    if 0 <= i < s.len() {
        lemma_step_advances(s, i);
        if let Step::Emit(_, j) = step(s, i) {
            lemma_no_unknown(s, j);
        }
    }
}

/// Lexing text that ends in a newline, with no string literal left open,
/// yields lexemes that end in `Newline`.
proof fn lemma_lexed_ends_in_newline(s: Seq<char>, i: int)
    requires
        0 <= i < s.len(),
        s.last() == '\n',
        lex_from(s, i) is Ok,
        lex_from(s, i)->Ok_0.unclosed is None,
    ensures
        lex_from(s, i)->Ok_0.tokens.len() > 0,
        lex_from(s, i)->Ok_0.tokens.last() == Token::Newline,
    decreases s.len() - i,
{
    lemma_step_advances(s, i);
    let n = s.len() - 1;
    if let Step::Emit(t, j) = step(s, i) {
        let rest = lex_from(s, j)->Ok_0.tokens;
        if j < s.len() {
            lemma_lexed_ends_in_newline(s, j);
        } else {
            assert(rest.len() == 0);
            let c = s[i];
            lemma_run_members(s, i + 1, Run::NameChars);
            lemma_run_members(s, i + 1, Run::Digits);
            lemma_run_members(s, i + 1, Run::NotQuote);
            if starts_name(c) {
                assert(i < n ==> in_run(Run::NameChars, s[n]));
            } else if decimal_digit(c) {
                assert(i < n ==> in_run(Run::Digits, s[n]));
            }
            assert(t == Token::Newline);
        }
        assert((seq![t] + rest).last() == (if rest.len() == 0 { t } else { rest.last() }));
    }
}

/// Lexemes that are empty or end in `Newline` normalize without error.
proof fn lemma_normalizes(t: Seq<Token>, i: int, level: int)
    requires
        0 <= i,
        t.len() == 0 || t.last() == Token::Newline,
    ensures
        normalize_from(t, i, level) is Ok,
    decreases t.len() - i,
{
    if i < t.len() {
        let j = tab_run_end(t, i);
        lemma_tab_run_end_bounds(t, i);
        lemma_tab_members(t, i);
        let k = line_end(t, j);
        lemma_line_end_bounds(t, j);
        lemma_line_members(t, j);
        assert(j < t.len());
        assert(k < t.len());
        lemma_normalizes(t, k + 1, j - i);
    }
}

/// Text made only of characters that begin a lexeme, and empty or ending in
/// a newline, never stops the lexer on an unknown character; where it lexes
/// without an integer overflow and without a string literal left open, its
/// lexemes normalize without error.
pub proof fn well_formed_text_runs_through(s: Seq<char>)
    requires
        forall|k: int| 0 <= k < s.len() ==> recognized(#[trigger] s[k]),
        s.len() == 0 || s.last() == '\n',
    ensures
        !(lex(s) is Err && lex(s)->Err_0 is UnknownCharacter),
        lex(s) is Ok && lex(s)->Ok_0.unclosed is None ==> normalized(lex(s)->Ok_0.tokens) is Ok,
{
    lemma_no_unknown(s, 0);
    if lex(s) is Ok && lex(s)->Ok_0.unclosed is None {
        if s.len() > 0 {
            lemma_lexed_ends_in_newline(s, 0);
        }
        lemma_normalizes(lex(s)->Ok_0.tokens, 0, 0);
    }
}

/// How many times `c` occurs in `x`.
pub open spec fn char_count(x: Seq<char>, c: char) -> nat
    decreases x.len(),
{
    if x.len() == 0 {
        0
    } else {
        (if x[0] == c {
            1nat
        } else {
            0nat
        }) + char_count(x.drop_first(), c)
    }
}

/// How many `Newline` tokens `o` holds.
pub open spec fn newline_count(o: Seq<Token>) -> nat
    decreases o.len(),
{
    if o.len() == 0 {
        0
    } else {
        (if o[0] == Token::Newline {
            1nat
        } else {
            0nat
        }) + newline_count(o.drop_first())
    }
}

pub open spec fn free_of_newline(x: Seq<char>) -> bool {
    forall|k: int| 0 <= k < x.len() ==> #[trigger] x[k] != '\n'
}

/// Whether no string literal that lexing met holds a newline character.
pub open spec fn strings_free_of_newline(l: Lexed) -> bool {
    &&& forall|k: int|
        0 <= k < l.tokens.len() && #[trigger] l.tokens[k] is String ==> free_of_newline(
            l.tokens[k]->String_0,
        )
    &&& l.unclosed is Some ==> free_of_newline(l.unclosed->Some_0)
}

proof fn lemma_char_count_concat(a: Seq<char>, b: Seq<char>, c: char)
    ensures
        char_count(a + b, c) == char_count(a, c) + char_count(b, c),
    decreases a.len(),
{
    if a.len() == 0 {
        assert(a + b =~= b);
    } else {
        assert((a + b).drop_first() =~= a.drop_first() + b);
        lemma_char_count_concat(a.drop_first(), b, c);
    }
}

proof fn lemma_char_count_absent(a: Seq<char>, c: char)
    requires
        forall|k: int| 0 <= k < a.len() ==> #[trigger] a[k] != c,
    ensures
        char_count(a, c) == 0,
    decreases a.len(),
{
    if a.len() > 0 {
        assert(forall|k: int| 0 <= k < a.drop_first().len() ==> a.drop_first()[k] == a[k + 1]);
        lemma_char_count_absent(a.drop_first(), c);
    }
}

proof fn lemma_newline_count_concat(a: Seq<Token>, b: Seq<Token>)
    ensures
        newline_count(a + b) == newline_count(a) + newline_count(b),
    decreases a.len(),
{
    if a.len() == 0 {
        assert(a + b =~= b);
    } else {
        assert((a + b).drop_first() =~= a.drop_first() + b);
        lemma_newline_count_concat(a.drop_first(), b);
    }
}

proof fn lemma_newline_count_absent(a: Seq<Token>)
    requires
        forall|k: int| 0 <= k < a.len() ==> #[trigger] a[k] != Token::Newline,
    ensures
        newline_count(a) == 0,
    decreases a.len(),
{
    if a.len() > 0 {
        assert(forall|k: int| 0 <= k < a.drop_first().len() ==> a.drop_first()[k] == a[k + 1]);
        lemma_newline_count_absent(a.drop_first());
    }
}

proof fn lemma_repeat_members(tok: Token, n: nat)
    ensures
        forall|k: int| 0 <= k < repeat(tok, n).len() ==> #[trigger] repeat(tok, n)[k] == tok,
        repeat(tok, n).len() == n,
    decreases n,
{
    if n > 0 {
        lemma_repeat_members(tok, (n - 1) as nat);
    }
}

/// Normalizing keeps the number of `Newline` tokens.
proof fn lemma_normalize_keeps_newlines(t: Seq<Token>, i: int, level: int)
    requires
        0 <= i <= t.len(),
        normalize_from(t, i, level) is Ok,
    ensures
        newline_count(normalize_from(t, i, level)->Ok_0) == newline_count(
            t.subrange(i, t.len() as int),
        ),
    decreases t.len() - i,
{
    if i == t.len() {
        assert(t.subrange(i, t.len() as int) =~= Seq::<Token>::empty());
    } else {
        let j = tab_run_end(t, i);
        let k = line_end(t, j);
        lemma_tab_run_end_bounds(t, i);
        lemma_tab_members(t, i);
        lemma_line_end_bounds(t, j);
        lemma_line_members(t, j);
        lemma_normalize_keeps_newlines(t, k + 1, j - i);
        let rest = normalize_from(t, k + 1, j - i)->Ok_0;
        let m = markers(level, j - i);
        let body = t.subrange(j, k);
        lemma_repeat_members(Token::Indent, (j - i - level) as nat);
        lemma_repeat_members(Token::Unindent, (level - (j - i)) as nat);
        lemma_newline_count_absent(m);
        lemma_newline_count_absent(body);
        lemma_newline_count_absent(t.subrange(i, j));
        lemma_newline_count_concat(m, body);
        lemma_newline_count_concat(m + body, seq![Token::Newline]);
        lemma_newline_count_concat(m + body + seq![Token::Newline], rest);
        assert(seq![Token::Newline].drop_first() =~= Seq::<Token>::empty());
        assert(newline_count(Seq::<Token>::empty()) == 0);
        assert(newline_count(seq![Token::Newline]) == 1);
        let tail = t.subrange(k + 1, t.len() as int);
        assert(t.subrange(i, t.len() as int) =~= t.subrange(i, j) + body + seq![Token::Newline]
            + tail);
        lemma_newline_count_concat(t.subrange(i, j), body);
        lemma_newline_count_concat(t.subrange(i, j) + body, seq![Token::Newline]);
        lemma_newline_count_concat(t.subrange(i, j) + body + seq![Token::Newline], tail);
    }
}

/// Lexing turns each newline character outside string literals into one
/// `Newline` token.
proof fn lemma_lex_keeps_newlines(s: Seq<char>, i: int)
    requires
        0 <= i <= s.len(),
        lex_from(s, i) is Ok,
        strings_free_of_newline(lex_from(s, i)->Ok_0),
    ensures
        newline_count(lex_from(s, i)->Ok_0.tokens) == char_count(
            s.subrange(i, s.len() as int),
            '\n',
        ),
    decreases s.len() - i,
{
    let n = s.len() as int;
    assert(newline_count(Seq::<Token>::empty()) == 0);
    assert(char_count(Seq::<char>::empty(), '\n') == 0);
    if i == n {
        assert(s.subrange(i, n) =~= Seq::<char>::empty());
    } else {
        lemma_step_advances(s, i);
        lemma_run_members(s, i + 1, Run::NameChars);
        lemma_run_members(s, i + 1, Run::Digits);
        lemma_run_members(s, i + 1, Run::NotQuote);
        match step(s, i) {
            Step::Emit(t, j) => {
                let rest = lex_from(s, j)->Ok_0;
                let all = lex_from(s, i)->Ok_0;
                assert(all.tokens =~= seq![t] + rest.tokens);
                assert forall|k: int|
                    0 <= k < rest.tokens.len() && #[trigger] rest.tokens[k] is String implies free_of_newline(
                    rest.tokens[k]->String_0,
                ) by {
                    assert(all.tokens[k + 1] == rest.tokens[k]);
                }
                lemma_lex_keeps_newlines(s, j);
                assert(s.subrange(i, n) =~= s.subrange(i, j) + s.subrange(j, n));
                lemma_char_count_concat(s.subrange(i, j), s.subrange(j, n), '\n');
                lemma_newline_count_concat(seq![t], rest.tokens);
                assert(seq![t].drop_first() =~= Seq::<Token>::empty());
                let chunk = s.subrange(i, j);
                if t == Token::Newline {
                    assert(chunk =~= seq!['\n']);
                    assert(chunk.drop_first() =~= Seq::<char>::empty());
                } else {
                    if t is String {
                        assert(all.tokens[0] == t);
                        let q = run_end(s, i + 1, Run::NotQuote);
                        lemma_run_end_bounds(s, i + 1, Run::NotQuote);
                        assert(chunk =~= seq![s[i]] + s.subrange(i + 1, q) + seq![s[q]]);
                    }
                    assert forall|k: int| 0 <= k < chunk.len() implies #[trigger] chunk[k]
                        != '\n' by {
                        assert(chunk[k] == s[i + k]);
                        if t is String {
                            let q = run_end(s, i + 1, Run::NotQuote);
                            if 0 < k < chunk.len() - 1 {
                                assert(s.subrange(i + 1, q)[k - 1] == s[i + k]);
                            }
                        }
                    }
                    lemma_char_count_absent(chunk, '\n');
                }
            },
            Step::Unclosed(text) => {
                assert(s.subrange(i, n) =~= seq![s[i]] + text);
                assert forall|k: int| 0 <= k < s.subrange(i, n).len() implies #[trigger] s.subrange(
                    i,
                    n,
                )[k] != '\n' by {
                    if k > 0 {
                        assert(text[k - 1] == s.subrange(i, n)[k]);
                    }
                }
                lemma_char_count_absent(s.subrange(i, n), '\n');
            },
            _ => {},
        }
    }
}

/// Where text lexes and normalizes, and none of its string literals holds a
/// newline, the normalized lexemes hold one `Newline` for each newline
/// character of the text, that is one for each of its lines.
pub proof fn newlines_match_lines(s: Seq<char>)
    requires
        lex(s) is Ok,
        strings_free_of_newline(lex(s)->Ok_0),
        normalized(lex(s)->Ok_0.tokens) is Ok,
    ensures
        newline_count(normalized(lex(s)->Ok_0.tokens)->Ok_0) == char_count(s, '\n'),
{
    lemma_lex_keeps_newlines(s, 0);
    lemma_normalize_keeps_newlines(lex(s)->Ok_0.tokens, 0, 0);
    assert(s.subrange(0, s.len() as int) =~= s);
    let t = lex(s)->Ok_0.tokens;
    assert(t.subrange(0, t.len() as int) =~= t);
}

} // verus!

use vstd::prelude::*;

verus! {

/// One unit of the token stream. `Indent` and `Unindent` are only ever
/// produced by the normalizer, never by the lexer.
#[derive(Debug, Clone)]
pub enum Lexeme {
    Name(Vec<char>),
    Tab,
    Space,
    Newline,
    Colon,
    Slash,
    Int(i32),
    String(Vec<char>),
    Indent,
    Unindent,
}

/// The mathematical value of a lexeme: the same variants, with text as a
/// sequence of characters.
pub enum Token {
    Name(Seq<char>),
    Tab,
    Space,
    Newline,
    Colon,
    Slash,
    Int(i32),
    String(Seq<char>),
    Indent,
    Unindent,
}

impl View for Lexeme {
    type V = Token;

    open spec fn view(&self) -> Token {
        match self {
            Lexeme::Name(t) => Token::Name(t@),
            Lexeme::Tab => Token::Tab,
            Lexeme::Space => Token::Space,
            Lexeme::Newline => Token::Newline,
            Lexeme::Colon => Token::Colon,
            Lexeme::Slash => Token::Slash,
            Lexeme::Int(v) => Token::Int(*v),
            Lexeme::String(t) => Token::String(t@),
            Lexeme::Indent => Token::Indent,
            Lexeme::Unindent => Token::Unindent,
        }
    }
}

/// The tokens of a sequence of lexemes, in order.
pub open spec fn tokens_of(s: Seq<Lexeme>) -> Seq<Token> {
    s.map_values(|l: Lexeme| l@)
}

/// Whether two character vectors hold the same characters.
fn same_chars(a: &Vec<char>, b: &Vec<char>) -> (r: bool)
    ensures
        r == (a@ == b@),
{
    if a.len() != b.len() {
        return false;
    }
    let mut k: usize = 0;
    while k < a.len()
        invariant
            a.len() == b.len(),
            k <= a.len(),
            a@.subrange(0, k as int) == b@.subrange(0, k as int),
        decreases a.len() - k,
    {
        if a[k] != b[k] {
            assert(a@[k as int] != b@[k as int]);
            return false;
        }
        assert(a@.subrange(0, k + 1) =~= a@.subrange(0, k as int).push(a@[k as int]));
        assert(b@.subrange(0, k + 1) =~= b@.subrange(0, k as int).push(b@[k as int]));
        k = k + 1;
    }
    assert(a@ =~= a@.subrange(0, k as int));
    assert(b@ =~= b@.subrange(0, k as int));
    true
}

/// A character vector with the same characters.
fn copy_chars(a: &Vec<char>) -> (r: Vec<char>)
    ensures
        r@ == a@,
{
    let mut r: Vec<char> = Vec::with_capacity(a.len());
    let mut k: usize = 0;
    while k < a.len()
        invariant
            k <= a.len(),
            r@ == a@.subrange(0, k as int),
        decreases a.len() - k,
    {
        r.push(a[k]);
        assert(a@.subrange(0, k + 1) =~= a@.subrange(0, k as int).push(a@[k as int]));
        k = k + 1;
    }
    assert(a@ =~= a@.subrange(0, k as int));
    r
}

impl Lexeme {
    /// A lexeme with the same value, text copied.
    pub fn duplicate(&self) -> (r: Lexeme)
        ensures
            r@ == self@,
    {
        match self {
            Lexeme::Name(t) => Lexeme::Name(copy_chars(t)),
            Lexeme::Tab => Lexeme::Tab,
            Lexeme::Space => Lexeme::Space,
            Lexeme::Newline => Lexeme::Newline,
            Lexeme::Colon => Lexeme::Colon,
            Lexeme::Slash => Lexeme::Slash,
            Lexeme::Int(v) => Lexeme::Int(*v),
            Lexeme::String(t) => Lexeme::String(copy_chars(t)),
            Lexeme::Indent => Lexeme::Indent,
            Lexeme::Unindent => Lexeme::Unindent,
        }
    }
}

impl PartialEq for Lexeme {
    fn eq(&self, o: &Lexeme) -> (r: bool) {
        match (self, o) {
            (Lexeme::Name(a), Lexeme::Name(b)) => same_chars(a, b),
            (Lexeme::Tab, Lexeme::Tab) => true,
            (Lexeme::Space, Lexeme::Space) => true,
            (Lexeme::Newline, Lexeme::Newline) => true,
            (Lexeme::Colon, Lexeme::Colon) => true,
            (Lexeme::Slash, Lexeme::Slash) => true,
            (Lexeme::Int(a), Lexeme::Int(b)) => *a == *b,
            (Lexeme::String(a), Lexeme::String(b)) => same_chars(a, b),
            (Lexeme::Indent, Lexeme::Indent) => true,
            (Lexeme::Unindent, Lexeme::Unindent) => true,
            _ => false,
        }
    }
}

impl vstd::std_specs::cmp::PartialEqSpecImpl for Lexeme {
    open spec fn obeys_eq_spec() -> bool {
        true
    }

    open spec fn eq_spec(&self, o: &Lexeme) -> bool {
        self@ == o@
    }
}

} // verus!

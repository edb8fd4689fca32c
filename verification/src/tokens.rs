use vstd::prelude::*;
use vstd::string::StringExecFns;

verus! {

/// One piece of a rendered public item, classified by its syntactic role.
#[derive(Debug, Eq, Hash)]
pub enum Token {
    Symbol(String),
    Qualifier(String),
    Kind(String),
    Whitespace,
    Identifier(String),
    Annotation(String),
    Self_(String),
    Function(String),
    Lifetime(String),
    Keyword(String),
    Generic(String),
    Primitive(String),
    Type(String),
}

/// The text a token stands for; whitespace is a single space.
pub open spec fn token_text(t: Token) -> Seq<char> {
    match t {
        Token::Whitespace => seq![' '],
        Token::Symbol(s) => s@,
        Token::Qualifier(s) => s@,
        Token::Kind(s) => s@,
        Token::Identifier(s) => s@,
        Token::Annotation(s) => s@,
        Token::Self_(s) => s@,
        Token::Function(s) => s@,
        Token::Lifetime(s) => s@,
        Token::Keyword(s) => s@,
        Token::Generic(s) => s@,
        Token::Primitive(s) => s@,
        Token::Type(s) => s@,
    }
}

/// The concatenated text of a token stream.
pub open spec fn tokens_text(ts: Seq<Token>) -> Seq<char>
    decreases ts.len(),
{
    if ts.len() == 0 {
        Seq::empty()
    } else {
        tokens_text(ts.drop_last()) + token_text(ts.last())
    }
}

/// Whether two tokens are equal: of the same kind, with the same text.
pub open spec fn same_token(a: Token, b: Token) -> bool {
    match (a, b) {
        (Token::Symbol(x), Token::Symbol(y)) => x@ == y@,
        (Token::Qualifier(x), Token::Qualifier(y)) => x@ == y@,
        (Token::Kind(x), Token::Kind(y)) => x@ == y@,
        (Token::Whitespace, Token::Whitespace) => true,
        (Token::Identifier(x), Token::Identifier(y)) => x@ == y@,
        (Token::Annotation(x), Token::Annotation(y)) => x@ == y@,
        (Token::Self_(x), Token::Self_(y)) => x@ == y@,
        (Token::Function(x), Token::Function(y)) => x@ == y@,
        (Token::Lifetime(x), Token::Lifetime(y)) => x@ == y@,
        (Token::Keyword(x), Token::Keyword(y)) => x@ == y@,
        (Token::Generic(x), Token::Generic(y)) => x@ == y@,
        (Token::Primitive(x), Token::Primitive(y)) => x@ == y@,
        (Token::Type(x), Token::Type(y)) => x@ == y@,
        _ => false,
    }
}

/// The text of a token is the text it carries; whitespace, which carries
/// none, is a single space.
pub proof fn lemma_token_text_is_its_string(t: Token)
    ensures
        match t {
            Token::Whitespace => token_text(t) == seq![' '],
            Token::Symbol(s) | Token::Qualifier(s) | Token::Kind(s) | Token::Identifier(s) | Token::Annotation(s)
            | Token::Self_(s) | Token::Function(s) | Token::Lifetime(s) | Token::Keyword(s) | Token::Generic(s)
            | Token::Primitive(s) | Token::Type(s) => token_text(t) == s@,
        },
{
}

/// The text of a token stream is the texts of its tokens one after the
/// other: a stream joined from two is the two texts joined.
pub proof fn lemma_tokens_text_join(a: Seq<Token>, b: Seq<Token>)
    ensures
        tokens_text(a + b) == tokens_text(a) + tokens_text(b),
    decreases b.len(),
{
    if b.len() == 0 {
        assert(a + b =~= a);
        assert(tokens_text(a) + tokens_text(b) =~= tokens_text(a));
    } else {
        lemma_tokens_text_join(a, b.drop_last());
        assert((a + b).drop_last() =~= a + b.drop_last());
        assert((a + b).last() == b.last());
        assert(tokens_text(a) + tokens_text(b) =~= tokens_text(a) + tokens_text(b.drop_last()) + token_text(
            b.last(),
        ));
    }
}

/// Equal tokens have the same text.
pub proof fn lemma_same_token_same_text(a: Token, b: Token)
    requires
        same_token(a, b),
    ensures
        token_text(a) == token_text(b),
{
}

fn same_text(a: &String, b: &String) -> (res: bool)
    ensures
        res == (a@ == b@),
{
    a.eq(b)
}

impl PartialEq for Token {
    fn eq(&self, other: &Token) -> (res: bool) {
        match (self, other) {
            (Token::Symbol(x), Token::Symbol(y)) => same_text(x, y),
            (Token::Qualifier(x), Token::Qualifier(y)) => same_text(x, y),
            (Token::Kind(x), Token::Kind(y)) => same_text(x, y),
            (Token::Whitespace, Token::Whitespace) => true,
            (Token::Identifier(x), Token::Identifier(y)) => same_text(x, y),
            (Token::Annotation(x), Token::Annotation(y)) => same_text(x, y),
            (Token::Self_(x), Token::Self_(y)) => same_text(x, y),
            (Token::Function(x), Token::Function(y)) => same_text(x, y),
            (Token::Lifetime(x), Token::Lifetime(y)) => same_text(x, y),
            (Token::Keyword(x), Token::Keyword(y)) => same_text(x, y),
            (Token::Generic(x), Token::Generic(y)) => same_text(x, y),
            (Token::Primitive(x), Token::Primitive(y)) => same_text(x, y),
            (Token::Type(x), Token::Type(y)) => same_text(x, y),
            _ => false,
        }
    }
}

impl vstd::std_specs::cmp::PartialEqSpecImpl for Token {
    open spec fn obeys_eq_spec() -> bool {
        true
    }

    open spec fn eq_spec(&self, other: &Token) -> bool {
        same_token(*self, *other)
    }
}

impl Clone for Token {
    fn clone(&self) -> (res: Self)
        ensures
            res == *self,
    {
        match self {
            Token::Symbol(s) => Token::Symbol(s.clone()),
            Token::Qualifier(s) => Token::Qualifier(s.clone()),
            Token::Kind(s) => Token::Kind(s.clone()),
            Token::Whitespace => Token::Whitespace,
            Token::Identifier(s) => Token::Identifier(s.clone()),
            Token::Annotation(s) => Token::Annotation(s.clone()),
            Token::Self_(s) => Token::Self_(s.clone()),
            Token::Function(s) => Token::Function(s.clone()),
            Token::Lifetime(s) => Token::Lifetime(s.clone()),
            Token::Keyword(s) => Token::Keyword(s.clone()),
            Token::Generic(s) => Token::Generic(s.clone()),
            Token::Primitive(s) => Token::Primitive(s.clone()),
            Token::Type(s) => Token::Type(s.clone()),
        }
    }
}

impl Token {
    /// The text of the token.
    pub fn text(&self) -> (res: &str)
        ensures
            res@ == token_text(*self),
    {
        match self {
            Token::Whitespace => {
                proof {
                    reveal_strlit(" ");
                }
                " "
            },
            Token::Symbol(s) => s.as_str(),
            Token::Qualifier(s) => s.as_str(),
            Token::Kind(s) => s.as_str(),
            Token::Identifier(s) => s.as_str(),
            Token::Annotation(s) => s.as_str(),
            Token::Self_(s) => s.as_str(),
            Token::Function(s) => s.as_str(),
            Token::Lifetime(s) => s.as_str(),
            Token::Keyword(s) => s.as_str(),
            Token::Generic(s) => s.as_str(),
            Token::Primitive(s) => s.as_str(),
            Token::Type(s) => s.as_str(),
        }
    }
}

/// Concatenates the text of every token.
pub fn tokens_to_string(tokens: &[Token]) -> (res: String)
    ensures
        res@ == tokens_text(tokens@),
{
    let mut res = String::new();
    let mut i: usize = 0;
    while i < tokens.len()
        invariant
            i <= tokens.len(),
            res@ == tokens_text(tokens@.subrange(0, i as int)),
        decreases tokens.len() - i,
    {
        res.append(tokens[i].text());
        proof {
            assert(tokens@.subrange(0, i + 1).drop_last() == tokens@.subrange(0, i as int));
        }
        i = i + 1;
    }
    assert(tokens@.subrange(0, tokens.len() as int) == tokens@);
    res
}

} // verus!

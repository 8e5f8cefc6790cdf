use vstd::prelude::*;

verus! {

/// A symbol of the chain, as the specifications see it.
pub enum Sym {
    Start,
    Word(Seq<char>),
    End,
}

/// A token of the chain: the start marker, a word, or the end marker.
#[derive(Clone, Debug, Hash)]
pub enum Token {
    Bos,
    Word(String),
    Eos,
}

impl View for Token {
    type V = Sym;

    open spec fn view(&self) -> Sym {
        match self {
            Token::Bos => Sym::Start,
            Token::Word(w) => Sym::Word(w@),
            Token::Eos => Sym::End,
        }
    }
}

impl Token {
    /// A copy of this token.
    pub fn duplicate(&self) -> (r: Token)
        ensures
            r@ == self@,
    {
        match self {
            Token::Bos => Token::Bos,
            Token::Word(w) => Token::Word(w.clone()),
            Token::Eos => Token::Eos,
        }
    }

    /// Whether two tokens are the same symbol.
    pub fn same(&self, o: &Token) -> (r: bool)
        ensures
            r == (self@ == o@),
    {
        match self {
            Token::Bos => matches!(o, Token::Bos),
            Token::Eos => matches!(o, Token::Eos),
            Token::Word(a) => match o {
                Token::Word(b) => a.eq(b),
                _ => false,
            },
        }
    }
}

impl PartialEq for Token {
    fn eq(&self, o: &Token) -> (r: bool) {
        self.same(o)
    }
}

impl vstd::std_specs::cmp::PartialEqSpecImpl for Token {
    open spec fn obeys_eq_spec() -> bool {
        true
    }

    open spec fn eq_spec(&self, o: &Token) -> bool {
        self@ == o@
    }
}

impl Eq for Token {}

} // verus!

//! The flat syntax tree: tokens, expressions, and their storage.

use vstd::prelude::*;

use crate::text::{chars_vec, string_of};

verus! {

/// Mathematical value of a parsed token.
pub ghost enum TokenView {
    /// A quoted string atom, quotes stripped.
    Literal(Seq<char>),
    /// A numeric atom.
    Number(int),
    /// A bare, unquoted, non-numeric atom.
    Variable(Seq<char>),
    /// A forward link to the expression at the given `(depth, index)`
    /// coordinate.
    ExpressionRef(int, int),
    /// A tag reserved for an already substituted final value.
    Resolved,
}

/// A logical token: a variable, a literal, a number, or a reference to
/// another expression of the same tree.
#[derive(Debug, PartialEq)]
pub enum Token {
    /// A string literal, stored without its quotes.
    Literal(String),
    /// A numeric literal.
    Number(i64),
    /// An unquoted, non-numeric atom; bound at evaluation time to a
    /// builtin, or left unresolved.
    Variable(String),
    /// A reference to the expression at `(depth, index)`; only valid
    /// within the tree that produced it.
    Expression((usize, usize)),
    /// A tag reserved for an already substituted final value.
    Resolved,
}

impl View for Token {
    type V = TokenView;

    open spec fn view(&self) -> TokenView {
        match self {
            Token::Literal(s) => TokenView::Literal(s@),
            Token::Number(n) => TokenView::Number(*n as int),
            Token::Variable(s) => TokenView::Variable(s@),
            Token::Expression(c) => TokenView::ExpressionRef(c.0 as int, c.1 as int),
            Token::Resolved => TokenView::Resolved,
        }
    }
}

/// Whether a flushed atom is bounded by double quotes.
pub open spec fn is_quoted(s: Seq<char>) -> bool {
    s.len() >= 1 && s[0] == '"' && s[s.len() - 1] == '"'
}

/// A quoted atom's content: the text with every double quote removed.
pub open spec fn strip_quotes(s: Seq<char>) -> Seq<char> {
    s.filter(|c: char| c != '"')
}

/// Classification of a flushed atom: an atom bounded by double quotes is
/// a literal with the quotes stripped, an atom that reads as a decimal
/// integer is a number, and anything else is a variable.
pub open spec fn token_of(s: Seq<char>) -> TokenView {
    if is_quoted(s) {
        TokenView::Literal(strip_quotes(s))
    } else if crate::text::is_number_literal(s) {
        TokenView::Number(crate::text::number_value(s))
    } else {
        TokenView::Variable(s)
    }
}

impl Token {
    /// Classifies an atom's text: a quoted string becomes a literal, a
    /// decimal integer becomes a number, and anything else becomes a
    /// variable.
    pub fn from(parsed: String) -> (t: Token)
        ensures
            t@ == token_of(parsed@),
    {
        let cs = chars_vec(parsed.as_str());
        if cs.len() >= 1 && cs[0] == '"' && cs[cs.len() - 1] == '"' {
            let mut kept: Vec<char> = Vec::new();
            let mut i: usize = 0;
            while i < cs.len()
                invariant
                    i <= cs@.len(),
                    kept@ == cs@.take(i as int).filter(|c: char| c != '"'),
                decreases cs@.len() - i,
            {
                proof {
                    reveal(Seq::filter);
                    assert(cs@.take(i + 1).drop_last() =~= cs@.take(i as int));
                    assert(cs@.take(i + 1).last() == cs@[i as int]);
                }
                if cs[i] != '"' {
                    kept.push(cs[i]);
                }
                i = i + 1;
            }
            proof {
                assert(cs@.take(cs@.len() as int) =~= cs@);
            }
            Token::Literal(string_of(&kept))
        } else {
            match crate::text::parse_number(&cs) {
                Some(v) => Token::Number(v),
                None => Token::Variable(parsed),
            }
        }
    }

    /// Makes an identical copy of this token.
    pub fn duplicate(&self) -> (r: Token)
        ensures
            r == *self,
    {
        match self {
            Token::Literal(s) => Token::Literal(s.clone()),
            Token::Number(n) => Token::Number(*n),
            Token::Variable(s) => Token::Variable(s.clone()),
            Token::Expression(c) => Token::Expression((c.0, c.1)),
            Token::Resolved => Token::Resolved,
        }
    }
}

/// Mathematical value of one parenthesized expression.
#[verifier::ext_equal]
pub ghost struct ExprView {
    /// The leading operator atom, absent until the scanner has read past
    /// the first atom boundary.
    pub keyword: Option<TokenView>,
    /// Nesting level, `0` at the outermost form.
    pub depth: int,
    /// Positional arguments in left-to-right scan order.
    pub args: Seq<TokenView>,
    /// Source position of the opening parenthesis, once seen.
    pub open: Option<int>,
    /// Source position of the closing parenthesis, once seen.
    pub close: Option<int>,
    /// Ordinal position of this expression among the expressions of its
    /// depth, `0`-based.
    pub index: int,
}

/// Spec-level image of an optional machine integer.
pub open spec fn opt_view(o: Option<usize>) -> Option<int> {
    match o {
        Some(n) => Some(n as int),
        None => None,
    }
}

/// A group of tokens: a keyword, its arguments, the positions of its two
/// delimiters, and its `(depth, index)` coordinate.
#[derive(Debug, PartialEq)]
pub struct TokenExpression {
    /// Keyword for this expression.
    pub keyword: Option<Token>,
    /// Nesting level.
    pub depth: usize,
    /// Function arguments.
    pub args: Vec<Token>,
    /// Locations of both of this expression's delimiters.
    pub delimiters: (Option<usize>, Option<usize>),
    /// Ordinal among the expressions that share this expression's depth.
    pub index: usize,
}

impl View for TokenExpression {
    type V = ExprView;

    open spec fn view(&self) -> ExprView {
        ExprView {
            keyword: match self.keyword {
                Some(t) => Some(t@),
                None => None,
            },
            depth: self.depth as int,
            args: self.args@.map(|i: int, t: Token| t@),
            open: opt_view(self.delimiters.0),
            close: opt_view(self.delimiters.1),
            index: self.index as int,
        }
    }
}

/// The view of a freshly created expression: everything empty, placed at
/// the root coordinate.
pub open spec fn empty_expr_view() -> ExprView {
    ExprView {
        keyword: None,
        depth: 0,
        args: Seq::empty(),
        open: None,
        close: None,
        index: 0,
    }
}

impl TokenExpression {
    /// Creates a new, empty expression at the root coordinate.
    pub fn new() -> (r: Self)
        ensures
            r@ == empty_expr_view(),
    {
        let r = TokenExpression {
            keyword: None,
            depth: 0,
            args: Vec::new(),
            delimiters: (None, None),
            index: 0,
        };
        proof {
            assert(r@.args =~= Seq::<TokenView>::empty());
        }
        r
    }

    /// Reduces this expression to a token result by dispatching its
    /// keyword to the builtin table.
    pub fn reduce(&self) -> (r: Result<Token, crate::logic::EvalError>)
        ensures
            r is Ok <==> crate::logic::exec_view(self@) is Ok,
            r matches Ok(t) ==> (crate::logic::exec_view(self@) matches Ok(v) && t@ == v),
            r matches Err(e) ==> (crate::logic::exec_view(self@) matches Err(v) && e == v),
    {
        crate::logic::BuiltinFuncs::exec(self)
    }

    /// Checks whether this expression has been opened but not yet closed:
    /// the opening delimiter is present and the closing one is absent.
    pub fn is_unclosed(&self) -> (r: bool)
        ensures
            r == (self@.open is Some && self@.close is None),
    {
        self.delimiters.0.is_some() && self.delimiters.1.is_none()
    }

    /// Records the position of this expression's opening parenthesis.
    pub fn insert_opening(&mut self, index: usize)
        ensures
            final(self)@ == (ExprView { open: Some(index as int), ..old(self)@ }),
    {
        self.delimiters.0 = Some(index);
    }

    /// Returns the position of this expression's opening parenthesis.
    pub fn get_opening(&self) -> (r: Option<usize>)
        ensures
            opt_view(r) == self@.open,
    {
        self.delimiters.0
    }

    /// Records the position of this expression's closing parenthesis.
    pub fn insert_closing(&mut self, index: usize)
        ensures
            final(self)@ == (ExprView { close: Some(index as int), ..old(self)@ }),
    {
        self.delimiters.1 = Some(index);
    }

    /// Returns the position of this expression's closing parenthesis.
    pub fn get_closing(&self) -> (r: Option<usize>)
        ensures
            opt_view(r) == self@.close,
    {
        self.delimiters.1
    }
}

/// The error of a tree lookup whose flat index lies beyond the stored
/// expressions.
#[derive(Debug, PartialEq, Eq, Structural, Clone, Copy)]
pub struct OutOfRange;

/// Flat, append-only storage of every expression created during a parse.
///
/// Logical nesting is not represented by pointers: it is reconstructed at
/// access time by translating a `(depth, index)` coordinate to a flat
/// offset.  To keep that translation sound the expressions are stored
/// grouped by depth, each group ordered by index; a new expression always
/// enters at the end of its depth group.
#[derive(Debug, PartialEq)]
pub struct Tree {
    /// Holds an array of expressions.
    pub(crate) expressions: Vec<TokenExpression>,
}

impl View for Tree {
    type V = Seq<ExprView>;

    open(crate) spec fn view(&self) -> Seq<ExprView> {
        self.expressions@.map(|i: int, e: TokenExpression| e@)
    }
}

impl Tree {
    /// Creates a new, empty syntax tree.
    pub fn new() -> (r: Self)
        ensures
            r@ == Seq::<ExprView>::empty(),
    {
        let r = Tree { expressions: Vec::new() };
        proof {
            assert(r@ =~= Seq::<ExprView>::empty());
        }
        r
    }

    /// The number of expressions stored so far.
    pub fn len(&self) -> (r: usize)
        ensures
            r == self@.len(),
    {
        self.expressions.len()
    }

    /// Appends an expression at the end of the flat storage.
    pub fn push(&mut self, expr: TokenExpression)
        ensures
            final(self)@ == old(self)@.push(expr@),
    {
        self.expressions.push(expr);
        proof {
            assert(final(self)@ =~= old(self)@.push(expr@));
        }
    }

    /// Places an expression at the given flat position, shifting the
    /// expressions behind it one slot back.
    pub(crate) fn insert(&mut self, at: usize, expr: TokenExpression)
        requires
            at <= old(self)@.len(),
        ensures
            final(self)@ == old(self)@.insert(at as int, expr@),
    {
        self.expressions.insert(at, expr);
        proof {
            assert(final(self)@ =~= old(self)@.insert(at as int, expr@));
        }
    }

    /// Bounds-checked access to the expression at a flat index.
    pub fn peek(&self, index: usize) -> (r: Result<&TokenExpression, OutOfRange>)
        ensures
            index < self@.len() ==> (r matches Ok(e) && e@ == self@[index as int]),
            index >= self@.len() ==> r is Err,
    {
        if index < self.expressions.len() {
            Ok(&self.expressions[index])
        } else {
            Err(OutOfRange)
        }
    }

    /// Mutable access to the expression at a flat index; the index must be
    /// in bounds, which the parser guarantees by construction.
    pub fn peek_mut(&mut self, index: usize) -> (r: &mut TokenExpression)
        requires
            index < old(self)@.len(),
        ensures
            r@ == old(self)@[index as int],
            final(self)@ == old(self)@.update(index as int, final(r)@),
    {
        &mut self.expressions[index]
    }
}

/// Special symbols of the syntax.
#[derive(Debug, PartialEq, Eq, Structural, Clone, Copy)]
#[allow(non_camel_case_types)]
pub enum Symbols {
    /// An opening parenthesis.
    LPAREN,
    /// A closing parenthesis.
    RPAREN,
}

impl Symbols {
    /// Classifies a character as one of the known symbols.
    pub fn try_from(value: char) -> (r: Result<Symbols, &'static str>)
        ensures
            value == '(' ==> (r matches Ok(s) && s == Symbols::LPAREN),
            value == ')' ==> (r matches Ok(s) && s == Symbols::RPAREN),
            value != '(' && value != ')' ==> r is Err,
    {
        match value {
            '(' => Ok(Symbols::LPAREN),
            ')' => Ok(Symbols::RPAREN),
            _ => Err("Could not convert char to a known symbol"),
        }
    }
}

} // verus!

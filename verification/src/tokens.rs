//! Tokens: the smallest units that the tokenizer hands to the parser.
use vstd::prelude::*;
use crate::position::Position;
use crate::text::string_of;

verus! {

/// The kind of a token.
#[derive(Debug, Copy, Clone, PartialEq, Eq, Structural)]
pub enum TokenType {
    /// `+` or `-` before its role is known.
    AmbiguousOperator,
    BinaryFunctionIdentifier,
    BinaryOperator,
    Bitseq,
    /// A parenthesized span that holds its inner text.
    Expression,
    Integer,
    Decimal,
    UnaryFunctionIdentifier,
    UnaryOperator,
    VariableIdentifier,
}

impl TokenType {
    /// A bit sequence, an integer or a decimal.
    pub open spec fn spec_is_numeral(&self) -> bool {
        *self is Bitseq || *self is Integer || *self is Decimal
    }

    /// A numeral or a variable identifier.
    pub open spec fn spec_is_terminal(&self) -> bool {
        self.spec_is_numeral() || *self is VariableIdentifier
    }

    /// An operator, whatever its arity.
    pub open spec fn spec_is_operator(&self) -> bool {
        *self is AmbiguousOperator || *self is UnaryOperator || *self is BinaryOperator
    }

    /// A unary operator or a unary function.
    pub open spec fn spec_is_unary(&self) -> bool {
        *self is UnaryOperator || *self is UnaryFunctionIdentifier
    }

    /// A binary operator or a binary function.
    pub open spec fn spec_is_binary(&self) -> bool {
        *self is BinaryOperator || *self is BinaryFunctionIdentifier
    }

    /// The name of a builtin function.
    pub open spec fn spec_is_function_identifier(&self) -> bool {
        *self is UnaryFunctionIdentifier || *self is BinaryFunctionIdentifier
    }

    /// The name of a variable.
    pub open spec fn spec_is_variable_identifier(&self) -> bool {
        *self is VariableIdentifier
    }

    #[verifier::when_used_as_spec(spec_is_numeral)]
    pub fn is_numeral(&self) -> (b: bool)
        ensures
            b == self.spec_is_numeral(),
    {
        matches!(self, TokenType::Bitseq | TokenType::Integer | TokenType::Decimal)
    }

    #[verifier::when_used_as_spec(spec_is_terminal)]
    pub fn is_terminal(&self) -> (b: bool)
        ensures
            b == self.spec_is_terminal(),
    {
        self.is_numeral() || matches!(self, TokenType::VariableIdentifier)
    }

    #[verifier::when_used_as_spec(spec_is_operator)]
    pub fn is_operator(&self) -> (b: bool)
        ensures
            b == self.spec_is_operator(),
    {
        matches!(
            self,
            TokenType::AmbiguousOperator | TokenType::UnaryOperator | TokenType::BinaryOperator
        )
    }

    #[verifier::when_used_as_spec(spec_is_unary)]
    pub fn is_unary(&self) -> (b: bool)
        ensures
            b == self.spec_is_unary(),
    {
        matches!(self, TokenType::UnaryOperator | TokenType::UnaryFunctionIdentifier)
    }

    #[verifier::when_used_as_spec(spec_is_binary)]
    pub fn is_binary(&self) -> (b: bool)
        ensures
            b == self.spec_is_binary(),
    {
        matches!(self, TokenType::BinaryOperator | TokenType::BinaryFunctionIdentifier)
    }

    #[verifier::when_used_as_spec(spec_is_function_identifier)]
    pub fn is_function_identifier(&self) -> (b: bool)
        ensures
            b == self.spec_is_function_identifier(),
    {
        matches!(self, TokenType::UnaryFunctionIdentifier | TokenType::BinaryFunctionIdentifier)
    }

    #[verifier::when_used_as_spec(spec_is_variable_identifier)]
    pub fn is_variable_identifier(&self) -> (b: bool)
        ensures
            b == self.spec_is_variable_identifier(),
    {
        matches!(self, TokenType::VariableIdentifier)
    }

    /// The name of the kind.
    pub open spec fn name(&self) -> Seq<char> {
        match self {
            TokenType::AmbiguousOperator => "AmbiguousOperator"@,
            TokenType::BinaryFunctionIdentifier => "BinaryFunctionIdentifier"@,
            TokenType::BinaryOperator => "BinaryOperator"@,
            TokenType::Bitseq => "Bitseq"@,
            TokenType::Expression => "Expression"@,
            TokenType::Integer => "Integer"@,
            TokenType::Decimal => "Decimal"@,
            TokenType::UnaryFunctionIdentifier => "UnaryFunctionIdentifier"@,
            TokenType::UnaryOperator => "UnaryOperator"@,
            TokenType::VariableIdentifier => "VariableIdentifier"@,
        }
    }

    /// The name of the kind, as text.
    pub fn as_str(&self) -> (s: &'static str)
        ensures
            s@ == self.name(),
    {
        match self {
            TokenType::AmbiguousOperator => "AmbiguousOperator",
            TokenType::BinaryFunctionIdentifier => "BinaryFunctionIdentifier",
            TokenType::BinaryOperator => "BinaryOperator",
            TokenType::Bitseq => "Bitseq",
            TokenType::Expression => "Expression",
            TokenType::Integer => "Integer",
            TokenType::Decimal => "Decimal",
            TokenType::UnaryFunctionIdentifier => "UnaryFunctionIdentifier",
            TokenType::UnaryOperator => "UnaryOperator",
            TokenType::VariableIdentifier => "VariableIdentifier",
        }
    }
}

/// A token: its kind, its text, where it stands, and whether the parser made
/// it up.
#[derive(Debug)]
pub struct Token {
    pub type_: TokenType,
    pub content: Vec<char>,
    pub position: Position,
    /// True for a token that stands for no input text.
    pub implicit: bool,
}

/// A token as plain data.
pub ghost struct TokenView {
    pub type_: TokenType,
    pub content: Seq<char>,
    pub position: Position,
    pub implicit: bool,
}

impl View for Token {
    type V = TokenView;

    open spec fn view(&self) -> TokenView {
        TokenView {
            type_: self.type_,
            content: self.content@,
            position: self.position,
            implicit: self.implicit,
        }
    }
}

impl Token {
    /// A token read from the input.
    pub fn new(type_: TokenType, content: Vec<char>, position: Position) -> (t: Token)
        ensures
            t@ == (TokenView { type_, content: content@, position, implicit: false }),
    {
        Token { type_, content, position, implicit: false }
    }

    /// A token that the parser supplies where the input leaves one out.
    pub fn new_implicit(type_: TokenType, content: Vec<char>, position: Position) -> (t: Token)
        ensures
            t@ == (TokenView { type_, content: content@, position, implicit: true }),
    {
        Token { type_, content, position, implicit: true }
    }

    /// The text of the token.
    pub fn content_to_string(&self) -> (s: String)
        ensures
            s@ == self.content@,
    {
        string_of(&self.content)
    }
}

} // verus!

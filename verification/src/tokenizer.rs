//! From characters to a flat sequence of tokens.
use vstd::prelude::*;
use crate::ast::NodeView;
use crate::errors::{framed, SyntaxErrorView};
use crate::patterns::{
    identifier_char, is_ambiguous_operator, is_binary_function, is_binary_operator,
    is_identifier_char, is_ignorable_whitespace, is_numeral_initial, is_numeral_internal,
    is_operator_char, is_unary_function, is_unary_operator, numeral_internal, operator_char,
};
use crate::position::Position;
use crate::tokens::{TokenType, TokenView};

verus! {

/// A class of characters that a token may be made of after its first one.
#[derive(Debug, Copy, Clone, PartialEq, Eq, Structural)]
pub enum CharClass {
    Numeral,
    Identifier,
    Operator,
}

impl CharClass {
    /// Whether `c` belongs to the class.
    pub open spec fn holds(self, c: char) -> bool {
        match self {
            CharClass::Numeral => is_numeral_internal(c),
            CharClass::Identifier => is_identifier_char(c),
            CharClass::Operator => is_operator_char(c),
        }
    }

    pub fn contains(&self, c: char) -> (b: bool)
        ensures
            b == self.holds(c),
    {
        match self {
            CharClass::Numeral => numeral_internal(c),
            CharClass::Identifier => identifier_char(c),
            CharClass::Operator => operator_char(c),
        }
    }
}

/// The number of characters of `input` from `start` on that belong to `class`,
/// up to the first that does not.
pub open spec fn run_length(input: Seq<char>, start: int, class: CharClass) -> nat
    decreases input.len() - start,
{
    if 0 <= start < input.len() && class.holds(input[start]) {
        1 + run_length(input, start + 1, class)
    } else {
        0
    }
}

/// The number of characters of `input` from `start` on that stand before the
/// closing parenthesis that brings `depth` open parentheses back to none, or
/// `None` where the input ends first.
pub open spec fn span_length(input: Seq<char>, start: int, depth: nat) -> Option<nat>
    decreases input.len() - start,
{
    if !(0 <= start < input.len()) {
        None
    } else if input[start] == ')' && depth <= 1 {
        Some(0)
    } else {
        let inner = if input[start] == '(' {
            depth + 1
        } else if input[start] == ')' {
            (depth - 1) as nat
        } else {
            depth
        };
        match span_length(input, start + 1, inner) {
            Some(n) => Some(n + 1),
            None => None,
        }
    }
}

/// The kind of a numeral token: a decimal where it holds a fractional
/// separator, else a bit sequence where it starts with `0b`, else an integer.
pub open spec fn numeral_kind(content: Seq<char>) -> TokenType {
    if content.contains('.') || content.contains(',') {
        TokenType::Decimal
    } else if content.len() >= 2 && content[0] == '0' && content[1] == 'b' {
        TokenType::Bitseq
    } else {
        TokenType::Integer
    }
}

/// The kind of an identifier token: a builtin function of one or of two
/// arguments, else a variable.
pub open spec fn identifier_kind(content: Seq<char>) -> TokenType {
    if is_unary_function(content) {
        TokenType::UnaryFunctionIdentifier
    } else if is_binary_function(content) {
        TokenType::BinaryFunctionIdentifier
    } else {
        TokenType::VariableIdentifier
    }
}

/// The kind of an operator token, or `None` for a spelling that is no
/// operator.
pub open spec fn operator_kind(content: Seq<char>) -> Option<TokenType> {
    if is_ambiguous_operator(content) {
        Some(TokenType::AmbiguousOperator)
    } else if is_unary_operator(content) {
        Some(TokenType::UnaryOperator)
    } else if is_binary_operator(content) {
        Some(TokenType::BinaryOperator)
    } else {
        None
    }
}

/// An opening parenthesis at `position` is never closed.
pub open spec fn unmatched_parenthesis(position: Position) -> SyntaxErrorView {
    SyntaxErrorView {
        msg: "Could not match open parenthesis with closing parenthesis"@,
        position,
    }
}

/// A closing parenthesis at `position` closes nothing.
pub open spec fn unexpected_closing(position: Position) -> SyntaxErrorView {
    SyntaxErrorView { msg: "Unexpected closing parenthesis"@, position }
}

/// The operator characters `content` at `position` spell no operator.
pub open spec fn unknown_operator(content: Seq<char>, position: Position) -> SyntaxErrorView {
    SyntaxErrorView { msg: framed("Unknown operator '"@, content, "'"@), position }
}

/// The character `c` at `position` belongs to no token.
pub open spec fn unknown_character(c: char, position: Position) -> SyntaxErrorView {
    SyntaxErrorView { msg: framed("Unknown character '"@, seq![c], "'"@), position }
}

/// What scanning gives: the tokens found, in order, and the error that
/// stopped the scan, if one did.
pub ghost struct Scan {
    pub tokens: Seq<TokenView>,
    pub error: Option<SyntaxErrorView>,
}

/// A token read from the input.
pub open spec fn read_token(type_: TokenType, content: Seq<char>, position: Position)
    -> TokenView {
    TokenView { type_, content, position, implicit: false }
}

/// How many characters of `input` stand at index `i` or after it.
pub open spec fn remaining(input: Seq<char>, i: int) -> nat {
    if i <= input.len() {
        (input.len() - i) as nat
    } else {
        0
    }
}

/// Scans `input` from index `i` on, after the tokens `found`. The input
/// stands on line `line` and its first character in column `chr`.
///
/// Blanks are skipped. An opening parenthesis starts an expression token that
/// holds the text up to the matching closing parenthesis. A numeral, an
/// identifier or an operator runs as far as characters of its class go.
pub open spec fn scan(input: Seq<char>, i: int, line: usize, chr: usize, found: Seq<TokenView>)
    -> Scan
    decreases remaining(input, i),
{
    if !(0 <= i < input.len()) {
        Scan { tokens: found, error: None }
    } else {
        let c = input[i];
        let position = Position { line, chr: (chr + i) as usize };
        if is_ignorable_whitespace(c) {
            scan(input, i + 1, line, chr, found)
        } else if c == '(' {
            match span_length(input, i + 1, 1) {
                Some(n) => scan(
                    input,
                    i + n + 2,
                    line,
                    chr,
                    found.push(
                        read_token(TokenType::Expression, input.subrange(i + 1, i + 1 + n), position),
                    ),
                ),
                None => Scan { tokens: found, error: Some(unmatched_parenthesis(position)) },
            }
        } else if is_numeral_initial(c) {
            let n = 1 + run_length(input, i + 1, CharClass::Numeral);
            let content = input.subrange(i, i + n);
            scan(input, i + n, line, chr, found.push(read_token(numeral_kind(content), content, position)))
        } else if is_identifier_char(c) {
            let n = 1 + run_length(input, i + 1, CharClass::Identifier);
            let content = input.subrange(i, i + n);
            scan(
                input,
                i + n,
                line,
                chr,
                found.push(read_token(identifier_kind(content), content, position)),
            )
        } else if is_operator_char(c) {
            let n = 1 + run_length(input, i + 1, CharClass::Operator);
            let content = input.subrange(i, i + n);
            match operator_kind(content) {
                Some(kind) => scan(
                    input,
                    i + n,
                    line,
                    chr,
                    found.push(read_token(kind, content, position)),
                ),
                None => Scan { tokens: found, error: Some(unknown_operator(content, position)) },
            }
        } else if c == ')' {
            Scan { tokens: found, error: Some(unexpected_closing(position)) }
        } else {
            Scan { tokens: found, error: Some(unknown_character(c, position)) }
        }
    }
}

/// The node that a token makes on its own.
pub open spec fn leaf(token: TokenView) -> NodeView {
    NodeView { token, children: None, value: None }
}

/// The nodes that tokens make on their own.
pub open spec fn leaves(tokens: Seq<TokenView>) -> Seq<NodeView> {
    tokens.map_values(|t: TokenView| leaf(t))
}

/// A run stays inside the input.
pub proof fn lemma_run_length_bound(input: Seq<char>, start: int, class: CharClass)
    requires
        0 <= start <= input.len(),
    ensures
        start + run_length(input, start, class) <= input.len(),
    decreases input.len() - start,
{
    if start < input.len() && class.holds(input[start]) {
        lemma_run_length_bound(input, start + 1, class);
    }
}

/// A matched span ends before the input does.
pub proof fn lemma_span_length_bound(input: Seq<char>, start: int, depth: nat)
    requires
        0 <= start <= input.len(),
    ensures
        span_length(input, start, depth) matches Some(n) ==> start + n < input.len(),
    decreases input.len() - start,
{
    if start < input.len() && !(input[start] == ')' && depth <= 1) {
        let inner = if input[start] == '(' {
            depth + 1
        } else if input[start] == ')' {
            (depth - 1) as nat
        } else {
            depth
        };
        lemma_span_length_bound(input, start + 1, inner);
    }
}

/// A parenthesized expression read from a text of `len` characters that
/// starts in column `chr` holds fewer characters than the text, and ends
/// inside it.
pub open spec fn expression_inside(t: TokenView, chr: usize, len: nat) -> bool {
    t.type_ is Expression ==> t.content.len() + 2 <= len && chr <= t.position.chr
        && t.position.chr + 2 + t.content.len() <= chr + len
}

/// Every parenthesized expression among `tokens` lies inside the text.
pub open spec fn expressions_inside(tokens: Seq<TokenView>, chr: usize, len: nat) -> bool {
    forall|k: int| 0 <= k < tokens.len() ==> expression_inside(#[trigger] tokens[k], chr, len)
}

/// The parenthesized expressions that a scan finds lie inside the text, and
/// the scan keeps the tokens that it started with.
pub proof fn lemma_scan_expressions(
    input: Seq<char>,
    i: int,
    line: usize,
    chr: usize,
    found: Seq<TokenView>,
)
    requires
        0 <= i,
        chr + input.len() <= usize::MAX,
        expressions_inside(found, chr, input.len()),
    ensures
        expressions_inside(scan(input, i, line, chr, found).tokens, chr, input.len()),
    decreases remaining(input, i),
{
    if i < input.len() {
        let c = input[i];
        let position = Position { line, chr: (chr + i) as usize };
        if is_ignorable_whitespace(c) {
            lemma_scan_expressions(input, i + 1, line, chr, found);
        } else if c == '(' {
            lemma_span_length_bound(input, i + 1, 1);
            match span_length(input, i + 1, 1) {
                Some(n) => {
                    let t = read_token(
                        TokenType::Expression,
                        input.subrange(i + 1, i + 1 + n),
                        position,
                    );
                    assert(expression_inside(t, chr, input.len()));
                    lemma_scan_expressions(input, i + n + 2, line, chr, found.push(t));
                },
                None => {},
            }
        } else if is_numeral_initial(c) {
            let n = 1 + run_length(input, i + 1, CharClass::Numeral);
            let content = input.subrange(i, i + n);
            lemma_scan_expressions(
                input,
                i + n,
                line,
                chr,
                found.push(read_token(numeral_kind(content), content, position)),
            );
        } else if is_identifier_char(c) {
            let n = 1 + run_length(input, i + 1, CharClass::Identifier);
            let content = input.subrange(i, i + n);
            lemma_scan_expressions(
                input,
                i + n,
                line,
                chr,
                found.push(read_token(identifier_kind(content), content, position)),
            );
        } else if is_operator_char(c) {
            let n = 1 + run_length(input, i + 1, CharClass::Operator);
            let content = input.subrange(i, i + n);
            match operator_kind(content) {
                Some(kind) => {
                    lemma_scan_expressions(
                        input,
                        i + n,
                        line,
                        chr,
                        found.push(read_token(kind, content, position)),
                    );
                },
                None => {},
            }
        }
    }
}

/// Appends to `buf` the characters of `input` from `start` on that belong to
/// `class`, up to the first that does not.
pub(crate) fn copy_while(input: &Vec<char>, class: CharClass, start: usize, buf: &mut Vec<char>)
    requires
        start <= input.len(),
    ensures
        final(buf)@ == old(buf)@ + input@.subrange(
            start as int,
            start + run_length(input@, start as int, class),
        ),
        start + run_length(input@, start as int, class) <= input.len(),
{
    let mut j: usize = start;
    proof {
        lemma_run_length_bound(input@, start as int, class);
        assert(buf@ =~= old(buf)@ + input@.subrange(start as int, j as int));
    }
    while j < input.len() && class.contains(input[j])
        invariant
            start <= j <= input.len(),
            buf@ == old(buf)@ + input@.subrange(start as int, j as int),
            j + run_length(input@, j as int, class) == start + run_length(
                input@,
                start as int,
                class,
            ),
        decreases input.len() - j,
    {
        buf.push(input[j]);
        j += 1;
        assert(buf@ =~= old(buf)@ + input@.subrange(start as int, j as int));
    }
}

/// Appends to `buf` the characters of `input` from `start` on, up to the
/// closing parenthesis that matches an opening one just before `start`.
/// Returns whether there is one.
pub(crate) fn copy_matchedspan(input: &Vec<char>, start: usize, buf: &mut Vec<char>) -> (found: bool)
    requires
        1 <= start <= input.len(),
    ensures
        found == span_length(input@, start as int, 1) is Some,
        span_length(input@, start as int, 1) matches Some(n) ==> start + n < input.len()
            && final(buf)@ == old(buf)@ + input@.subrange(start as int, start + n),
{
    let mut parens: usize = 1;
    let mut j: usize = start;
    proof {
        lemma_span_length_bound(input@, start as int, 1);
        assert(buf@ =~= old(buf)@ + input@.subrange(start as int, j as int));
    }
    while j < input.len()
        invariant
            1 <= start <= j <= input.len(),
            1 <= parens <= 1 + (j - start),
            buf@ == old(buf)@ + input@.subrange(start as int, j as int),
            span_length(input@, start as int, 1) == match span_length(
                input@,
                j as int,
                parens as nat,
            ) {
                Some(n) => Some((n + (j - start)) as nat),
                None => None,
            },
        decreases input.len() - j,
    {
        let c = input[j];
        if c == '(' {
            parens += 1;
        } else if c == ')' {
            if parens == 1 {
                return true;
            }
            parens -= 1;
        }
        buf.push(c);
        j += 1;
        assert(buf@ =~= old(buf)@ + input@.subrange(start as int, j as int));
    }
    false
}

} // verus!

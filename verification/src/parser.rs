//! The parser: text to tokens, tokens to a tree.
use vstd::prelude::*;
use crate::ast::{levels_ok, Ast, AstNode, NodeView};
use crate::errors::{SyntaxError, SyntaxErrorView};
use crate::patterns::{
    ambiguous_operator, binary_function, binary_operator, identifier_char,
    ignorable_whitespace, numeral_initial, operator_char, unary_function, unary_operator,
};
use crate::position::Position;
use crate::text::chars_of;
use crate::ast::arity_ok;
use crate::evaluator::evaluable;
use crate::folding::{
    in_order, law_folding_gives_operands, law_folding_keeps_order, tops_folded, unfolded,
};
use crate::structure::{
    descended, first_unfolded, first_unfolded_in, folded, lemma_folded_evaluable,
    lemma_incorporated_arity, lemma_parsed_arity, lemma_unfolded_none, missing_operands, parsed,
    parsed_tree,
};
use crate::tokenizer::{
    copy_matchedspan, copy_while, expression_inside, expressions_inside, identifier_kind, leaf,
    leaves, lemma_scan_expressions, numeral_kind, operator_kind, scan, CharClass,
};
use crate::structure::{
    after_factorials, after_incorporation, after_prefixes, after_tier, after_tiers, fits_below,
    fold_factorials, fold_prefixes, fold_tier, fold_tiers, incorporated, nested_too_deeply,
    Outcome,
};
use crate::patterns::{tier_contains, TIER_COUNT};
use crate::structure::{
    adopt, disambiguated, ends_value, has_left_value, has_right_value, implicit_product,
    is_factorial, is_prefix, previous_result, retyped, role, starts_value,
    with_previous_result, with_products,
};
use crate::tokens::{Token, TokenType, TokenView};

verus! {

/// Turns text into syntax trees.
pub struct Parser {
    pub ast: Ast,
}

/// Whether `c` occurs in `chars`.
fn has_char(chars: &Vec<char>, c: char) -> (b: bool)
    ensures
        b == chars@.contains(c),
{
    let mut i: usize = 0;
    while i < chars.len()
        invariant
            i <= chars.len(),
            forall|j: int| 0 <= j < i ==> chars@[j] != c,
        decreases chars.len() - i,
    {
        if chars[i] == c {
            return true;
        }
        i += 1;
    }
    false
}

fn classify_numeral(content: &Vec<char>) -> (kind: TokenType)
    ensures
        kind == numeral_kind(content@),
{
    if has_char(content, '.') || has_char(content, ',') {
        TokenType::Decimal
    } else if content.len() >= 2 && content[0] == '0' && content[1] == 'b' {
        TokenType::Bitseq
    } else {
        TokenType::Integer
    }
}

fn classify_identifier(content: &Vec<char>) -> (kind: TokenType)
    ensures
        kind == identifier_kind(content@),
{
    if unary_function(content) {
        TokenType::UnaryFunctionIdentifier
    } else if binary_function(content) {
        TokenType::BinaryFunctionIdentifier
    } else {
        TokenType::VariableIdentifier
    }
}

fn classify_operator(content: &Vec<char>) -> (kind: Option<TokenType>)
    ensures
        kind == operator_kind(content@),
{
    if ambiguous_operator(content) {
        Some(TokenType::AmbiguousOperator)
    } else if unary_operator(content) {
        Some(TokenType::UnaryOperator)
    } else if binary_operator(content) {
        Some(TokenType::BinaryOperator)
    } else {
        None
    }
}

fn token_is_factorial(t: &Token) -> (b: bool)
    ensures
        b == is_factorial(t@),
{
    let b = t.type_ == TokenType::UnaryOperator && t.content.len() == 1 && t.content[0] == '!';
    proof {
        if b {
            assert(t.content@ =~= seq!['!']);
        }
    }
    b
}

fn token_is_prefix(t: &Token) -> (b: bool)
    ensures
        b == is_prefix(t@),
{
    (t.type_ == TokenType::UnaryOperator && !token_is_factorial(t)) || t.type_
        == TokenType::UnaryFunctionIdentifier
}

fn token_ends_value(t: &Token) -> (b: bool)
    ensures
        b == ends_value(t@),
{
    t.type_.is_terminal() || t.type_ == TokenType::Expression || token_is_factorial(t)
}

fn token_starts_value(t: &Token) -> (b: bool)
    ensures
        b == starts_value(t@),
{
    t.type_.is_terminal() || t.type_ == TokenType::Expression || token_is_prefix(t)
}

impl Parser {
    /// A parser that holds an empty tree.
    pub fn new() -> (p: Parser)
        ensures
            p.ast@ == Seq::<NodeView>::empty(),
            p.ast.level == 0,
    {
        Parser { ast: Ast::new() }
    }

    /// Empties the tree that the parser holds.
    pub fn reset(&mut self)
        ensures
            final(self).ast@ == Seq::<NodeView>::empty(),
            final(self).ast.level == 0,
    {
        self.ast = Ast::new();
    }

    /// Hands out the tree that the parser holds and leaves an empty one.
    pub fn take_ast(&mut self) -> (t: Ast)
        ensures
            t == old(self).ast,
            final(self).ast@ == Seq::<NodeView>::empty(),
            final(self).ast.level == 0,
    {
        let mut t = Ast::new();
        std::mem::swap(&mut self.ast, &mut t);
        t
    }

    /// Appends to `tree` the tokens of `input`, each as a node of its own.
    /// The input stands on line `line` and its first character in column
    /// `chr`. On an error the tokens before it have been appended.
    pub fn tokenize(input: &str, line: usize, chr: usize, tree: &mut Ast) -> (r: Result<
        (),
        SyntaxError,
    >)
        requires
            chr + input@.len() <= usize::MAX,
        ensures
            final(tree)@ == old(tree)@ + leaves(scan(input@, 0, line, chr, Seq::empty()).tokens),
            final(tree).level == old(tree).level,
            levels_ok(*old(tree)) ==> levels_ok(*final(tree)),
            match r {
                Ok(_) => scan(input@, 0, line, chr, Seq::empty()).error is None,
                Err(e) => scan(input@, 0, line, chr, Seq::empty()).error == Some(e@),
            },
    {
        let chars = chars_of(input);
        Parser::tokenize_chars(&chars, line, chr, tree)
    }

    /// As [`Parser::tokenize`], on characters.
    pub fn tokenize_chars(input: &Vec<char>, line: usize, chr: usize, tree: &mut Ast) -> (r:
        Result<(), SyntaxError>)
        requires
            chr + input@.len() <= usize::MAX,
        ensures
            final(tree)@ == old(tree)@ + leaves(scan(input@, 0, line, chr, Seq::empty()).tokens),
            final(tree).level == old(tree).level,
            levels_ok(*old(tree)) ==> levels_ok(*final(tree)),
            match r {
                Ok(_) => scan(input@, 0, line, chr, Seq::empty()).error is None,
                Err(e) => scan(input@, 0, line, chr, Seq::empty()).error == Some(e@),
            },
    {
        let ghost whole = scan(input@, 0, line, chr, Seq::empty());
        let ghost mut found: Seq<TokenView> = Seq::empty();
        let n = input.len();
        let mut i: usize = 0;
        assert(tree@ =~= old(tree)@ + leaves(found));
        while i < n
            invariant
                i <= n,
                n == input.len(),
                chr + n <= usize::MAX,
                whole == scan(input@, 0, line, chr, Seq::empty()),
                scan(input@, i as int, line, chr, found) == whole,
                tree@ == old(tree)@ + leaves(found),
                tree.level == old(tree).level,
                levels_ok(*old(tree)) ==> levels_ok(*tree),
            decreases n - i,
        {
            let c = input[i];
            let position = Position::new(line, chr + i);
            if ignorable_whitespace(c) {
                i += 1;
            } else if c == '(' {
                let mut buf: Vec<char> = Vec::new();
                if !copy_matchedspan(input, i + 1, &mut buf) {
                    return Err(
                        SyntaxError::new(
                            "Could not match open parenthesis with closing parenthesis",
                            position,
                        ),
                    );
                }
                let len = buf.len();
                let token = Token::new(TokenType::Expression, buf, position);
                proof {
                    assert(token@.content =~= input@.subrange(i + 1, i + 1 + len));
                    found = found.push(token@);
                    assert(old(tree)@ + leaves(found) =~= tree@.push(crate::tokenizer::leaf(token@)));
                }
                tree.push_token(token);
                i += len + 2;
            } else if numeral_initial(c) {
                let mut buf: Vec<char> = Vec::new();
                buf.push(c);
                copy_while(input, CharClass::Numeral, i + 1, &mut buf);
                let len = buf.len();
                let kind = classify_numeral(&buf);
                let token = Token::new(kind, buf, position);
                proof {
                    assert(token@.content =~= input@.subrange(i as int, i + len));
                    found = found.push(token@);
                    assert(old(tree)@ + leaves(found) =~= tree@.push(crate::tokenizer::leaf(token@)));
                }
                tree.push_token(token);
                i += len;
            } else if identifier_char(c) {
                let mut buf: Vec<char> = Vec::new();
                buf.push(c);
                copy_while(input, CharClass::Identifier, i + 1, &mut buf);
                let len = buf.len();
                let kind = classify_identifier(&buf);
                let token = Token::new(kind, buf, position);
                proof {
                    assert(token@.content =~= input@.subrange(i as int, i + len));
                    found = found.push(token@);
                    assert(old(tree)@ + leaves(found) =~= tree@.push(crate::tokenizer::leaf(token@)));
                }
                tree.push_token(token);
                i += len;
            } else if operator_char(c) {
                let mut buf: Vec<char> = Vec::new();
                buf.push(c);
                copy_while(input, CharClass::Operator, i + 1, &mut buf);
                let len = buf.len();
                assert(buf@ =~= input@.subrange(i as int, i + len));
                match classify_operator(&buf) {
                    Some(kind) => {
                        let token = Token::new(kind, buf, position);
                        proof {
                            found = found.push(token@);
                            assert(old(tree)@ + leaves(found) =~= tree@.push(
                                crate::tokenizer::leaf(token@),
                            ));
                        }
                        tree.push_token(token);
                        i += len;
                    },
                    None => {
                        return Err(SyntaxError::quoting("Unknown operator '", &buf, "'", position));
                    },
                }
            } else if c == ')' {
                return Err(SyntaxError::new("Unexpected closing parenthesis", position));
            } else {
                let mut buf: Vec<char> = Vec::new();
                buf.push(c);
                assert(buf@ =~= seq![c]);
                return Err(SyntaxError::quoting("Unknown character '", &buf, "'", position));
            }
        }
        Ok(())
    }
}

impl Parser {
    /// Gives every `+` and `-` of the sequence its role, unary or binary,
    /// by its neighbours.
    fn disambiguate_operators(tree: &mut Ast) -> (r: Result<(), SyntaxError>)
        ensures
            final(tree).level == old(tree).level,
            levels_ok(*old(tree)) ==> levels_ok(*final(tree)),
            match r {
                Ok(_) => disambiguated(old(tree)@, 0, old(tree).level) == Ok::<
                    Seq<NodeView>,
                    SyntaxErrorView,
                >(final(tree)@),
                Err(e) => disambiguated(old(tree)@, 0, old(tree).level) == Err::<
                    Seq<NodeView>,
                    SyntaxErrorView,
                >(e@),
            },
    {
        let level = tree.level;
        let n = tree.nodes.len();
        let mut i: usize = 0;
        while i < n
            invariant
                i <= n,
                n == tree.nodes.len(),
                n == tree@.len(),
                tree.level == level,
                level == old(tree).level,
                levels_ok(*old(tree)) ==> levels_ok(*tree),
                disambiguated(tree@, i as int, level) == disambiguated(old(tree)@, 0, level),
            decreases n - i,
        {
            if tree.nodes[i].token.type_ == TokenType::AmbiguousOperator {
                let ghost before = tree@;
                assert(before[i as int] == tree.nodes[i as int]@);
                let has_left = if i < 1 {
                    level == 0
                } else {
                    assert(before[i - 1] == tree.nodes[i - 1]@);
                    token_ends_value(&tree.nodes[i - 1].token)
                };
                let has_right = if i + 1 >= n {
                    false
                } else {
                    assert(before[i + 1] == tree.nodes[i + 1]@);
                    if token_is_factorial(&tree.nodes[i + 1].token) {
                        return Err(
                            SyntaxError::quoting(
                                "Ambiguous operator '",
                                &tree.nodes[i].token.content,
                                "' cannot precede unary operator '!'",
                                tree.nodes[i].token.position,
                            ),
                        );
                    }
                    token_starts_value(&tree.nodes[i + 1].token) || tree.nodes[i + 1].token.type_
                        == TokenType::AmbiguousOperator
                };
                assert(has_left == has_left_value(before, i as int, level));
                assert(has_right == has_right_value(before, i as int));
                if !has_right {
                    return Err(
                        SyntaxError::quoting(
                            "Could not disambiguate ambiguous operator '",
                            &tree.nodes[i].token.content,
                            "', consider using parentheses",
                            tree.nodes[i].token.position,
                        ),
                    );
                }
                let type_ = if has_left {
                    TokenType::BinaryOperator
                } else {
                    TokenType::UnaryOperator
                };
                let ghost old_tree = *tree;
                let node = &mut tree.nodes[i];
                node.token.type_ = type_;
                proof {
                    assert(tree@ =~= before.update(i as int, retyped(before[i as int], type_)));
                    if levels_ok(old_tree) {
                        assert forall|j: int| 0 <= j < tree.nodes.len() implies ((
                        #[trigger] tree.nodes[j]).subtree matches Some(s) ==> s.level
                            == tree.level + 1 && levels_ok(s)) by {
                            assert(tree.nodes[j].subtree == old_tree.nodes[j].subtree);
                        }
                    }
                }
            }
            i += 1;
        }
        Ok(())
    }

    /// Puts a multiplication between every two neighbours of which the first
    /// ends a value and the second starts one.
    fn expose_implicit_multiplications(tree: &mut Ast) -> (r: Result<(), SyntaxError>)
        ensures
            r is Ok,
            final(tree)@ == with_products(old(tree)@),
            final(tree).level == old(tree).level,
            levels_ok(*old(tree)) ==> levels_ok(*final(tree)),
    {
        let mut i: usize = 0;
        assert(tree@.take(0) + with_products(tree@.skip(0)) =~= with_products(old(tree)@)) by {
            assert(tree@.skip(0) =~= tree@);
        }
        while i < tree.nodes.len() && i + 1 < tree.nodes.len()
            invariant
                i <= tree.nodes.len(),
                tree.nodes.len() == tree@.len(),
                tree.level == old(tree).level,
                levels_ok(*old(tree)) ==> levels_ok(*tree),
                tree@.take(i as int) + with_products(tree@.skip(i as int)) == with_products(
                    old(tree)@,
                ),
            decreases tree.nodes.len() - i,
        {
            let ghost before = tree@;
            let ghost rest = before.skip(i as int);
            assert(rest[0] == tree.nodes[i as int]@);
            assert(rest[1] == tree.nodes[i + 1]@);
            assert(rest.drop_first() =~= before.skip(i + 1));
            if token_ends_value(&tree.nodes[i].token) && token_starts_value(
                &tree.nodes[i + 1].token,
            ) {
                let token = Token::new_implicit(
                    TokenType::BinaryOperator,
                    vec!['*'],
                    tree.nodes[i + 1].token.position,
                );
                let node = AstNode::new_from_token(token);
                assert(node@ == implicit_product(rest[1].token.position)) by {
                    assert(token.content@ =~= seq!['*']);
                }
                let ghost old_tree = *tree;
                tree.nodes.insert(i + 1, node);
                proof {
                    assert(tree@ =~= before.insert(i + 1, node@));
                    assert(tree@.take(i + 2) =~= before.take(i as int) + seq![rest[0], node@]);
                    assert(tree@.skip(i + 2) =~= before.skip(i + 1));
                    assert(tree@.take(i + 2) + with_products(tree@.skip(i + 2)) =~= before.take(
                        i as int,
                    ) + with_products(rest));
                    if levels_ok(old_tree) {
                        assert forall|j: int| 0 <= j < tree.nodes.len() implies ((
                        #[trigger] tree.nodes[j]).subtree matches Some(s) ==> s.level
                            == tree.level + 1 && levels_ok(s)) by {
                            if j <= i {
                                assert(tree.nodes[j] == old_tree.nodes[j]);
                            } else if j > i + 1 {
                                assert(tree.nodes[j] == old_tree.nodes[j - 1]);
                            }
                        }
                    }
                }
                i += 1;
            } else {
                proof {
                    assert(tree@.take(i + 1) =~= before.take(i as int) + seq![rest[0]]);
                    assert(tree@.take(i + 1) + with_products(tree@.skip(i + 1)) =~= before.take(
                        i as int,
                    ) + with_products(rest));
                }
            }
            i += 1;
        }
        proof {
            assert(tree@.take(i as int) + tree@.skip(i as int) =~= tree@);
        }
        Ok(())
    }
}

/// Whether an exec result and the outcome that a pass should have agree.
pub open spec fn agrees(r: Result<(), SyntaxError>, tree: Seq<NodeView>, outcome: Outcome) -> bool {
    match r {
        Ok(_) => outcome == Ok::<Seq<NodeView>, SyntaxErrorView>(tree),
        Err(e) => outcome == Err::<Seq<NodeView>, SyntaxErrorView>(e@),
    }
}

/// The error for a tree that would be deeper than levels can count.
fn too_deep(position: Position) -> (e: SyntaxError)
    ensures
        e@ == nested_too_deeply(position),
{
    SyntaxError::new("Expression is nested too deeply", position)
}

/// The subtree that holds `nodes` below a node of a sequence at `level`, or
/// `None` where it would be deeper than levels can count.
fn subtree_below(nodes: Vec<AstNode>, level: usize) -> (r: Option<Ast>)
    ensures
        r is Some == fits_below(Seq::new(nodes.len() as nat, |i: int| nodes[i]@), level),
        r matches Some(t) ==> t.level == level + 1 && levels_ok(t) && t@ == Seq::new(
            nodes.len() as nat,
            |i: int| nodes[i]@,
        ),
{
    let mut t = Ast { nodes, level: 0 };
    assert(t@ =~= Seq::new(nodes.len() as nat, |i: int| nodes[i]@));
    if level == usize::MAX {
        return None;
    }
    if t.try_relevel_from(level + 1) {
        Some(t)
    } else {
        None
    }
}

/// Whether replacing the subtree of the node at `i` by `sub` keeps the levels
/// consistent.
proof fn lemma_levels_after_adoption(before: Ast, after: Ast, i: int, sub: Ast)
    requires
        levels_ok(before),
        after.level == before.level,
        after.nodes.len() == before.nodes.len(),
        0 <= i < after.nodes.len(),
        after.nodes[i].subtree == Some(sub),
        sub.level == before.level + 1,
        levels_ok(sub),
        forall|j: int| 0 <= j < after.nodes.len() && j != i ==> after.nodes[j] == before.nodes[j],
    ensures
        levels_ok(after),
{
    assert forall|j: int| 0 <= j < after.nodes.len() implies ((
    #[trigger] after.nodes[j]).subtree matches Some(s) ==> s.level == after.level + 1
        && levels_ok(s)) by {
        if j != i {
            assert(after.nodes[j] == before.nodes[j]);
        }
    }
}

/// Removing a node keeps the levels consistent.
proof fn lemma_levels_after_removal(before: Ast, after: Ast, i: int)
    requires
        levels_ok(before),
        after.level == before.level,
        0 <= i < before.nodes.len(),
        after.nodes@ == before.nodes@.remove(i),
    ensures
        levels_ok(after),
{
    assert forall|j: int| 0 <= j < after.nodes.len() implies ((
    #[trigger] after.nodes[j]).subtree matches Some(s) ==> s.level == after.level + 1
        && levels_ok(s)) by {
        if j < i {
            assert(after.nodes[j] == before.nodes[j]);
        } else {
            assert(after.nodes[j] == before.nodes[j + 1]);
        }
    }
}

impl Parser {
    /// Puts the previous result in front of a top-level sequence that opens
    /// with a binary operator or function.
    fn expose_implicit_mem0_call(tree: &mut Ast) -> (r: Result<(), SyntaxError>)
        ensures
            r is Ok,
            final(tree)@ == with_previous_result(old(tree)@, old(tree).level),
            final(tree).level == old(tree).level,
            levels_ok(*old(tree)) ==> levels_ok(*final(tree)),
    {
        if tree.level > 0 || tree.nodes.len() < 1 {
            return Ok(());
        }
        assert(tree@[0] == tree.nodes[0]@);
        if tree.nodes[0].token.type_ == TokenType::BinaryFunctionIdentifier
            || tree.nodes[0].token.type_ == TokenType::BinaryOperator {
            let position = tree.nodes[0].token.position;
            let node = Parser::generate_mem0_call(position);
            let ghost before = *tree;
            tree.nodes.insert(0, node);
            proof {
                assert(tree@ =~= seq![previous_result(position)] + before@);
                if levels_ok(before) {
                    assert forall|j: int| 0 <= j < tree.nodes.len() implies ((
                    #[trigger] tree.nodes[j]).subtree matches Some(s) ==> s.level == tree.level
                        + 1 && levels_ok(s)) by {
                        if j > 0 {
                            assert(tree.nodes[j] == before.nodes[j - 1]);
                        }
                    }
                }
            }
        }
        Ok(())
    }

    /// The operand that stands for the previous result, for a sequence at
    /// level 0.
    fn generate_mem0_call(position: Position) -> (node: AstNode)
        ensures
            node@ == previous_result(position),
            node.subtree matches Some(s) && s.level == 1 && levels_ok(s),
    {
        let zero = AstNode::new_from_token(
            Token::new_implicit(TokenType::Integer, vec!['0'], position),
        );
        let mut inner = Ast { nodes: Vec::new(), level: 2 };
        inner.nodes.push(zero);
        let call = AstNode::new_with_subtree(
            Token::new_implicit(TokenType::UnaryFunctionIdentifier, vec!['m', 'e', 'm'], position),
            inner,
        );
        let mut outer = Ast { nodes: Vec::new(), level: 1 };
        outer.nodes.push(call);
        let node = AstNode::new_with_subtree(
            Token::new_implicit(
                TokenType::Expression,
                vec!['(', 'm', 'e', 'm', ' ', '0', ')'],
                position,
            ),
            outer,
        );
        proof {
            assert(zero.token.content@ =~= seq!['0']);
            assert(call.token.content@ =~= seq!['m', 'e', 'm']);
            assert(node.token.content@ =~= seq!['(', 'm', 'e', 'm', ' ', '0', ')']);
            assert(inner@ =~= seq![zero@]);
            assert(outer@ =~= seq![call@]);
            assert(levels_ok(inner));
            assert(levels_ok(outer));
        }
        node
    }

    /// Folds the flat sequence into a tree: postfix `!` first, then prefix
    /// operators and unary functions, then binary operators by precedence.
    ///
    /// The folded tree keeps the levels and the arities right, and every
    /// operator and unary function at its top has its operands. Where
    /// nothing had been folded before, reading it in order, each operator
    /// beside or between its operands, gives the flat sequence again.
    pub fn incorporate_operands(tree: &mut Ast) -> (r: Result<(), SyntaxError>)
        ensures
            final(tree).level == old(tree).level,
            r is Ok && levels_ok(*old(tree)) ==> levels_ok(*final(tree)),
            agrees(r, final(tree)@, incorporated(old(tree)@, old(tree).level)),
            r is Ok && arity_ok(old(tree)@) ==> arity_ok(final(tree)@),
            final(tree)@ == after_incorporation(old(tree)@, old(tree).level),
            r is Ok ==> tops_folded(final(tree)@),
            r is Ok && unfolded(old(tree)@) ==> in_order(final(tree)@, 0) == old(tree)@,
    {
        proof {
            law_folding_gives_operands(tree@, tree.level);
            if arity_ok(tree@) {
                lemma_incorporated_arity(tree@, tree.level);
            }
            if unfolded(tree@) {
                law_folding_keeps_order(tree@, tree.level);
            }
        }
        match Parser::incorporate_factorials(tree) {
            Err(e) => {
                return Err(e);
            },
            Ok(_) => {},
        }
        match Parser::incorporate_unary_ops_and_funcs(tree) {
            Err(e) => {
                return Err(e);
            },
            Ok(_) => {},
        }
        Parser::incorporate_binary_ops(tree)
    }

    /// Folds every postfix `!` over the node before it, from left to right.
    fn incorporate_factorials(tree: &mut Ast) -> (r: Result<(), SyntaxError>)
        ensures
            final(tree).level == old(tree).level,
            r is Ok && levels_ok(*old(tree)) ==> levels_ok(*final(tree)),
            agrees(
                r,
                final(tree)@,
                fold_factorials(old(tree)@, Seq::empty(), old(tree).level),
            ),
            final(tree)@ == after_factorials(old(tree)@, Seq::empty(), old(tree).level),
    {
        let level = tree.level;
        let ghost goal = fold_factorials(old(tree)@, Seq::empty(), level);
        let ghost left = after_factorials(old(tree)@, Seq::empty(), level);
        let mut i: usize = 0;
        proof {
            assert(tree@.skip(0) =~= tree@);
            assert(tree@.take(0) =~= Seq::<NodeView>::empty());
        }
        while i < tree.nodes.len()
            invariant
                i <= tree.nodes.len(),
                tree.nodes.len() == tree@.len(),
                tree.level == level,
                levels_ok(*old(tree)) ==> levels_ok(*tree),
                level == old(tree).level,
                goal == fold_factorials(old(tree)@, Seq::empty(), level),
                fold_factorials(tree@.skip(i as int), tree@.take(i as int), level) == goal,
                left == after_factorials(old(tree)@, Seq::empty(), level),
                after_factorials(tree@.skip(i as int), tree@.take(i as int), level) == left,
            decreases tree.nodes.len() - i,
        {
            let ghost before = *tree;
            let ghost rest = before@.skip(i as int);
            let ghost done = before@.take(i as int);
            assert(rest[0] == tree.nodes[i as int]@);
            if token_is_factorial(&tree.nodes[i].token) {
                if i < 1 {
                    assert(tree@ =~= done + rest);
                    return Err(
                        SyntaxError::new(
                            "Unary operator '!' is missing a left-hand operand",
                            tree.nodes[i].token.position,
                        ),
                    );
                }
                let position = tree.nodes[i].token.position;
                let operand = tree.nodes.remove(i - 1);
                let ghost removed = *tree;
                assert(operand@ == done.last());
                let mut operands: Vec<AstNode> = Vec::new();
                operands.push(operand);
                assert(Seq::new(operands.len() as nat, |k: int| operands[k]@) =~= seq![done.last()]);
                assert(tree@ =~= done.drop_last() + rest);
                match subtree_below(operands, level) {
                    None => {
                        return Err(too_deep(position));
                    },
                    Some(sub) => {
                        let node = &mut tree.nodes[i - 1];
                        node.subtree = Some(sub);
                        proof {
                            assert(tree@.take(i as int) =~= done.drop_last().push(
                                adopt(rest[0], seq![done.last()]),
                            ));
                            assert(tree@.skip(i as int) =~= rest.drop_first());
                            if levels_ok(*old(tree)) {
                                lemma_levels_after_removal(before, removed, i - 1);
                                lemma_levels_after_adoption(removed, *tree, i - 1, sub);
                            }
                        }
                    },
                }
            } else {
                proof {
                    assert(tree@.take(i + 1) =~= done.push(rest[0]));
                    assert(tree@.skip(i + 1) =~= rest.drop_first());
                }
                i += 1;
            }
        }
        proof {
            assert(tree@.take(i as int) =~= tree@);
        }
        Ok(())
    }
}

impl Parser {
    /// Folds every prefix operator and unary function over the node after
    /// it, from right to left.
    fn incorporate_unary_ops_and_funcs(tree: &mut Ast) -> (r: Result<(), SyntaxError>)
        ensures
            final(tree).level == old(tree).level,
            r is Ok && levels_ok(*old(tree)) ==> levels_ok(*final(tree)),
            agrees(r, final(tree)@, fold_prefixes(old(tree)@, Seq::empty(), old(tree).level)),
            final(tree)@ == after_prefixes(old(tree)@, Seq::empty(), old(tree).level),
    {
        let level = tree.level;
        let ghost goal = fold_prefixes(old(tree)@, Seq::empty(), level);
        let ghost left = after_prefixes(old(tree)@, Seq::empty(), level);
        let mut i: usize = tree.nodes.len();
        proof {
            assert(tree@.take(i as int) =~= tree@);
            assert(tree@.skip(i as int) =~= Seq::<NodeView>::empty());
        }
        while i > 0
            invariant
                i <= tree.nodes.len(),
                tree.nodes.len() == tree@.len(),
                tree.level == level,
                levels_ok(*old(tree)) ==> levels_ok(*tree),
                level == old(tree).level,
                goal == fold_prefixes(old(tree)@, Seq::empty(), level),
                fold_prefixes(tree@.take(i as int), tree@.skip(i as int), level) == goal,
                left == after_prefixes(old(tree)@, Seq::empty(), level),
                after_prefixes(tree@.take(i as int), tree@.skip(i as int), level) == left,
            decreases i,
        {
            let ghost before = *tree;
            let ghost rest = before@.take(i as int);
            let ghost done = before@.skip(i as int);
            i -= 1;
            assert(rest.last() == tree.nodes[i as int]@);
            if token_is_prefix(&tree.nodes[i].token) {
                if i + 1 >= tree.nodes.len() {
                    assert(tree@ =~= rest + done);
                    return Err(
                        SyntaxError::quoting(
                            "Unary operator '",
                            &tree.nodes[i].token.content,
                            "' is missing a right-hand operand",
                            tree.nodes[i].token.position,
                        ),
                    );
                }
                let position = tree.nodes[i].token.position;
                let operand = tree.nodes.remove(i + 1);
                let ghost removed = *tree;
                assert(operand@ == done[0]);
                let mut operands: Vec<AstNode> = Vec::new();
                operands.push(operand);
                assert(Seq::new(operands.len() as nat, |k: int| operands[k]@) =~= seq![done[0]]);
                assert(tree@ =~= rest + done.drop_first());
                match subtree_below(operands, level) {
                    None => {
                        return Err(too_deep(position));
                    },
                    Some(sub) => {
                        let node = &mut tree.nodes[i];
                        node.subtree = Some(sub);
                        proof {
                            assert(tree@.take(i as int) =~= rest.drop_last());
                            assert(tree@.skip(i as int) =~= seq![
                                adopt(rest.last(), seq![done[0]]),
                            ] + done.drop_first());
                            if levels_ok(*old(tree)) {
                                lemma_levels_after_removal(before, removed, i + 1);
                                lemma_levels_after_adoption(removed, *tree, i as int, sub);
                            }
                        }
                    },
                }
            } else {
                proof {
                    assert(tree@.take(i as int) =~= rest.drop_last());
                    assert(tree@.skip(i as int) =~= seq![rest.last()] + done);
                }
            }
        }
        proof {
            assert(tree@.skip(0) =~= tree@);
        }
        Ok(())
    }

    /// Folds the binary operators, one precedence tier after the other, the
    /// tightest first.
    fn incorporate_binary_ops(tree: &mut Ast) -> (r: Result<(), SyntaxError>)
        ensures
            final(tree).level == old(tree).level,
            r is Ok && levels_ok(*old(tree)) ==> levels_ok(*final(tree)),
            agrees(r, final(tree)@, fold_tiers(old(tree)@, 0, old(tree).level)),
            final(tree)@ == after_tiers(old(tree)@, 0, old(tree).level),
    {
        let level = tree.level;
        let ghost goal = fold_tiers(old(tree)@, 0, level);
        let ghost left = after_tiers(old(tree)@, 0, level);
        let mut tier: usize = 0;
        while tier < TIER_COUNT
            invariant
                tier <= TIER_COUNT,
                tree.level == level,
                levels_ok(*old(tree)) ==> levels_ok(*tree),
                level == old(tree).level,
                goal == fold_tiers(old(tree)@, 0, level),
                fold_tiers(tree@, tier as int, level) == goal,
                left == after_tiers(old(tree)@, 0, level),
                after_tiers(tree@, tier as int, level) == left,
            decreases TIER_COUNT - tier,
        {
            match Parser::incorporate_binary_op_set(tree, tier) {
                Err(e) => {
                    return Err(e);
                },
                Ok(_) => {},
            }
            tier += 1;
        }
        Ok(())
    }

    /// Folds every binary operator of tier `tier` over its two neighbours,
    /// from right to left, so that operators of one tier group to the right.
    fn incorporate_binary_op_set(tree: &mut Ast, tier: usize) -> (r: Result<(), SyntaxError>)
        requires
            tier < TIER_COUNT,
        ensures
            final(tree).level == old(tree).level,
            r is Ok && levels_ok(*old(tree)) ==> levels_ok(*final(tree)),
            agrees(
                r,
                final(tree)@,
                fold_tier(old(tree)@, Seq::empty(), tier as int, old(tree).level),
            ),
            final(tree)@ == after_tier(old(tree)@, Seq::empty(), tier as int, old(tree).level),
    {
        let level = tree.level;
        let ghost goal = fold_tier(old(tree)@, Seq::empty(), tier as int, level);
        let ghost left = after_tier(old(tree)@, Seq::empty(), tier as int, level);
        let mut i: usize = tree.nodes.len();
        proof {
            assert(tree@.take(i as int) =~= tree@);
            assert(tree@.skip(i as int) =~= Seq::<NodeView>::empty());
        }
        while i > 0
            invariant
                i <= tree.nodes.len(),
                tree.nodes.len() == tree@.len(),
                tree.level == level,
                levels_ok(*old(tree)) ==> levels_ok(*tree),
                level == old(tree).level,
                tier < TIER_COUNT,
                goal == fold_tier(old(tree)@, Seq::empty(), tier as int, level),
                fold_tier(tree@.take(i as int), tree@.skip(i as int), tier as int, level) == goal,
                left == after_tier(old(tree)@, Seq::empty(), tier as int, level),
                after_tier(tree@.take(i as int), tree@.skip(i as int), tier as int, level) == left,
            decreases i,
        {
            let ghost before = *tree;
            let ghost rest = before@.take(i as int);
            let ghost done = before@.skip(i as int);
            i -= 1;
            assert(rest.last() == tree.nodes[i as int]@);
            if tree.nodes[i].token.type_ == TokenType::BinaryOperator && tier_contains(
                tier,
                &tree.nodes[i].token.content,
            ) {
                assert(tree@ =~= rest + done);
                if i == 0 {
                    return Err(
                        SyntaxError::quoting(
                            "Binary operator '",
                            &tree.nodes[i].token.content,
                            "' is missing a left-hand operand",
                            tree.nodes[i].token.position,
                        ),
                    );
                }
                if i + 1 >= tree.nodes.len() {
                    return Err(
                        SyntaxError::quoting(
                            "Binary operator '",
                            &tree.nodes[i].token.content,
                            "' is missing a right-hand operand",
                            tree.nodes[i].token.position,
                        ),
                    );
                }
                let position = tree.nodes[i].token.position;
                let right = tree.nodes.remove(i + 1);
                let ghost without_right = *tree;
                let left = tree.nodes.remove(i - 1);
                let ghost removed = *tree;
                assert(right@ == done[0]);
                assert(left@ == rest[rest.len() - 2]);
                let mut operands: Vec<AstNode> = Vec::new();
                operands.push(left);
                operands.push(right);
                assert(Seq::new(operands.len() as nat, |k: int| operands[k]@) =~= seq![
                    rest[rest.len() - 2],
                    done[0],
                ]);
                i -= 1;
                assert(tree@ =~= rest.take(rest.len() - 2) + seq![rest.last()]
                    + done.drop_first());
                match subtree_below(operands, level) {
                    None => {
                        return Err(too_deep(position));
                    },
                    Some(sub) => {
                        let node = &mut tree.nodes[i];
                        node.subtree = Some(sub);
                        proof {
                            assert(tree@.take(i as int) =~= rest.take(rest.len() - 2));
                            assert(tree@.skip(i as int) =~= seq![
                                adopt(rest.last(), seq![rest[rest.len() - 2], done[0]]),
                            ] + done.drop_first());
                            if levels_ok(*old(tree)) {
                                lemma_levels_after_removal(before, without_right, i + 2);
                                lemma_levels_after_removal(without_right, removed, i as int);
                                lemma_levels_after_adoption(removed, *tree, i as int, sub);
                            }
                        }
                    },
                }
            } else {
                proof {
                    assert(tree@.take(i as int) =~= rest.drop_last());
                    assert(tree@.skip(i as int) =~= seq![rest.last()] + done);
                }
            }
        }
        proof {
            assert(tree@.skip(0) =~= tree@);
        }
        Ok(())
    }
}

/// The views of `nodes`, in order.
pub open spec fn nodes_view(nodes: Seq<AstNode>) -> Seq<NodeView> {
    Seq::new(nodes.len(), |i: int| nodes[i]@)
}

/// `front` before the nodes of `rest`, where there are any.
pub open spec fn after(front: Seq<NodeView>, rest: Outcome) -> Outcome {
    match rest {
        Ok(nodes) => Ok(front + nodes),
        Err(e) => Err(e),
    }
}

impl Parser {
    /// Parses `input`, which stands on line `line` from column `chr` on, and
    /// hands out its tree. The tree that the parser held before is dropped.
    ///
    /// In the tree every subtree stands one level below the sequence that
    /// holds its node, and every operator and function has its operands:
    /// exactly one node below a unary one, exactly two below a binary one. A text whose
    /// folding leaves an operator or function without operands is an error
    /// that names the first such; so is a binary function, which no pass
    /// folds. The tree can be evaluated.
    pub fn parse(&mut self, input: &str, line: usize, chr: usize) -> (r: Result<Ast, SyntaxError>)
        requires
            chr + input@.len() <= usize::MAX,
        ensures
            final(self).ast@ == Seq::<NodeView>::empty(),
            final(self).ast.level == 0,
            match r {
                Ok(t) => parsed_tree(input@, line, chr) == Ok::<Seq<NodeView>, SyntaxErrorView>(
                    t@,
                ) && t.level == 0 && levels_ok(t) && folded(t@) && arity_ok(t@) && evaluable(t@),
                Err(e) => parsed_tree(input@, line, chr) == Err::<Seq<NodeView>, SyntaxErrorView>(
                    e@,
                ),
            },
    {
        let chars = chars_of(input);
        self.ast = Ast::new();
        let r = Parser::parse_recursively(&chars, line, chr, &mut self.ast);
        match r {
            Err(e) => {
                self.ast = Ast::new();
                Err(e)
            },
            Ok(_) => {
                proof {
                    lemma_parsed_arity(input@, line, chr, 0);
                    assert(self.ast@ =~= nodes_view(self.ast.nodes@));
                }
                match Parser::check_operands(&self.ast.nodes) {
                    Err(e) => {
                        self.ast = Ast::new();
                        Err(e)
                    },
                    Ok(_) => {
                        proof {
                            lemma_unfolded_none(self.ast@, 0);
                            lemma_folded_evaluable(self.ast@);
                        }
                        Ok(self.take_ast())
                    },
                }
            },
        }
    }

    /// Looks for the first of `nodes`, or below them, that lacks operands.
    fn check_operands(nodes: &Vec<AstNode>) -> (r: Result<(), SyntaxError>)
        ensures
            match r {
                Ok(_) => first_unfolded(nodes_view(nodes@), 0) is None,
                Err(e) => first_unfolded(nodes_view(nodes@), 0) matches Some(t) && e@
                    == missing_operands(t),
            },
        decreases *nodes, 0nat,
    {
        let n = nodes.len();
        let mut i: usize = 0;
        while i < n
            invariant
                i <= n,
                n == nodes.len(),
                first_unfolded(nodes_view(nodes@), 0) == first_unfolded(
                    nodes_view(nodes@),
                    i as int,
                ),
            decreases n - i,
        {
            proof {
                assert(nodes_view(nodes@)[i as int] == nodes[i as int]@);
                assert(decreases_to!(*nodes => nodes[i as int]));
            }
            match Parser::check_node(&nodes[i]) {
                Err(e) => {
                    return Err(e);
                },
                Ok(_) => {},
            }
            i += 1;
        }
        Ok(())
    }

    /// Looks for the first node at `node`, or below it, that lacks operands.
    fn check_node(node: &AstNode) -> (r: Result<(), SyntaxError>)
        ensures
            match r {
                Ok(_) => first_unfolded_in(node@) is None,
                Err(e) => first_unfolded_in(node@) matches Some(t) && e@ == missing_operands(t),
            },
        decreases *node, 1nat,
    {
        if node.token.type_.is_terminal() {
            return Ok(());
        }
        match &node.subtree {
            None => Err(Parser::operands_missing(&node.token)),
            Some(sub) => {
                proof {
                    assert(sub@ =~= nodes_view(sub.nodes@));
                    assert(node@.children == Some(sub@));
                    assert(decreases_to!(*node => sub.nodes));
                }
                let count = sub.nodes.len();
                let lacking = if node.token.type_.is_unary() {
                    count != 1
                } else {
                    node.token.type_ != TokenType::Expression && count != 2
                };
                if lacking {
                    Err(Parser::operands_missing(&node.token))
                } else {
                    Parser::check_operands(&sub.nodes)
                }
            },
        }
    }

    /// The error for an operator or function without its operands.
    fn operands_missing(token: &Token) -> (e: SyntaxError)
        ensures
            e@ == missing_operands(token@),
    {
        SyntaxError::quoting(
            "Operator or function '",
            &token.content,
            "' is missing its operands",
            token.position,
        )
    }

    /// Parses `input` into the empty sequence `tree`, at the level of `tree`.
    fn parse_recursively(input: &Vec<char>, line: usize, chr: usize, tree: &mut Ast) -> (r: Result<
        (),
        SyntaxError,
    >)
        requires
            chr + input@.len() <= usize::MAX,
            old(tree)@.len() == 0,
        ensures
            final(tree).level == old(tree).level,
            r is Ok ==> levels_ok(*final(tree)),
            agrees(r, final(tree)@, parsed(input@, line, chr, old(tree).level)),
        decreases input@.len(),
    {
        let level = tree.level;
        let ghost tokens = scan(input@, 0, line, chr, Seq::empty()).tokens;
        proof {
            lemma_scan_expressions(input@, 0, line, chr, Seq::empty());
            assert(levels_ok(*tree));
        }
        match Parser::tokenize_chars(input, line, chr, tree) {
            Err(e) => {
                return Err(e);
            },
            Ok(_) => {},
        }
        assert(tree@ =~= leaves(tokens));
        let ghost goal = descended(tokens, line, level, input@.len());
        let n = tree.nodes.len();
        let mut i: usize = 0;
        proof {
            assert(tokens.skip(0) =~= tokens);
            assert(tree@.take(0) + goal->Ok_0 =~= goal->Ok_0);
        }
        while i < n
            invariant
                i <= n,
                n == tree.nodes.len(),
                n == tokens.len(),
                tree.level == level,
                level == old(tree).level,
                chr + input@.len() <= usize::MAX,
                expressions_inside(tokens, chr, input@.len()),
                levels_ok(*tree),
                tree@.len() == n,
                forall|k: int| i <= k < n ==> #[trigger] tree@[k] == leaf(tokens[k]),
                scan(input@, 0, line, chr, Seq::empty()).error is None,
                tokens == scan(input@, 0, line, chr, Seq::empty()).tokens,
                goal == descended(tokens, line, level, input@.len()),
                goal == after(
                    tree@.take(i as int),
                    descended(tokens.skip(i as int), line, level, input@.len()),
                ),
            decreases n - i,
        {
            let ghost before = *tree;
            let ghost t = tokens[i as int];
            assert(tokens.skip(i as int)[0] == t);
            assert(tokens.skip(i as int).drop_first() =~= tokens.skip(i + 1));
            assert(tree@[i as int] == leaf(t));
            assert(tree@[i as int] == tree.nodes[i as int]@);
            assert(expression_inside(t, chr, input@.len()));
            if tree.nodes[i].token.type_ == TokenType::Expression {
                if level == usize::MAX {
                    return Err(too_deep(tree.nodes[i].token.position));
                }
                let mut subtree = Ast { nodes: Vec::new(), level: level + 1 };
                assert(subtree@ =~= Seq::<NodeView>::empty());
                let inner = Parser::parse_recursively(
                    &tree.nodes[i].token.content,
                    line,
                    tree.nodes[i].token.position.chr + 1,
                    &mut subtree,
                );
                match inner {
                    Err(e) => {
                        return Err(e);
                    },
                    Ok(_) => {
                        let node = &mut tree.nodes[i];
                        node.subtree = Some(subtree);
                        proof {
                            lemma_levels_after_adoption(before, *tree, i as int, subtree);
                            assert(tree@[i as int] == adopt(leaf(t), subtree@));
                            assert(tree@.take(i + 1) =~= before@.take(i as int) + seq![
                                adopt(leaf(t), subtree@),
                            ]);
                            assert forall|k: int| i < k < n implies #[trigger] tree@[k] == leaf(
                                tokens[k],
                            ) by {
                                assert(tree@[k] == before@[k]);
                            }
                            let rest = descended(tokens.skip(i + 1), line, level, input@.len());
                            if let Ok(nodes) = rest {
                                assert(tree@.take(i + 1) + nodes =~= before@.take(i as int) + (
                                seq![adopt(leaf(t), subtree@)] + nodes));
                            }
                        }
                    },
                }
            } else {
                proof {
                    assert(tree@.take(i + 1) =~= before@.take(i as int) + seq![leaf(t)]);
                    let rest = descended(tokens.skip(i + 1), line, level, input@.len());
                    if let Ok(nodes) = rest {
                        assert(tree@.take(i + 1) + nodes =~= before@.take(i as int) + (seq![
                            leaf(t),
                        ] + nodes));
                    }
                }
            }
            i += 1;
        }
        proof {
            assert(tokens.skip(n as int) =~= Seq::<TokenView>::empty());
            assert(tree@.take(n as int) + Seq::<NodeView>::empty() =~= tree@);
        }
        match Parser::disambiguate_operators(tree) {
            Err(e) => {
                return Err(e);
            },
            Ok(_) => {},
        }
        match Parser::expose_implicit_multiplications(tree) {
            Err(e) => {
                return Err(e);
            },
            Ok(_) => {},
        }
        match Parser::expose_implicit_mem0_call(tree) {
            Err(e) => {
                return Err(e);
            },
            Ok(_) => {},
        }
        Parser::incorporate_operands(tree)
    }
}

impl Default for Parser {
    fn default() -> (p: Parser)
        ensures
            p.ast@ == Seq::<NodeView>::empty(),
            p.ast.level == 0,
    {
        Parser::new()
    }
}

} // verus!

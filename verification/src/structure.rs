//! What the structural passes of the parser compute, as functions on
//! sequences of nodes.
use vstd::prelude::*;
use crate::ast::{arity_ok, depth_within, node_arity_ok, NodeView};
use crate::errors::{framed, SyntaxErrorView};
use crate::patterns::in_tier;
use crate::position::Position;
use crate::evaluator::{evaluable, node_evaluable};
use crate::tokenizer::{leaf, scan};
use crate::tokens::{TokenType, TokenView};

verus! {

/// The result of a pass: the nodes, or the error that stopped it.
pub type Outcome = Result<Seq<NodeView>, SyntaxErrorView>;

/// The postfix operator `!`.
pub open spec fn is_factorial(t: TokenView) -> bool {
    t.type_ is UnaryOperator && t.content == seq!['!']
}

/// A unary operator written before its operand, or a unary function.
pub open spec fn is_prefix(t: TokenView) -> bool {
    (t.type_ is UnaryOperator && t.content != seq!['!']) || t.type_ is UnaryFunctionIdentifier
}

/// A token after which a value is complete: a terminal, a parenthesized
/// expression or a postfix `!`.
pub open spec fn ends_value(t: TokenView) -> bool {
    t.type_.spec_is_terminal() || t.type_ is Expression || is_factorial(t)
}

/// A token with which a value begins: a terminal, a parenthesized expression,
/// a unary function or a prefix operator.
pub open spec fn starts_value(t: TokenView) -> bool {
    t.type_.spec_is_terminal() || t.type_ is Expression || is_prefix(t)
}

/// The ambiguous operator `content` at `position` stands before a postfix `!`.
pub open spec fn ambiguous_before_factorial(content: Seq<char>, position: Position)
    -> SyntaxErrorView {
    SyntaxErrorView {
        msg: framed("Ambiguous operator '"@, content, "' cannot precede unary operator '!'"@),
        position,
    }
}

/// The neighbours of the ambiguous operator `content` at `position` do not
/// tell its role.
pub open spec fn cannot_disambiguate(content: Seq<char>, position: Position) -> SyntaxErrorView {
    SyntaxErrorView {
        msg: framed(
            "Could not disambiguate ambiguous operator '"@,
            content,
            "', consider using parentheses"@,
        ),
        position,
    }
}

/// The postfix `!` at `position` has nothing before it.
pub open spec fn factorial_missing_operand(position: Position) -> SyntaxErrorView {
    SyntaxErrorView { msg: "Unary operator '!' is missing a left-hand operand"@, position }
}

/// The prefix operator or function `content` at `position` has nothing after
/// it.
pub open spec fn prefix_missing_operand(content: Seq<char>, position: Position)
    -> SyntaxErrorView {
    SyntaxErrorView {
        msg: framed("Unary operator '"@, content, "' is missing a right-hand operand"@),
        position,
    }
}

/// The binary operator `content` at `position` has nothing before it.
pub open spec fn binary_missing_left(content: Seq<char>, position: Position) -> SyntaxErrorView {
    SyntaxErrorView {
        msg: framed("Binary operator '"@, content, "' is missing a left-hand operand"@),
        position,
    }
}

/// The binary operator `content` at `position` has nothing after it.
pub open spec fn binary_missing_right(content: Seq<char>, position: Position) -> SyntaxErrorView {
    SyntaxErrorView {
        msg: framed("Binary operator '"@, content, "' is missing a right-hand operand"@),
        position,
    }
}

/// The tree below the token at `position` would be deeper than levels can
/// count.
pub open spec fn nested_too_deeply(position: Position) -> SyntaxErrorView {
    SyntaxErrorView { msg: "Expression is nested too deeply"@, position }
}

/// Whether `children` can stand below a node of a sequence at `level`.
pub open spec fn fits_below(children: Seq<NodeView>, level: usize) -> bool {
    level < usize::MAX && depth_within(children, usize::MAX - level - 1)
}

/// The node `n` with the kind of its token changed to `type_`.
pub open spec fn retyped(n: NodeView, type_: TokenType) -> NodeView {
    NodeView { token: TokenView { type_, ..n.token }, ..n }
}

/// The node `parent` with `children` below it, in place of what was there.
pub open spec fn adopt(parent: NodeView, children: Seq<NodeView>) -> NodeView {
    NodeView { children: Some(children), ..parent }
}

/// Whether the ambiguous operator at index `i` of `nodes` has a value to its
/// left: at the very start of a top-level sequence the previous result counts
/// as one.
pub open spec fn has_left_value(nodes: Seq<NodeView>, i: int, level: usize) -> bool {
    if i < 1 {
        level == 0
    } else {
        ends_value(nodes[i - 1].token)
    }
}

/// Whether the ambiguous operator at index `i` of `nodes` has a value to its
/// right. Another ambiguous operator there counts: it will turn out unary.
pub open spec fn has_right_value(nodes: Seq<NodeView>, i: int) -> bool {
    i + 1 < nodes.len() && (starts_value(nodes[i + 1].token) || nodes[i
        + 1].token.type_ is AmbiguousOperator)
}

/// The role of the ambiguous operator at index `i` of `nodes`: binary with a
/// value on both sides, unary with one on the right only.
pub open spec fn role(nodes: Seq<NodeView>, i: int, level: usize) -> Result<
    TokenType,
    SyntaxErrorView,
> {
    let token = nodes[i].token;
    if i + 1 < nodes.len() && is_factorial(nodes[i + 1].token) {
        Err(ambiguous_before_factorial(token.content, token.position))
    } else if has_right_value(nodes, i) {
        if has_left_value(nodes, i, level) {
            Ok(TokenType::BinaryOperator)
        } else {
            Ok(TokenType::UnaryOperator)
        }
    } else {
        Err(cannot_disambiguate(token.content, token.position))
    }
}

/// Gives every ambiguous operator of `nodes` from index `i` on its role, from
/// left to right, and stops at the first that has none.
pub open spec fn disambiguated(nodes: Seq<NodeView>, i: int, level: usize) -> Outcome
    decreases nodes.len() - i,
{
    if !(0 <= i < nodes.len()) {
        Ok(nodes)
    } else if nodes[i].token.type_ is AmbiguousOperator {
        match role(nodes, i, level) {
            Ok(type_) => disambiguated(nodes.update(i, retyped(nodes[i], type_)), i + 1, level),
            Err(e) => Err(e),
        }
    } else {
        disambiguated(nodes, i + 1, level)
    }
}

/// The multiplication that is meant where a value follows a value, placed at
/// `position`.
pub open spec fn implicit_product(position: Position) -> NodeView {
    leaf(TokenView { type_: TokenType::BinaryOperator, content: seq!['*'], position, implicit: true })
}

/// `nodes` with a multiplication between every two neighbours of which the
/// first ends a value and the second starts one.
pub open spec fn with_products(nodes: Seq<NodeView>) -> Seq<NodeView>
    decreases nodes.len(),
{
    if nodes.len() < 2 {
        nodes
    } else if ends_value(nodes[0].token) && starts_value(nodes[1].token) {
        seq![nodes[0], implicit_product(nodes[1].token.position)] + with_products(
            nodes.drop_first(),
        )
    } else {
        seq![nodes[0]] + with_products(nodes.drop_first())
    }
}

/// The operand that stands for the previous result: the call `mem 0` in
/// parentheses, placed at `position`.
pub open spec fn previous_result(position: Position) -> NodeView {
    let zero = leaf(
        TokenView { type_: TokenType::Integer, content: seq!['0'], position, implicit: true },
    );
    let call = NodeView {
        token: TokenView {
            type_: TokenType::UnaryFunctionIdentifier,
            content: seq!['m', 'e', 'm'],
            position,
            implicit: true,
        },
        children: Some(seq![zero]),
        value: None,
    };
    NodeView {
        token: TokenView {
            type_: TokenType::Expression,
            content: seq!['(', 'm', 'e', 'm', ' ', '0', ')'],
            position,
            implicit: true,
        },
        children: Some(seq![call]),
        value: None,
    }
}

/// Whether a sequence at `level` opens with a token that needs a left
/// operand.
pub open spec fn lacks_left_operand(nodes: Seq<NodeView>, level: usize) -> bool {
    level == 0 && nodes.len() > 0 && (nodes[0].token.type_ is BinaryFunctionIdentifier
        || nodes[0].token.type_ is BinaryOperator)
}

/// `nodes` with the previous result in front where a top-level sequence opens
/// with a binary operator or function.
pub open spec fn with_previous_result(nodes: Seq<NodeView>, level: usize) -> Seq<NodeView> {
    if lacks_left_operand(nodes, level) {
        seq![previous_result(nodes[0].token.position)] + nodes
    } else {
        nodes
    }
}

/// Folds every postfix `!` of `rest` over the node before it, from left to
/// right; `done` holds what has been folded so far.
pub open spec fn fold_factorials(rest: Seq<NodeView>, done: Seq<NodeView>, level: usize)
    -> Outcome
    decreases rest.len(),
{
    if rest.len() == 0 {
        Ok(done)
    } else if is_factorial(rest[0].token) {
        if done.len() == 0 {
            Err(factorial_missing_operand(rest[0].token.position))
        } else if !fits_below(seq![done.last()], level) {
            Err(nested_too_deeply(rest[0].token.position))
        } else {
            fold_factorials(
                rest.drop_first(),
                done.drop_last().push(adopt(rest[0], seq![done.last()])),
                level,
            )
        }
    } else {
        fold_factorials(rest.drop_first(), done.push(rest[0]), level)
    }
}

/// Folds every prefix operator and unary function of `rest` over the node
/// after it, from right to left; `done` holds what has been folded so far.
pub open spec fn fold_prefixes(rest: Seq<NodeView>, done: Seq<NodeView>, level: usize) -> Outcome
    decreases rest.len(),
{
    if rest.len() == 0 {
        Ok(done)
    } else if is_prefix(rest.last().token) {
        if done.len() == 0 {
            Err(prefix_missing_operand(rest.last().token.content, rest.last().token.position))
        } else if !fits_below(seq![done[0]], level) {
            Err(nested_too_deeply(rest.last().token.position))
        } else {
            fold_prefixes(
                rest.drop_last(),
                seq![adopt(rest.last(), seq![done[0]])] + done.drop_first(),
                level,
            )
        }
    } else {
        fold_prefixes(rest.drop_last(), seq![rest.last()] + done, level)
    }
}

/// A binary operator of precedence tier `tier`.
pub open spec fn is_binary_of_tier(t: TokenView, tier: int) -> bool {
    t.type_ is BinaryOperator && in_tier(tier, t.content)
}

/// Folds every binary operator of tier `tier` in `rest` over its two
/// neighbours, from right to left, so that operators of one tier group to the
/// right; `done` holds what has been folded so far.
pub open spec fn fold_tier(rest: Seq<NodeView>, done: Seq<NodeView>, tier: int, level: usize)
    -> Outcome
    decreases rest.len(),
{
    if rest.len() == 0 {
        Ok(done)
    } else if is_binary_of_tier(rest.last().token, tier) {
        let token = rest.last().token;
        if rest.len() == 1 {
            Err(binary_missing_left(token.content, token.position))
        } else if done.len() == 0 {
            Err(binary_missing_right(token.content, token.position))
        } else if !fits_below(seq![rest[rest.len() - 2], done[0]], level) {
            Err(nested_too_deeply(token.position))
        } else {
            fold_tier(
                rest.take(rest.len() - 2),
                seq![adopt(rest.last(), seq![rest[rest.len() - 2], done[0]])] + done.drop_first(),
                tier,
                level,
            )
        }
    } else {
        fold_tier(rest.drop_last(), seq![rest.last()] + done, tier, level)
    }
}

/// Folds the binary operators of tier `tier` and of every looser tier, the
/// tighter first.
pub open spec fn fold_tiers(nodes: Seq<NodeView>, tier: int, level: usize) -> Outcome
    decreases 10 - tier,
{
    if !(0 <= tier < 10) {
        Ok(nodes)
    } else {
        match fold_tier(nodes, Seq::empty(), tier, level) {
            Ok(folded) => fold_tiers(folded, tier + 1, level),
            Err(e) => Err(e),
        }
    }
}

/// Folds a flat sequence into a tree: postfix `!` first, then prefix
/// operators and unary functions, then binary operators by precedence.
pub open spec fn incorporated(nodes: Seq<NodeView>, level: usize) -> Outcome {
    match fold_factorials(nodes, Seq::empty(), level) {
        Ok(a) => match fold_prefixes(a, Seq::empty(), level) {
            Ok(b) => fold_tiers(b, 0, level),
            Err(e) => Err(e),
        },
        Err(e) => Err(e),
    }
}

/// The nodes after the postfix `!` has been folded, or after the folding
/// has stopped at an error: what was folded so far before what was not
/// reached, without the operand that could not go a level deeper.
pub open spec fn after_factorials(rest: Seq<NodeView>, done: Seq<NodeView>, level: usize) -> Seq<
    NodeView,
>
    decreases rest.len(),
{
    if rest.len() == 0 {
        done
    } else if is_factorial(rest[0].token) {
        if done.len() == 0 {
            done + rest
        } else if !fits_below(seq![done.last()], level) {
            done.drop_last() + rest
        } else {
            after_factorials(
                rest.drop_first(),
                done.drop_last().push(adopt(rest[0], seq![done.last()])),
                level,
            )
        }
    } else {
        after_factorials(rest.drop_first(), done.push(rest[0]), level)
    }
}

/// The nodes after the prefix operators and unary functions have been
/// folded, or after the folding has stopped at an error: what was not
/// reached before what was folded so far, without the operand that could not
/// go a level deeper.
pub open spec fn after_prefixes(rest: Seq<NodeView>, done: Seq<NodeView>, level: usize) -> Seq<
    NodeView,
>
    decreases rest.len(),
{
    if rest.len() == 0 {
        done
    } else if is_prefix(rest.last().token) {
        if done.len() == 0 {
            rest + done
        } else if !fits_below(seq![done[0]], level) {
            rest + done.drop_first()
        } else {
            after_prefixes(
                rest.drop_last(),
                seq![adopt(rest.last(), seq![done[0]])] + done.drop_first(),
                level,
            )
        }
    } else {
        after_prefixes(rest.drop_last(), seq![rest.last()] + done, level)
    }
}

/// The nodes after the binary operators of tier `tier` have been folded, or
/// after the folding has stopped at an error: what was not reached before
/// what was folded so far, without the two operands that could not go a
/// level deeper.
pub open spec fn after_tier(rest: Seq<NodeView>, done: Seq<NodeView>, tier: int, level: usize)
    -> Seq<NodeView>
    decreases rest.len(),
{
    if rest.len() == 0 {
        done
    } else if is_binary_of_tier(rest.last().token, tier) {
        if rest.len() == 1 || done.len() == 0 {
            rest + done
        } else if !fits_below(seq![rest[rest.len() - 2], done[0]], level) {
            rest.take(rest.len() - 2) + seq![rest.last()] + done.drop_first()
        } else {
            after_tier(
                rest.take(rest.len() - 2),
                seq![adopt(rest.last(), seq![rest[rest.len() - 2], done[0]])] + done.drop_first(),
                tier,
                level,
            )
        }
    } else {
        after_tier(rest.drop_last(), seq![rest.last()] + done, tier, level)
    }
}

/// The nodes after the binary operators of tier `tier` and of every looser
/// tier have been folded, or after the folding has stopped at an error.
pub open spec fn after_tiers(nodes: Seq<NodeView>, tier: int, level: usize) -> Seq<NodeView>
    decreases 10 - tier,
{
    if !(0 <= tier < 10) {
        nodes
    } else {
        match fold_tier(nodes, Seq::empty(), tier, level) {
            Ok(folded) => after_tiers(folded, tier + 1, level),
            Err(_) => after_tier(nodes, Seq::empty(), tier, level),
        }
    }
}

/// The nodes after folding: the folded tree, or what the pass that stopped
/// at an error left of the nodes.
pub open spec fn after_incorporation(nodes: Seq<NodeView>, level: usize) -> Seq<NodeView> {
    match fold_factorials(nodes, Seq::empty(), level) {
        Ok(a) => match fold_prefixes(a, Seq::empty(), level) {
            Ok(b) => after_tiers(b, 0, level),
            Err(_) => after_prefixes(a, Seq::empty(), level),
        },
        Err(_) => after_factorials(nodes, Seq::empty(), level),
    }
}

/// The structural passes on a sequence at `level`, after its parenthesized
/// expressions have been parsed.
pub open spec fn structured(nodes: Seq<NodeView>, level: usize) -> Outcome {
    match disambiguated(nodes, 0, level) {
        Ok(a) => incorporated(with_previous_result(with_products(a), level), level),
        Err(e) => Err(e),
    }
}

/// The tree of `text`, which stands on line `line` from column `chr` on, as
/// a sequence at `level`.
pub open spec fn parsed(text: Seq<char>, line: usize, chr: usize, level: usize) -> Outcome
    decreases text.len(), 1nat, 0nat,
{
    let s = scan(text, 0, line, chr, Seq::empty());
    match s.error {
        Some(e) => Err(e),
        None => match descended(s.tokens, line, level, text.len()) {
            Ok(nodes) => structured(nodes, level),
            Err(e) => Err(e),
        },
    }
}

/// The nodes of `tokens`, each parenthesized expression with the tree of its
/// inner text below it. `bound` is the length of the text that the tokens
/// were read from.
pub open spec fn descended(tokens: Seq<TokenView>, line: usize, level: usize, bound: nat)
    -> Outcome
    decreases bound, 0nat, tokens.len(),
{
    if tokens.len() == 0 {
        Ok(Seq::empty())
    } else {
        let t = tokens[0];
        let first: Result<NodeView, SyntaxErrorView> = if t.type_ is Expression {
            if level == usize::MAX {
                Err(nested_too_deeply(t.position))
            } else if t.content.len() < bound {
                match parsed(t.content, line, (t.position.chr + 1) as usize, (level + 1) as usize) {
                    Ok(children) => Ok(adopt(leaf(t), children)),
                    Err(e) => Err(e),
                }
            } else {
                Ok(leaf(t))
            }
        } else {
            Ok(leaf(t))
        };
        match first {
            Ok(node) => match descended(tokens.drop_first(), line, level, bound) {
                Ok(rest) => Ok(seq![node] + rest),
                Err(e) => Err(e),
            },
            Err(e) => Err(e),
        }
    }
}

/// Whether the node `n` lacks operands: it is no terminal and has nothing
/// below it, or not one node below a unary operator or function, or not two
/// below a binary one.
pub open spec fn lacks_operands(n: NodeView) -> bool {
    !n.token.type_.spec_is_terminal() && match n.children {
        None => true,
        Some(c) => if n.token.type_.spec_is_unary() {
            c.len() != 1
        } else {
            !(n.token.type_ is Expression) && c.len() != 2
        },
    }
}

/// The token of the first node that lacks operands at `n` or below it, the
/// node itself before its operands, these from left to right.
pub open spec fn first_unfolded_in(n: NodeView) -> Option<TokenView>
    decreases n, 0nat,
{
    if n.token.type_.spec_is_terminal() {
        None
    } else if lacks_operands(n) {
        Some(n.token)
    } else {
        match n.children {
            Some(c) => first_unfolded(c, 0),
            None => None,
        }
    }
}

/// The token of the first node that lacks operands among `nodes` from index
/// `i` on, or below one of them.
pub open spec fn first_unfolded(nodes: Seq<NodeView>, i: int) -> Option<TokenView>
    decreases nodes, nodes.len() - i,
{
    if !(0 <= i < nodes.len()) {
        None
    } else {
        match first_unfolded_in(nodes[i]) {
            Some(t) => Some(t),
            None => first_unfolded(nodes, i + 1),
        }
    }
}

/// Whether the node `n` and every node below it has its operands: a unary
/// operator or function exactly one, a binary one exactly two, a
/// parenthesized expression any number.
pub open spec fn node_folded(n: NodeView) -> bool
    decreases n,
{
    n.token.type_.spec_is_terminal() || (n.children matches Some(c) && {
        &&& n.token.type_.spec_is_unary() ==> c.len() == 1
        &&& !n.token.type_.spec_is_unary() && !(n.token.type_ is Expression) ==> c.len() == 2
        &&& forall|i: int| 0 <= i < c.len() ==> node_folded(#[trigger] c[i])
    })
}

/// Whether every node of `nodes`, and every node below one, has its operands.
pub open spec fn folded(nodes: Seq<NodeView>) -> bool {
    forall|i: int| 0 <= i < nodes.len() ==> node_folded(#[trigger] nodes[i])
}

/// The operator or function of token `t` was left without its operands.
pub open spec fn missing_operands(t: TokenView) -> SyntaxErrorView {
    SyntaxErrorView {
        msg: framed("Operator or function '"@, t.content, "' is missing its operands"@),
        position: t.position,
    }
}

/// The tree of a whole text: what the passes make of it, where no operator
/// or function is left without its operands.
pub open spec fn parsed_tree(text: Seq<char>, line: usize, chr: usize) -> Outcome {
    match parsed(text, line, chr, 0) {
        Err(e) => Err(e),
        Ok(nodes) => match first_unfolded(nodes, 0) {
            Some(t) => Err(missing_operands(t)),
            None => Ok(nodes),
        },
    }
}

/// A node at which and below which no node lacks operands is folded.
pub proof fn lemma_unfolded_none_in(n: NodeView)
    requires
        first_unfolded_in(n) is None,
    ensures
        node_folded(n),
    decreases n, 0nat,
{
    if !n.token.type_.spec_is_terminal() {
        let c = n.children->0;
        lemma_unfolded_none(c, 0);
    }
}

/// Nodes among which and below which no node lacks operands are folded.
pub proof fn lemma_unfolded_none(nodes: Seq<NodeView>, i: int)
    requires
        0 <= i,
        first_unfolded(nodes, i) is None,
    ensures
        forall|k: int| i <= k < nodes.len() ==> node_folded(#[trigger] nodes[k]),
    decreases nodes, nodes.len() - i,
{
    if i < nodes.len() {
        lemma_unfolded_none_in(nodes[i]);
        lemma_unfolded_none(nodes, i + 1);
    }
}

/// A folded node can be evaluated.
pub proof fn lemma_folded_node_evaluable(n: NodeView)
    requires
        node_folded(n),
    ensures
        node_evaluable(n),
    decreases n,
{
    if !n.token.type_.spec_is_terminal() {
        let c = n.children->0;
        assert forall|i: int| 0 <= i < c.len() implies node_evaluable(#[trigger] c[i]) by {
            lemma_folded_node_evaluable(c[i]);
        }
    }
}

/// Folded nodes can be evaluated.
pub proof fn lemma_folded_evaluable(nodes: Seq<NodeView>)
    requires
        folded(nodes),
    ensures
        evaluable(nodes),
{
    assert forall|i: int| 0 <= i < nodes.len() implies node_evaluable(#[trigger] nodes[i]) by {
        lemma_folded_node_evaluable(nodes[i]);
    }
}

/// Only parenthesized expressions have anything below them.
pub open spec fn only_expressions_nest(nodes: Seq<NodeView>) -> bool {
    forall|i: int|
        0 <= i < nodes.len() ==> ((#[trigger] nodes[i]).children is Some
            ==> nodes[i].token.type_ is Expression)
}

proof fn lemma_descended_arity(tokens: Seq<TokenView>, line: usize, level: usize, bound: nat)
    ensures
        descended(tokens, line, level, bound) matches Ok(nodes) ==> arity_ok(nodes)
            && only_expressions_nest(nodes),
    decreases bound, 0nat, tokens.len(),
{
    if tokens.len() > 0 {
        let t = tokens[0];
        lemma_descended_arity(tokens.drop_first(), line, level, bound);
        if t.type_ is Expression && level != usize::MAX && t.content.len() < bound {
            lemma_parsed_arity(t.content, line, (t.position.chr + 1) as usize, (level + 1) as usize);
        }
    }
}

proof fn lemma_disambiguated_arity(nodes: Seq<NodeView>, i: int, level: usize)
    requires
        arity_ok(nodes),
        only_expressions_nest(nodes),
    ensures
        disambiguated(nodes, i, level) matches Ok(r) ==> arity_ok(r),
    decreases nodes.len() - i,
{
    if 0 <= i < nodes.len() {
        if nodes[i].token.type_ is AmbiguousOperator {
            match role(nodes, i, level) {
                Ok(type_) => {
                    let next = nodes.update(i, retyped(nodes[i], type_));
                    assert forall|k: int| 0 <= k < next.len() implies node_arity_ok(
                        #[trigger] next[k],
                    ) by {
                        if k != i {
                            assert(next[k] == nodes[k]);
                        }
                    }
                    assert(only_expressions_nest(next)) by {
                        assert forall|k: int| 0 <= k < next.len() && (
                        #[trigger] next[k]).children is Some implies next[k].token.type_ is Expression by {
                            if k != i {
                                assert(next[k] == nodes[k]);
                            }
                        }
                    }
                    lemma_disambiguated_arity(next, i + 1, level);
                },
                Err(_) => {},
            }
        } else {
            lemma_disambiguated_arity(nodes, i + 1, level);
        }
    }
}

proof fn lemma_products_arity(nodes: Seq<NodeView>)
    requires
        arity_ok(nodes),
    ensures
        arity_ok(with_products(nodes)),
    decreases nodes.len(),
{
    if nodes.len() >= 2 {
        let rest = nodes.drop_first();
        assert forall|k: int| 0 <= k < rest.len() implies node_arity_ok(#[trigger] rest[k]) by {
            assert(rest[k] == nodes[k + 1]);
        }
        lemma_products_arity(rest);
        let tail = with_products(rest);
        let result = with_products(nodes);
        assert forall|k: int| 0 <= k < result.len() implies node_arity_ok(#[trigger] result[k]) by {
            if ends_value(nodes[0].token) && starts_value(nodes[1].token) {
                if k >= 2 {
                    assert(result[k] == tail[k - 2]);
                }
            } else {
                if k >= 1 {
                    assert(result[k] == tail[k - 1]);
                }
            }
        }
    }
}

proof fn lemma_previous_result_arity(nodes: Seq<NodeView>, level: usize)
    requires
        arity_ok(nodes),
    ensures
        arity_ok(with_previous_result(nodes, level)),
{
    if lacks_left_operand(nodes, level) {
        let p = previous_result(nodes[0].token.position);
        let call = p.children->0[0];
        assert(arity_ok(call.children->0));
        assert(node_arity_ok(call));
        assert(arity_ok(p.children->0));
        assert(node_arity_ok(p));
        let result = with_previous_result(nodes, level);
        assert forall|k: int| 0 <= k < result.len() implies node_arity_ok(#[trigger] result[k]) by {
            if k >= 1 {
                assert(result[k] == nodes[k - 1]);
            }
        }
    }
}

proof fn lemma_fold_factorials_arity(rest: Seq<NodeView>, done: Seq<NodeView>, level: usize)
    requires
        arity_ok(rest),
        arity_ok(done),
    ensures
        fold_factorials(rest, done, level) matches Ok(r) ==> arity_ok(r),
    decreases rest.len(),
{
    if rest.len() > 0 {
        let tail = rest.drop_first();
        assert forall|k: int| 0 <= k < tail.len() implies node_arity_ok(#[trigger] tail[k]) by {
            assert(tail[k] == rest[k + 1]);
        }
        assert(node_arity_ok(rest[0]));
        if is_factorial(rest[0].token) {
            if done.len() > 0 && fits_below(seq![done.last()], level) {
                let operand = done.last();
                assert(node_arity_ok(operand));
                let folded = adopt(rest[0], seq![operand]);
                assert(arity_ok(seq![operand]));
                assert(node_arity_ok(folded));
                let next = done.drop_last().push(folded);
                assert forall|k: int| 0 <= k < next.len() implies node_arity_ok(
                    #[trigger] next[k],
                ) by {
                    if k < next.len() - 1 {
                        assert(next[k] == done[k]);
                    }
                }
                lemma_fold_factorials_arity(tail, next, level);
            }
        } else {
            let next = done.push(rest[0]);
            assert forall|k: int| 0 <= k < next.len() implies node_arity_ok(#[trigger] next[k]) by {
                if k < done.len() {
                    assert(next[k] == done[k]);
                }
            }
            lemma_fold_factorials_arity(tail, next, level);
        }
    }
}

proof fn lemma_fold_prefixes_arity(rest: Seq<NodeView>, done: Seq<NodeView>, level: usize)
    requires
        arity_ok(rest),
        arity_ok(done),
    ensures
        fold_prefixes(rest, done, level) matches Ok(r) ==> arity_ok(r),
    decreases rest.len(),
{
    if rest.len() > 0 {
        let head = rest.drop_last();
        assert forall|k: int| 0 <= k < head.len() implies node_arity_ok(#[trigger] head[k]) by {
            assert(head[k] == rest[k]);
        }
        assert(node_arity_ok(rest.last()));
        if is_prefix(rest.last().token) {
            if done.len() > 0 && fits_below(seq![done[0]], level) {
                let operand = done[0];
                assert(node_arity_ok(operand));
                let folded = adopt(rest.last(), seq![operand]);
                assert(arity_ok(seq![operand]));
                assert(node_arity_ok(folded));
                let next = seq![folded] + done.drop_first();
                assert forall|k: int| 0 <= k < next.len() implies node_arity_ok(
                    #[trigger] next[k],
                ) by {
                    if k > 0 {
                        assert(next[k] == done[k]);
                    }
                }
                lemma_fold_prefixes_arity(head, next, level);
            }
        } else {
            let next = seq![rest.last()] + done;
            assert forall|k: int| 0 <= k < next.len() implies node_arity_ok(#[trigger] next[k]) by {
                if k > 0 {
                    assert(next[k] == done[k - 1]);
                }
            }
            lemma_fold_prefixes_arity(head, next, level);
        }
    }
}

proof fn lemma_fold_tier_arity(rest: Seq<NodeView>, done: Seq<NodeView>, tier: int, level: usize)
    requires
        arity_ok(rest),
        arity_ok(done),
    ensures
        fold_tier(rest, done, tier, level) matches Ok(r) ==> arity_ok(r),
    decreases rest.len(),
{
    if rest.len() > 0 {
        assert(node_arity_ok(rest.last()));
        if is_binary_of_tier(rest.last().token, tier) {
            if rest.len() > 1 && done.len() > 0 && fits_below(
                seq![rest[rest.len() - 2], done[0]],
                level,
            ) {
                let left = rest[rest.len() - 2];
                let right = done[0];
                assert(node_arity_ok(left));
                assert(node_arity_ok(right));
                let pair = seq![left, right];
                assert(arity_ok(pair));
                let folded = adopt(rest.last(), pair);
                assert(node_arity_ok(folded));
                let head = rest.take(rest.len() - 2);
                assert forall|k: int| 0 <= k < head.len() implies node_arity_ok(
                    #[trigger] head[k],
                ) by {
                    assert(head[k] == rest[k]);
                }
                let next = seq![folded] + done.drop_first();
                assert forall|k: int| 0 <= k < next.len() implies node_arity_ok(
                    #[trigger] next[k],
                ) by {
                    if k > 0 {
                        assert(next[k] == done[k]);
                    }
                }
                lemma_fold_tier_arity(head, next, tier, level);
            }
        } else {
            let head = rest.drop_last();
            assert forall|k: int| 0 <= k < head.len() implies node_arity_ok(#[trigger] head[k]) by {
                assert(head[k] == rest[k]);
            }
            let next = seq![rest.last()] + done;
            assert forall|k: int| 0 <= k < next.len() implies node_arity_ok(#[trigger] next[k]) by {
                if k > 0 {
                    assert(next[k] == done[k - 1]);
                }
            }
            lemma_fold_tier_arity(head, next, tier, level);
        }
    }
}

proof fn lemma_fold_tiers_arity(nodes: Seq<NodeView>, tier: int, level: usize)
    requires
        arity_ok(nodes),
    ensures
        fold_tiers(nodes, tier, level) matches Ok(r) ==> arity_ok(r),
    decreases 10 - tier,
{
    if 0 <= tier < 10 {
        lemma_fold_tier_arity(nodes, Seq::empty(), tier, level);
        match fold_tier(nodes, Seq::empty(), tier, level) {
            Ok(folded) => {
                lemma_fold_tiers_arity(folded, tier + 1, level);
            },
            Err(_) => {},
        }
    }
}

/// Folding keeps the arities right: where every node of `nodes` that has
/// operands has as many as its kind takes, so has every node of the folded
/// tree.
pub proof fn lemma_incorporated_arity(nodes: Seq<NodeView>, level: usize)
    requires
        arity_ok(nodes),
    ensures
        incorporated(nodes, level) matches Ok(r) ==> arity_ok(r),
{
    lemma_fold_factorials_arity(nodes, Seq::empty(), level);
    match fold_factorials(nodes, Seq::empty(), level) {
        Ok(a) => {
            lemma_fold_prefixes_arity(a, Seq::empty(), level);
            match fold_prefixes(a, Seq::empty(), level) {
                Ok(b) => {
                    lemma_fold_tiers_arity(b, 0, level);
                },
                Err(_) => {},
            }
        },
        Err(_) => {},
    }
}

/// In the tree of any text, every node that has operands has exactly one
/// where its kind is unary and exactly two where its kind is binary.
pub proof fn lemma_parsed_arity(text: Seq<char>, line: usize, chr: usize, level: usize)
    ensures
        parsed(text, line, chr, level) matches Ok(nodes) ==> arity_ok(nodes),
    decreases text.len(), 1nat, 0nat,
{
    let s = scan(text, 0, line, chr, Seq::empty());
    if s.error is None {
        lemma_descended_arity(s.tokens, line, level, text.len());
        match descended(s.tokens, line, level, text.len()) {
            Ok(nodes) => {
                lemma_disambiguated_arity(nodes, 0, level);
                match disambiguated(nodes, 0, level) {
                    Ok(a) => {
                        lemma_products_arity(a);
                        lemma_previous_result_arity(with_products(a), level);
                        lemma_incorporated_arity(
                            with_previous_result(with_products(a), level),
                            level,
                        );
                    },
                    Err(_) => {},
                }
            },
            Err(_) => {},
        }
    }
}

} // verus!

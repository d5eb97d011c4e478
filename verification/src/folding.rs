//! What folding gives and keeps: every operator at the top of a folded tree
//! has its operands, and the tree, read with every operator between or
//! beside its operands, is the sequence that was folded.
use vstd::prelude::*;
use crate::ast::NodeView;
use crate::patterns::in_tier;
use crate::structure::{
    adopt, fits_below, fold_factorials, fold_prefixes, fold_tier, fold_tiers, incorporated,
    is_binary_of_tier, is_factorial, is_prefix,
};

verus! {

/// The node `n` with nothing below it.
pub open spec fn bare(n: NodeView) -> NodeView {
    NodeView { children: None, ..n }
}

/// Whether the node `n` is of a kind that is folded over operands: a postfix
/// `!`, a prefix operator, a unary function or a binary operator.
pub open spec fn takes_operands(n: NodeView) -> bool {
    is_factorial(n.token) || is_prefix(n.token) || n.token.type_ is BinaryOperator
}

/// The node `n` and what was folded below it, in the order of writing: a
/// postfix `!` behind its operand, a prefix operator or unary function
/// before it, a binary operator behind its first operand; a node of another
/// kind as it is, with what is below it.
pub open spec fn in_order_of(n: NodeView) -> Seq<NodeView>
    decreases n, 0nat,
{
    match n.children {
        Some(c) => if is_factorial(n.token) {
            in_order(c, 0).push(bare(n))
        } else if is_prefix(n.token) {
            seq![bare(n)] + in_order(c, 0)
        } else if n.token.type_ is BinaryOperator && c.len() >= 1 {
            in_order_of(c[0]) + seq![bare(n)] + in_order(c, 1)
        } else {
            seq![n]
        },
        None => seq![n],
    }
}

/// The nodes of `nodes` from index `i` on and what was folded below them, in
/// the order of writing.
pub open spec fn in_order(nodes: Seq<NodeView>, i: int) -> Seq<NodeView>
    decreases nodes, nodes.len() - i,
{
    if !(0 <= i < nodes.len()) {
        Seq::empty()
    } else {
        in_order_of(nodes[i]) + in_order(nodes, i + 1)
    }
}

/// Whether nothing has been folded yet in `nodes`: no operator or unary
/// function among them has anything below it.
pub open spec fn unfolded(nodes: Seq<NodeView>) -> bool {
    forall|i: int|
        0 <= i < nodes.len() ==> (takes_operands(#[trigger] nodes[i]) ==> nodes[i].children
            is None)
}

/// No postfix `!` among `nodes` has anything below it.
pub open spec fn factorials_open(nodes: Seq<NodeView>) -> bool {
    forall|i: int|
        0 <= i < nodes.len() ==> (is_factorial((#[trigger] nodes[i]).token) ==> nodes[i].children
            is None)
}

/// No prefix operator or unary function among `nodes` has anything below it.
pub open spec fn prefixes_open(nodes: Seq<NodeView>) -> bool {
    forall|i: int|
        0 <= i < nodes.len() ==> (is_prefix((#[trigger] nodes[i]).token) ==> nodes[i].children
            is None)
}

/// No binary operator of tier `tier` or a looser one among `nodes` has
/// anything below it.
pub open spec fn tiers_open(nodes: Seq<NodeView>, tier: int) -> bool {
    forall|i: int, k: int|
        0 <= i < nodes.len() && tier <= k ==> (#[trigger] is_binary_of_tier(
            (#[trigger] nodes[i]).token,
            k,
        ) ==> nodes[i].children is None)
}

/// No operator belongs to two tiers.
pub proof fn lemma_tiers_apart(s: Seq<char>, a: int, b: int)
    requires
        in_tier(a, s),
        in_tier(b, s),
    ensures
        a == b,
{
    reveal_strlit("^");
    reveal_strlit("*");
    reveal_strlit("/");
    reveal_strlit("%");
    reveal_strlit("+");
    reveal_strlit("-");
    reveal_strlit("<<");
    reveal_strlit(">>");
    reveal_strlit("<<<");
    reveal_strlit(">>>");
    reveal_strlit("&");
    reveal_strlit("|");
    reveal_strlit("^|");
    reveal_strlit(">");
    reveal_strlit("<");
    reveal_strlit("<=");
    reveal_strlit(">=");
    reveal_strlit("!=");
    reveal_strlit("==");
    reveal_strlit("<=>");
    reveal_strlit("??");
    reveal_strlit("!?");
    reveal_strlit("&&");
    reveal_strlit("||");
    reveal_strlit(":=");
    assert(in_tier(0, s) ==> s.len() == 1 && s[0] == '^');
    assert(in_tier(1, s) ==> s.len() == 1 && (s[0] == '*' || s[0] == '/' || s[0] == '%'));
    assert(in_tier(2, s) ==> s.len() == 1 && (s[0] == '+' || s[0] == '-'));
    assert(in_tier(3, s) ==> s.len() >= 2 && (s[1] == '<' || s[1] == '>'));
    assert(in_tier(4, s) ==> s.len() == 1 && s[0] == '&');
    assert(in_tier(5, s) ==> s.len() == 1 && s[0] == '|');
    assert(in_tier(6, s) ==> s.len() == 2 && s[0] == '^' && s[1] == '|');
    assert(in_tier(7, s) ==> (s.len() == 1 && (s[0] == '<' || s[0] == '>')) || (s.len() >= 2
        && s[0] != ':' && (s[1] == '=' || s[1] == '?')));
    assert(in_tier(8, s) ==> s.len() == 2 && (s[0] == '&' || s[0] == '|') && (s[1] == '&'
        || s[1] == '|'));
    assert(in_tier(9, s) ==> s.len() == 2 && s[0] == ':' && s[1] == '=');
}

/// Behind the nodes of `a`, the reading of `a + b` is that of `b`.
pub proof fn lemma_in_order_behind(a: Seq<NodeView>, b: Seq<NodeView>, j: int)
    requires
        0 <= j,
    ensures
        in_order(a + b, a.len() + j) == in_order(b, j),
    decreases b.len() - j,
{
    if j < b.len() {
        lemma_in_order_behind(a, b, j + 1);
        assert((a + b)[a.len() + j] == b[j]);
    }
}

/// The reading of `a + b` is that of `a` and then that of `b`.
pub proof fn lemma_in_order_joined(a: Seq<NodeView>, b: Seq<NodeView>, i: int)
    requires
        0 <= i <= a.len(),
    ensures
        in_order(a + b, i) == in_order(a, i) + in_order(b, 0),
    decreases a.len() - i,
{
    if i < a.len() {
        lemma_in_order_joined(a, b, i + 1);
        assert((a + b)[i] == a[i]);
        assert(in_order(a + b, i) =~= in_order(a, i) + in_order(b, 0));
    } else {
        lemma_in_order_behind(a, b, 0);
        assert(in_order(a + b, i) =~= in_order(a, i) + in_order(b, 0));
    }
}

/// The reading of one node as a sequence is the reading of the node.
pub proof fn lemma_in_order_single(n: NodeView)
    ensures
        in_order(seq![n], 0) == in_order_of(n),
{
    assert(in_order(seq![n], 1) =~= Seq::<NodeView>::empty());
    assert(in_order(seq![n], 0) =~= in_order_of(seq![n][0]) + in_order(seq![n], 1));
    assert(in_order_of(n) + Seq::<NodeView>::empty() =~= in_order_of(n));
}

/// The reading of a sequence is that of its first node and then that of the
/// others.
pub proof fn lemma_in_order_first(s: Seq<NodeView>)
    requires
        s.len() > 0,
    ensures
        in_order(s, 0) == in_order_of(s[0]) + in_order(s.drop_first(), 0),
{
    assert(s =~= seq![s[0]] + s.drop_first());
    lemma_in_order_joined(seq![s[0]], s.drop_first(), 0);
    lemma_in_order_single(s[0]);
}

/// The reading of a sequence is that of all its nodes but the last and then
/// that of the last.
pub proof fn lemma_in_order_last(s: Seq<NodeView>)
    requires
        s.len() > 0,
    ensures
        in_order(s, 0) == in_order(s.drop_last(), 0) + in_order_of(s.last()),
{
    assert(s =~= s.drop_last() + seq![s.last()]);
    lemma_in_order_joined(s.drop_last(), seq![s.last()], 0);
    lemma_in_order_single(s.last());
}

/// Nodes in which nothing has been folded are their own reading.
pub proof fn lemma_in_order_unfolded(nodes: Seq<NodeView>, i: int)
    requires
        unfolded(nodes),
        0 <= i <= nodes.len(),
    ensures
        in_order(nodes, i) == nodes.skip(i),
    decreases nodes.len() - i,
{
    if i < nodes.len() {
        lemma_in_order_unfolded(nodes, i + 1);
        assert(takes_operands(nodes[i]) ==> nodes[i].children is None);
        assert(in_order_of(nodes[i]) == seq![nodes[i]]);
        assert(nodes.skip(i) =~= seq![nodes[i]] + nodes.skip(i + 1));
    } else {
        assert(nodes.skip(i) =~= Seq::<NodeView>::empty());
    }
}

/// Folding the postfix `!` keeps the reading, and folds nothing over another
/// kind of operator.
pub proof fn lemma_fold_factorials_order(rest: Seq<NodeView>, done: Seq<NodeView>, level: usize)
    requires
        factorials_open(rest),
        prefixes_open(rest),
        prefixes_open(done),
        tiers_open(rest, 0),
        tiers_open(done, 0),
    ensures
        fold_factorials(rest, done, level) matches Ok(r) ==> in_order(r, 0) == in_order(done, 0)
            + in_order(rest, 0) && prefixes_open(r) && tiers_open(r, 0),
    decreases rest.len(),
{
    if rest.len() == 0 {
        assert(in_order(done, 0) + in_order(rest, 0) =~= in_order(done, 0));
    } else {
        let first = rest[0];
        let tail = rest.drop_first();
        lemma_in_order_first(rest);
        assert forall|k: int| 0 <= k < tail.len() implies #[trigger] tail[k] == rest[k + 1] by {}
        assert(in_order_of(first) == seq![first] || !is_factorial(first.token));
        if is_factorial(first.token) {
            if done.len() > 0 && fits_below(seq![done.last()], level) {
                let operand = done.last();
                let folded = adopt(first, seq![operand]);
                let next = done.drop_last().push(folded);
                assert(bare(folded) == first);
                lemma_in_order_single(operand);
                assert(in_order_of(folded) == in_order_of(operand).push(first));
                lemma_in_order_last(done);
                lemma_in_order_last(next);
                assert(next.drop_last() =~= done.drop_last());
                assert forall|k: int| 0 <= k < next.len() - 1 implies #[trigger] next[k]
                    == done[k] by {}
                lemma_fold_factorials_order(tail, next, level);
                assert(in_order(next, 0) + in_order(tail, 0) =~= in_order(done, 0) + in_order(
                    rest,
                    0,
                ));
            }
        } else {
            let next = done.push(first);
            lemma_in_order_last(next);
            assert(next.drop_last() =~= done);
            assert forall|k: int| 0 <= k < next.len() - 1 implies #[trigger] next[k]
                == done[k] by {}
            lemma_fold_factorials_order(tail, next, level);
            assert(in_order(next, 0) + in_order(tail, 0) =~= in_order(done, 0) + in_order(
                rest,
                0,
            ));
        }
    }
}

/// Folding the prefix operators and unary functions keeps the reading, and
/// folds nothing over a binary operator.
pub proof fn lemma_fold_prefixes_order(rest: Seq<NodeView>, done: Seq<NodeView>, level: usize)
    requires
        prefixes_open(rest),
        tiers_open(rest, 0),
        tiers_open(done, 0),
    ensures
        fold_prefixes(rest, done, level) matches Ok(r) ==> in_order(r, 0) == in_order(rest, 0)
            + in_order(done, 0) && tiers_open(r, 0),
    decreases rest.len(),
{
    if rest.len() == 0 {
        assert(in_order(rest, 0) + in_order(done, 0) =~= in_order(done, 0));
    } else {
        let last = rest.last();
        let head = rest.drop_last();
        lemma_in_order_last(rest);
        assert forall|k: int| 0 <= k < head.len() implies #[trigger] head[k] == rest[k] by {}
        if is_prefix(last.token) {
            if done.len() > 0 && fits_below(seq![done[0]], level) {
                let operand = done[0];
                let folded = adopt(last, seq![operand]);
                let next = seq![folded] + done.drop_first();
                assert(bare(folded) == last);
                assert(in_order_of(last) == seq![last]);
                lemma_in_order_single(operand);
                assert(in_order_of(folded) == seq![last] + in_order_of(operand));
                lemma_in_order_first(done);
                lemma_in_order_first(next);
                assert(next.drop_first() =~= done.drop_first());
                assert forall|k: int| 1 <= k < next.len() implies #[trigger] next[k]
                    == done[k] by {}
                lemma_fold_prefixes_order(head, next, level);
                assert(in_order(head, 0) + in_order(next, 0) =~= in_order(rest, 0) + in_order(
                    done,
                    0,
                ));
            }
        } else {
            let next = seq![last] + done;
            lemma_in_order_first(next);
            assert(next.drop_first() =~= done);
            assert forall|k: int| 1 <= k < next.len() implies #[trigger] next[k] == done[k
                - 1] by {}
            lemma_fold_prefixes_order(head, next, level);
            assert(in_order(head, 0) + in_order(next, 0) =~= in_order(rest, 0) + in_order(
                done,
                0,
            ));
        }
    }
}

/// Folding the binary operators of one tier keeps the reading, and folds
/// nothing over an operator of a looser tier.
pub proof fn lemma_fold_tier_order(
    rest: Seq<NodeView>,
    done: Seq<NodeView>,
    tier: int,
    level: usize,
)
    requires
        tiers_open(rest, tier),
        tiers_open(done, tier + 1),
    ensures
        fold_tier(rest, done, tier, level) matches Ok(r) ==> in_order(r, 0) == in_order(rest, 0)
            + in_order(done, 0) && tiers_open(r, tier + 1),
    decreases rest.len(),
{
    if rest.len() == 0 {
        assert(in_order(rest, 0) + in_order(done, 0) =~= in_order(done, 0));
    } else {
        let last = rest.last();
        lemma_in_order_last(rest);
        if is_binary_of_tier(last.token, tier) {
            if rest.len() > 1 && done.len() > 0 && fits_below(
                seq![rest[rest.len() - 2], done[0]],
                level,
            ) {
                let left = rest[rest.len() - 2];
                let right = done[0];
                let pair = seq![left, right];
                let folded = adopt(last, pair);
                let head = rest.take(rest.len() - 2);
                let next = seq![folded] + done.drop_first();
                assert(last.children is None);
                assert(bare(folded) == last);
                assert(in_order_of(last) == seq![last]);
                assert(in_order(pair, 2) =~= Seq::<NodeView>::empty());
                assert(in_order(pair, 1) =~= in_order_of(pair[1]) + in_order(pair, 2));
                assert(in_order(pair, 1) =~= in_order_of(right));
                assert(in_order_of(folded) == in_order_of(left) + seq![last] + in_order_of(
                    right,
                ));
                lemma_in_order_last(rest.drop_last());
                assert(rest.drop_last().drop_last() =~= head);
                lemma_in_order_first(done);
                lemma_in_order_first(next);
                assert(next.drop_first() =~= done.drop_first());
                assert forall|k: int| 0 <= k < head.len() implies #[trigger] head[k]
                    == rest[k] by {}
                assert forall|k: int| 1 <= k < next.len() implies #[trigger] next[k]
                    == done[k] by {}
                assert forall|k: int| tier + 1 <= k implies !is_binary_of_tier(
                    folded.token,
                    k,
                ) by {
                    if in_tier(k, last.token.content) {
                        lemma_tiers_apart(last.token.content, tier, k);
                    }
                }
                assert(tiers_open(head, tier));
                assert(tiers_open(next, tier + 1));
                lemma_fold_tier_order(head, next, tier, level);
                assert(in_order(head, 0) + in_order(next, 0) =~= in_order(rest, 0) + in_order(
                    done,
                    0,
                ));
            }
        } else {
            let head = rest.drop_last();
            let next = seq![last] + done;
            lemma_in_order_first(next);
            assert(next.drop_first() =~= done);
            assert forall|k: int| 0 <= k < head.len() implies #[trigger] head[k] == rest[k] by {}
            assert forall|k: int| 1 <= k < next.len() implies #[trigger] next[k] == done[k
                - 1] by {}
            assert(tiers_open(head, tier));
            assert(tiers_open(next, tier + 1));
            lemma_fold_tier_order(head, next, tier, level);
            assert(in_order(head, 0) + in_order(next, 0) =~= in_order(rest, 0) + in_order(
                done,
                0,
            ));
        }
    }
}

/// Folding the binary operators tier by tier keeps the reading.
pub proof fn lemma_fold_tiers_order(nodes: Seq<NodeView>, tier: int, level: usize)
    requires
        tiers_open(nodes, tier),
    ensures
        fold_tiers(nodes, tier, level) matches Ok(r) ==> in_order(r, 0) == in_order(nodes, 0),
    decreases 10 - tier,
{
    if 0 <= tier < 10 {
        lemma_fold_tier_order(nodes, Seq::empty(), tier, level);
        match fold_tier(nodes, Seq::empty(), tier, level) {
            Ok(folded) => {
                assert(in_order(nodes, 0) + in_order(Seq::<NodeView>::empty(), 0) =~= in_order(
                    nodes,
                    0,
                ));
                lemma_fold_tiers_order(folded, tier + 1, level);
            },
            Err(_) => {},
        }
    }
}

/// Folding keeps the order: where nothing has been folded yet in `nodes`,
/// the folded tree, read with every postfix `!` behind its operand, every
/// prefix operator and unary function before its operand and every binary
/// operator between its two, is `nodes` again.
pub proof fn law_folding_keeps_order(nodes: Seq<NodeView>, level: usize)
    requires
        unfolded(nodes),
    ensures
        incorporated(nodes, level) matches Ok(r) ==> in_order(r, 0) == nodes,
{
    let none = Seq::<NodeView>::empty();
    assert(factorials_open(nodes));
    assert(prefixes_open(nodes));
    assert(tiers_open(nodes, 0));
    lemma_in_order_unfolded(nodes, 0);
    assert(nodes.skip(0) =~= nodes);
    lemma_fold_factorials_order(nodes, none, level);
    match fold_factorials(nodes, none, level) {
        Ok(a) => {
            assert(in_order(none, 0) + in_order(nodes, 0) =~= in_order(nodes, 0));
            lemma_fold_prefixes_order(a, none, level);
            match fold_prefixes(a, none, level) {
                Ok(b) => {
                    assert(in_order(a, 0) + in_order(none, 0) =~= in_order(a, 0));
                    lemma_fold_tiers_order(b, 0, level);
                },
                Err(_) => {},
            }
        },
        Err(_) => {},
    }
}

/// Whether `n` has exactly `count` nodes below it.
pub open spec fn has_operands(n: NodeView, count: nat) -> bool {
    n.children matches Some(c) && c.len() == count
}

/// Every postfix `!` among `nodes` has one operand.
pub open spec fn factorials_done(nodes: Seq<NodeView>) -> bool {
    forall|i: int|
        0 <= i < nodes.len() ==> (is_factorial((#[trigger] nodes[i]).token) ==> has_operands(
            nodes[i],
            1,
        ))
}

/// Every prefix operator and unary function among `nodes` has one operand.
pub open spec fn prefixes_done(nodes: Seq<NodeView>) -> bool {
    forall|i: int|
        0 <= i < nodes.len() ==> (is_prefix((#[trigger] nodes[i]).token) ==> has_operands(
            nodes[i],
            1,
        ))
}

/// Every binary operator among `nodes` of a tier tighter than `tier` has two
/// operands.
pub open spec fn tiers_done(nodes: Seq<NodeView>, tier: int) -> bool {
    forall|i: int, k: int|
        0 <= i < nodes.len() && 0 <= k < tier ==> (#[trigger] is_binary_of_tier(
            (#[trigger] nodes[i]).token,
            k,
        ) ==> has_operands(nodes[i], 2))
}

/// Every operator and unary function among `nodes` has its operands: one
/// below a postfix `!`, a prefix operator or a unary function, two below a
/// binary operator of any tier.
pub open spec fn tops_folded(nodes: Seq<NodeView>) -> bool {
    factorials_done(nodes) && prefixes_done(nodes) && tiers_done(nodes, 10)
}

/// Folding the postfix `!` leaves none without its operand.
pub proof fn lemma_fold_factorials_done(rest: Seq<NodeView>, done: Seq<NodeView>, level: usize)
    requires
        factorials_done(done),
    ensures
        fold_factorials(rest, done, level) matches Ok(r) ==> factorials_done(r),
    decreases rest.len(),
{
    if rest.len() > 0 {
        let first = rest[0];
        let tail = rest.drop_first();
        if is_factorial(first.token) {
            if done.len() > 0 && fits_below(seq![done.last()], level) {
                let folded = adopt(first, seq![done.last()]);
                let next = done.drop_last().push(folded);
                assert forall|k: int| 0 <= k < next.len() - 1 implies #[trigger] next[k]
                    == done[k] by {}
                assert(has_operands(folded, 1));
                lemma_fold_factorials_done(tail, next, level);
            }
        } else {
            let next = done.push(first);
            assert forall|k: int| 0 <= k < next.len() - 1 implies #[trigger] next[k]
                == done[k] by {}
            lemma_fold_factorials_done(tail, next, level);
        }
    }
}

/// Folding the prefix operators and unary functions leaves none without its
/// operand, and no postfix `!` either.
pub proof fn lemma_fold_prefixes_done(rest: Seq<NodeView>, done: Seq<NodeView>, level: usize)
    requires
        factorials_done(rest),
        factorials_done(done),
        prefixes_done(done),
    ensures
        fold_prefixes(rest, done, level) matches Ok(r) ==> factorials_done(r) && prefixes_done(r),
    decreases rest.len(),
{
    if rest.len() > 0 {
        let last = rest.last();
        let head = rest.drop_last();
        assert forall|k: int| 0 <= k < head.len() implies #[trigger] head[k] == rest[k] by {}
        if is_prefix(last.token) {
            if done.len() > 0 && fits_below(seq![done[0]], level) {
                let folded = adopt(last, seq![done[0]]);
                let next = seq![folded] + done.drop_first();
                assert forall|k: int| 1 <= k < next.len() implies #[trigger] next[k]
                    == done[k] by {}
                assert(has_operands(folded, 1));
                lemma_fold_prefixes_done(head, next, level);
            }
        } else {
            let next = seq![last] + done;
            assert forall|k: int| 1 <= k < next.len() implies #[trigger] next[k] == done[k
                - 1] by {}
            lemma_fold_prefixes_done(head, next, level);
        }
    }
}

/// Folding the binary operators of one tier leaves none of them without its
/// operands, and none of what was folded before.
pub proof fn lemma_fold_tier_done(
    rest: Seq<NodeView>,
    done: Seq<NodeView>,
    tier: int,
    level: usize,
)
    requires
        factorials_done(rest),
        factorials_done(done),
        prefixes_done(rest),
        prefixes_done(done),
        tiers_done(rest, tier),
        tiers_done(done, tier + 1),
    ensures
        fold_tier(rest, done, tier, level) matches Ok(r) ==> factorials_done(r) && prefixes_done(
            r,
        ) && tiers_done(r, tier + 1),
    decreases rest.len(),
{
    if rest.len() > 0 {
        let last = rest.last();
        if is_binary_of_tier(last.token, tier) {
            if rest.len() > 1 && done.len() > 0 && fits_below(
                seq![rest[rest.len() - 2], done[0]],
                level,
            ) {
                let folded = adopt(last, seq![rest[rest.len() - 2], done[0]]);
                let head = rest.take(rest.len() - 2);
                let next = seq![folded] + done.drop_first();
                assert forall|k: int| 0 <= k < head.len() implies #[trigger] head[k]
                    == rest[k] by {}
                assert forall|k: int| 1 <= k < next.len() implies #[trigger] next[k]
                    == done[k] by {}
                assert(has_operands(folded, 2));
                assert(tiers_done(head, tier));
                assert(tiers_done(next, tier + 1));
                lemma_fold_tier_done(head, next, tier, level);
            }
        } else {
            let head = rest.drop_last();
            let next = seq![last] + done;
            assert forall|k: int| 0 <= k < head.len() implies #[trigger] head[k] == rest[k] by {}
            assert forall|k: int| 1 <= k < next.len() implies #[trigger] next[k] == done[k
                - 1] by {}
            assert(tiers_done(head, tier));
            assert(tiers_done(next, tier + 1));
            lemma_fold_tier_done(head, next, tier, level);
        }
    }
}

/// Folding the binary operators tier by tier leaves none of them without
/// its operands, and none of what was folded before.
pub proof fn lemma_fold_tiers_done(nodes: Seq<NodeView>, tier: int, level: usize)
    requires
        0 <= tier <= 10,
        factorials_done(nodes),
        prefixes_done(nodes),
        tiers_done(nodes, tier),
    ensures
        fold_tiers(nodes, tier, level) matches Ok(r) ==> tops_folded(r),
    decreases 10 - tier,
{
    if tier < 10 {
        lemma_fold_tier_done(nodes, Seq::empty(), tier, level);
        match fold_tier(nodes, Seq::empty(), tier, level) {
            Ok(folded) => {
                lemma_fold_tiers_done(folded, tier + 1, level);
            },
            Err(_) => {},
        }
    }
}

/// Folding leaves no operator at the top without its operands: in the
/// folded tree every postfix `!`, prefix operator and unary function among
/// the top nodes has one operand and every binary operator two. Below the
/// top an operator can stay without: one that became the operand of another
/// before its own turn came.
pub proof fn law_folding_gives_operands(nodes: Seq<NodeView>, level: usize)
    ensures
        incorporated(nodes, level) matches Ok(r) ==> tops_folded(r),
{
    let none = Seq::<NodeView>::empty();
    lemma_fold_factorials_done(nodes, none, level);
    match fold_factorials(nodes, none, level) {
        Ok(a) => {
            lemma_fold_prefixes_done(a, none, level);
            match fold_prefixes(a, none, level) {
                Ok(b) => {
                    lemma_fold_tiers_done(b, 0, level);
                },
                Err(_) => {},
            }
        },
        Err(_) => {},
    }
}

} // verus!

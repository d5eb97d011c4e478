//! The syntax tree: leveled sequences of nodes.
use vstd::prelude::*;
use vstd::std_specs::iter::IteratorSpec;
use crate::tokens::{Token, TokenView};
use crate::values::{Value, ValueView};

verus! {

/// A sequence of nodes at one nesting level. Level 0 is the top.
pub struct Ast {
    pub nodes: Vec<AstNode>,
    pub level: usize,
}

/// A node: a token, the operands or inner expression below it, if any, and
/// the value that evaluation gave it, if any.
pub struct AstNode {
    pub token: Token,
    pub subtree: Option<Ast>,
    pub value: Option<Value>,
}

/// The shape and content of a node, without the levels.
pub ghost struct NodeView {
    pub token: TokenView,
    pub children: Option<Seq<NodeView>>,
    pub value: Option<ValueView>,
}

/// The view of a node.
pub open spec fn node_view(n: AstNode) -> NodeView
    decreases n,
{
    NodeView {
        token: n.token@,
        children: match n.subtree {
            Some(t) => Some(ast_view(t)),
            None => None,
        },
        value: match n.value {
            Some(v) => Some(v@),
            None => None,
        },
    }
}

/// The views of the nodes of a tree, in order.
pub open spec fn ast_view(t: Ast) -> Seq<NodeView>
    decreases t,
{
    Seq::new(
        t.nodes.len() as nat,
        |i: int|
            if 0 <= i < t.nodes.len() {
                node_view(t.nodes[i])
            } else {
                arbitrary()
            },
    )
}

impl View for AstNode {
    type V = NodeView;

    open spec fn view(&self) -> NodeView {
        node_view(*self)
    }
}

impl View for Ast {
    type V = Seq<NodeView>;

    open spec fn view(&self) -> Seq<NodeView> {
        ast_view(*self)
    }
}

/// Every subtree stands one level below the sequence that holds its node.
pub open spec fn levels_ok(t: Ast) -> bool
    decreases t,
{
    forall|i: int|
        0 <= i < t.nodes.len() ==> ((#[trigger] t.nodes[i]).subtree matches Some(s) ==> s.level
            == t.level + 1 && levels_ok(s))
}

/// What is below `node`, if anything, stands one level below `level`, with
/// consistent levels of its own.
pub open spec fn node_levels_ok(node: AstNode, level: usize) -> bool {
    node.subtree matches Some(s) ==> s.level == level + 1 && levels_ok(s)
}

/// What is below each of `nodes` stands one level below `level`.
pub open spec fn nodes_levels_ok(nodes: Seq<AstNode>, level: usize) -> bool {
    forall|i: int| 0 <= i < nodes.len() ==> node_levels_ok(#[trigger] nodes[i], level)
}

/// No chain of nested subtrees below `nodes` is longer than `budget`.
pub open spec fn depth_within(nodes: Seq<NodeView>, budget: int) -> bool
    decreases nodes,
{
    forall|i: int|
        0 <= i < nodes.len() ==> ((#[trigger] nodes[i]).children matches Some(c) ==> budget >= 1
            && depth_within(c, budget - 1))
}

/// A node that has operands has as many as its kind takes, one for a unary
/// operator or function and two for a binary one, and so has every node
/// below it.
pub open spec fn node_arity_ok(node: NodeView) -> bool
    decreases node,
{
    node.children matches Some(c) ==> {
        &&& node.token.type_.spec_is_unary() ==> c.len() == 1
        &&& node.token.type_.spec_is_binary() ==> c.len() == 2
        &&& arity_ok(c)
    }
}

/// Every node of `nodes`, and every node below one, that has operands has as
/// many as its kind takes.
pub open spec fn arity_ok(nodes: Seq<NodeView>) -> bool
    decreases nodes,
{
    forall|i: int| 0 <= i < nodes.len() ==> node_arity_ok(#[trigger] nodes[i])
}

impl Default for Ast {
    fn default() -> (t: Ast)
        ensures
            t@ == Seq::<NodeView>::empty(),
            t.level == 0,
            levels_ok(t),
    {
        Ast::new()
    }
}

impl AstNode {
    /// A node without operands and without a value.
    pub fn new_from_token(token: Token) -> (n: AstNode)
        ensures
            n@ == (NodeView { token: token@, children: None, value: None }),
            n.subtree is None,
    {
        AstNode { token, subtree: None, value: None }
    }

    /// A node above `subtree`, without a value. The level of `subtree` is
    /// left as it is.
    pub fn new_with_subtree(token: Token, subtree: Ast) -> (n: AstNode)
        ensures
            n@ == (NodeView { token: token@, children: Some(subtree@), value: None }),
            n.subtree == Some(subtree),
    {
        AstNode { token, subtree: Some(subtree), value: None }
    }

    /// Whether the node has a subtree.
    pub fn has_subtree(&self) -> (b: bool)
        ensures
            b == self.subtree is Some,
            b == self@.children is Some,
    {
        self.subtree.is_some()
    }

    /// Puts `subtree` below the node, in place of what was there. The level
    /// of `subtree` is left as it is.
    pub fn set_subtree(&mut self, subtree: Ast)
        ensures
            final(self)@ == (NodeView { children: Some(subtree@), ..old(self)@ }),
            final(self).subtree == Some(subtree),
            final(self).token == old(self).token,
            final(self).value == old(self).value,
            final(self)@.value == old(self)@.value,
    {
        self.subtree = Some(subtree);
    }
}

impl Ast {
    /// The empty tree at level 0.
    pub fn new() -> (t: Ast)
        ensures
            t@ == Seq::<NodeView>::empty(),
            t.level == 0,
            levels_ok(t),
    {
        let t = Ast { nodes: Vec::new(), level: 0 };
        assert(t@ =~= Seq::<NodeView>::empty());
        t
    }

    /// The tree at level 0 that holds `nodes`, with what is below them moved
    /// to the levels below.
    pub fn from_nodes(nodes: Vec<AstNode>) -> (t: Ast)
        requires
            depth_within(Seq::new(nodes.len() as nat, |i: int| nodes[i]@), usize::MAX as int),
        ensures
            t@ == Seq::new(nodes.len() as nat, |i: int| nodes[i]@),
            t.level == 0,
            levels_ok(t),
    {
        let mut t = Ast { nodes, level: 0 };
        assert(t@ =~= Seq::new(nodes.len() as nat, |i: int| nodes[i]@));
        t.relevel_from(0);
        t
    }

    /// The tree at level 0 that holds `node` alone, with what is below it
    /// moved to the levels below.
    pub fn from_node(node: AstNode) -> (t: Ast)
        requires
            depth_within(seq![node@], usize::MAX as int),
        ensures
            t@ == seq![node@],
            t.level == 0,
            levels_ok(t),
    {
        let mut t = Ast::new();
        t.push(node);
        assert(t@ =~= seq![node@]);
        t
    }

    /// The nesting level of the sequence.
    pub fn level(&self) -> (l: usize)
        ensures
            l == self.level,
    {
        self.level
    }

    /// The number of nodes in the sequence, not counting what is below them.
    pub fn len(&self) -> (n: usize)
        ensures
            n == self@.len(),
            n == self.nodes.len(),
    {
        self.nodes.len()
    }

    /// Appends a node without operands that holds `token`.
    pub fn push_token(&mut self, token: Token)
        ensures
            final(self)@ == old(self)@.push(NodeView { token: token@, children: None, value: None }),
            final(self).level == old(self).level,
            levels_ok(*old(self)) ==> levels_ok(*final(self)),
    {
        let node = AstNode::new_from_token(token);
        self.nodes.push(node);
        assert(self@ =~= old(self)@.push(node@));
        assert(levels_ok(*old(self)) ==> levels_ok(*self)) by {
            if levels_ok(*old(self)) {
                assert forall|i: int| 0 <= i < self.nodes.len() implies ((
                #[trigger] self.nodes[i]).subtree matches Some(s) ==> s.level == self.level + 1
                    && levels_ok(s)) by {
                    if i < old(self).nodes.len() {
                        assert(self.nodes[i] == old(self).nodes[i]);
                    }
                }
            }
        }
    }

    /// Appends `item`, with what is below it moved to the level below this
    /// sequence.
    pub fn push(&mut self, item: AstNode)
        requires
            depth_within(seq![item@], usize::MAX - old(self).level),
        ensures
            final(self)@ == old(self)@.push(item@),
            final(self).level == old(self).level,
            levels_ok(*old(self)) ==> levels_ok(*final(self)),
    {
        let mut item = item;
        let ghost item_view = item@;
        assert(seq![item_view][0] == item_view);
        match &mut item.subtree {
            Some(s) => {
                s.relevel_from(self.level + 1);
            },
            None => {},
        }
        assert(item@ == item_view);
        self.nodes.push(item);
        assert(self@ =~= old(self)@.push(item_view));
        assert(levels_ok(*old(self)) ==> levels_ok(*self)) by {
            if levels_ok(*old(self)) {
                assert forall|i: int| 0 <= i < self.nodes.len() implies ((
                #[trigger] self.nodes[i]).subtree matches Some(s) ==> s.level == self.level + 1
                    && levels_ok(s)) by {
                    if i < old(self).nodes.len() {
                        assert(self.nodes[i] == old(self).nodes[i]);
                    }
                }
            }
        }
    }

    /// Appends a node that holds `token` above `subtree`, moved to the level
    /// below this sequence.
    pub fn push_subtree(&mut self, token: Token, subtree: Ast)
        requires
            old(self).level < usize::MAX,
            depth_within(subtree@, usize::MAX - old(self).level - 1),
        ensures
            final(self)@ == old(self)@.push(
                NodeView { token: token@, children: Some(subtree@), value: None },
            ),
            final(self).level == old(self).level,
            levels_ok(*old(self)) ==> levels_ok(*final(self)),
    {
        let node = AstNode::new_with_subtree(token, subtree);
        assert(seq![node@][0] == node@);
        self.push(node);
    }

    /// The last node of the sequence, if there is one.
    pub fn last(&self) -> (r: Option<&AstNode>)
        ensures
            r is Some == (self@.len() > 0),
            r matches Some(n) ==> *n == self.nodes[self.nodes.len() - 1] && n@ == self@.last(),
    {
        let n = self.nodes.len();
        if n == 0 {
            None
        } else {
            Some(&self.nodes[n - 1])
        }
    }

    /// An iterator over the nodes of the sequence, in order.
    pub fn iter(&self) -> (it: std::slice::Iter<'_, AstNode>)
        ensures
            it.remaining() == self.nodes@.as_ref(),
    {
        broadcast use vstd::std_specs::slice::axiom_spec_slice_iter;

        self.nodes.iter()
    }

    /// The node at index `i`.
    pub fn get(&self, i: usize) -> (n: &AstNode)
        requires
            i < self@.len(),
        ensures
            *n == self.nodes[i as int],
            n@ == self@[i as int],
    {
        &self.nodes[i]
    }

    /// Sets the level of the sequence to `base_level` and the levels of all
    /// that is below it accordingly, as far as levels can be counted. Returns
    /// whether they could: whether the tree is no deeper than the levels
    /// above `base_level`.
    pub fn try_relevel_from(&mut self, base_level: usize) -> (ok: bool)
        ensures
            final(self)@ == old(self)@,
            ok == depth_within(old(self)@, usize::MAX - base_level),
            final(self).level == base_level,
            ok ==> levels_ok(*final(self)),
        decreases *old(self),
    {
        self.level = base_level;
        let n = self.nodes.len();
        let mut i: usize = 0;
        while i < n
            invariant
                i <= n,
                n == self.nodes.len(),
                n == old(self).nodes.len(),
                self.level == base_level,
                forall|j: int| i <= j < n ==> self.nodes[j] == old(self).nodes[j],
                forall|j: int| 0 <= j < i ==> node_view(self.nodes[j]) == node_view(old(self).nodes[j]),
                forall|j: int|
                    0 <= j < i ==> ((#[trigger] self.nodes[j]).subtree matches Some(s) ==> s.level
                        == base_level + 1 && levels_ok(s)),
                forall|j: int|
                    0 <= j < i ==> ((#[trigger] old(self)@[j]).children matches Some(c)
                        ==> usize::MAX - base_level >= 1 && depth_within(
                        c,
                        usize::MAX - base_level - 1,
                    )),
            decreases n - i,
        {
            let ghost before = node_view(self.nodes[i as int]);
            assert(old(self)@[i as int] == before);
            let node = &mut self.nodes[i];
            match &mut node.subtree {
                Some(s) => {
                    if base_level == usize::MAX {
                        assert(self@ =~= old(self)@);
                        return false;
                    }
                    proof {
                        assert(decreases_to!(old(self).nodes => old(self).nodes[i as int]));
                    }
                    let fits = s.try_relevel_from(base_level + 1);
                    if !fits {
                        assert(self@ =~= old(self)@);
                        return false;
                    }
                },
                None => {},
            }
            assert(node_view(self.nodes[i as int]) == before);
            i += 1;
        }
        assert(self@ =~= old(self)@);
        true
    }

    /// Sets the level of the sequence to `base_level` and the levels of all
    /// that is below it accordingly.
    pub fn relevel_from(&mut self, base_level: usize)
        requires
            depth_within(old(self)@, usize::MAX - base_level),
        ensures
            final(self)@ == old(self)@,
            final(self).level == base_level,
            levels_ok(*final(self)),
    {
        let ok = self.try_relevel_from(base_level);
        assert(ok);
    }
}

} // verus!

//! Syntax trees: what the parsers produce and the chunkers read.
use vstd::prelude::*;
use crate::span::Span;
use crate::text::{is_slice, slice_ok};
use vstd::utf8::valid_utf8;

verus! {

/// What a syntax node stands for.
#[derive(Debug, Clone, Copy, PartialEq, Eq, Structural)]
pub enum SyntaxKind {
    Root,
    Object,
    Array,
    Property,
    String,
    Number,
    Boolean,
    Null,
    Function,
    Identifier,
    Call,
    Block,
}

/// A node of a syntax tree: its kind, the source range it covers, an optional
/// name (a key, a declared name) and its children in source order.
#[derive(Debug, PartialEq, Eq)]
pub struct SyntaxNode {
    pub kind: SyntaxKind,
    pub span: Span,
    pub name: Option<String>,
    pub children: Vec<SyntaxNode>,
}

/// The mathematical value of a syntax node: names are character sequences and
/// children a sequence of such values.
pub struct SpecNode {
    pub kind: SyntaxKind,
    pub span: Span,
    pub name: Option<Seq<char>>,
    pub children: Seq<SpecNode>,
}

pub open spec fn opt_string_view(s: Option<String>) -> Option<Seq<char>> {
    match s {
        Some(s) => Some(s@),
        None => None,
    }
}

/// The value of a syntax node.
pub open spec fn node_view(n: SyntaxNode) -> SpecNode
    decreases n,
{
    SpecNode {
        kind: n.kind,
        span: n.span,
        name: opt_string_view(n.name),
        children: Seq::new(
            n.children@.len(),
            |i: int|
                if 0 <= i < n.children@.len() {
                    node_view(n.children@[i])
                } else {
                    arbitrary()
                },
        ),
    }
}

/// The values of a sequence of syntax nodes.
pub open spec fn nodes_view(v: Seq<SyntaxNode>) -> Seq<SpecNode> {
    Seq::new(v.len(), |i: int| node_view(v[i]))
}

/// A node's value is built from its own fields and its children's values.
pub broadcast proof fn lemma_node_view(n: SyntaxNode)
    ensures
        #[trigger] node_view(n) == (SpecNode {
            kind: n.kind,
            span: n.span,
            name: opt_string_view(n.name),
            children: nodes_view(n.children@),
        }),
{
    assert(node_view(n).children =~= nodes_view(n.children@));
}

/// A node without children.
pub open spec fn leaf(kind: SyntaxKind, span: Span, name: Option<Seq<char>>) -> SpecNode {
    SpecNode { kind, span, name, children: seq![] }
}

/// The value of an optional syntax node.
pub open spec fn opt_node_view(o: Option<SyntaxNode>) -> Option<SpecNode> {
    match o {
        Some(n) => Some(node_view(n)),
        None => None,
    }
}

/// The node reached from `n` by following the child indices in `path`.
pub open spec fn node_at(n: SpecNode, path: Seq<int>) -> Option<SpecNode>
    decreases path.len(),
{
    if path.len() == 0 {
        Some(n)
    } else if 0 <= path[0] < n.children.len() {
        node_at(n.children[path[0]], path.drop_first())
    } else {
        None
    }
}

/// `m` is the node `n` or a node below it.
pub open spec fn in_tree(m: SpecNode, n: SpecNode) -> bool {
    exists|path: Seq<int>| #[trigger] node_at(n, path) == Some(m)
}

/// A node is in its own tree.
pub proof fn lemma_in_tree_self(n: SpecNode)
    ensures
        in_tree(n, n),
{
    assert(node_at(n, seq![]) == Some(n));
}

/// A node below a child of `n` is below `n`.
pub proof fn lemma_in_tree_child(m: SpecNode, n: SpecNode, i: int)
    requires
        0 <= i < n.children.len(),
        in_tree(m, n.children[i]),
    ensures
        in_tree(m, n),
{
    let p = choose|path: Seq<int>| #[trigger] node_at(n.children[i], path) == Some(m);
    let q = seq![i] + p;
    assert(q.drop_first() =~= p);
    assert(node_at(n, q) == Some(m));
}

/// A node of the tree `n` is `n` itself or a node of one of its children.
pub proof fn lemma_in_tree_cases(m: SpecNode, n: SpecNode)
    requires
        in_tree(m, n),
    ensures
        m == n || exists|i: int| 0 <= i < n.children.len() && #[trigger] in_tree(m, n.children[i]),
{
    let p = choose|path: Seq<int>| #[trigger] node_at(n, path) == Some(m);
    if p.len() > 0 {
        let i = p[0];
        assert(node_at(n.children[i], p.drop_first()) == Some(m));
        assert(in_tree(m, n.children[i]));
    }
}

/// Every node below a child of `n` is below `top` when every node below `n`
/// is.
pub proof fn lemma_children_below(n: SpecNode, top: SpecNode)
    requires
        forall|m: SpecNode| #[trigger] in_tree(m, n) ==> in_tree(m, top),
    ensures
        forall|j: int, m: SpecNode| 0 <= j < n.children.len() && #[trigger] in_tree(m, n.children[j]) ==> in_tree(m, top),
{
    assert forall|j: int, m: SpecNode| 0 <= j < n.children.len() && #[trigger] in_tree(m, n.children[j]) implies in_tree(m, top) by {
        lemma_in_tree_child(m, n, j);
    }
}

/// Every node of the tree `n` covers whole characters of `b`.
pub open spec fn spans_sliceable(n: SpecNode, b: Seq<u8>) -> bool
    decreases n,
{
    &&& is_slice(b, n.span.start as int, n.span.end as int)
    &&& forall|i: int| 0 <= i < n.children.len() ==> spans_sliceable(#[trigger] n.children[i], b)
}

/// Whether every node of the tree `node` covers whole characters of `bytes`.
pub fn node_spans_ok(node: &SyntaxNode, bytes: &[u8]) -> (r: bool)
    requires
        valid_utf8(bytes@),
    ensures
        r == spans_sliceable(node_view(*node), bytes@),
    decreases node,
{
    proof {
        lemma_node_view(*node);
    }
    if !slice_ok(bytes, node.span.start, node.span.end) {
        return false;
    }
    let mut i: usize = 0;
    while i < node.children.len()
        invariant
            i <= node.children@.len(),
            valid_utf8(bytes@),
            node_view(*node).children == nodes_view(node.children@),
            forall|j: int| 0 <= j < i ==> spans_sliceable(node_view(#[trigger] node.children@[j]), bytes@),
        decreases node.children@.len() - i,
    {
        if !node_spans_ok(&node.children[i], bytes) {
            assert(nodes_view(node.children@)[i as int] == node_view(node.children@[i as int]));
            assert(!spans_sliceable(node_view(*node).children[i as int], bytes@));
            return false;
        }
        i += 1;
    }
    assert forall|j: int| 0 <= j < nodes_view(node.children@).len() implies spans_sliceable(
        #[trigger] nodes_view(node.children@)[j],
        bytes@,
    ) by {
        assert(nodes_view(node.children@)[j] == node_view(node.children@[j]));
    }
    true
}

impl Clone for SyntaxNode {
    /// A deep copy: the same kind, span, name and children.
    fn clone(&self) -> (c: Self)
        ensures
            node_view(c) == node_view(*self),
        decreases self,
    {
        let mut children: Vec<SyntaxNode> = Vec::new();
        let mut i: usize = 0;
        while i < self.children.len()
            invariant
                i <= self.children@.len(),
                children@.len() == i,
                forall|j: int| 0 <= j < i ==> node_view(#[trigger] children@[j]) == node_view(self.children@[j]),
            decreases self.children@.len() - i,
        {
            let child = self.children[i].clone();
            children.push(child);
            i += 1;
        }
        let name = match &self.name {
            Some(n) => Some(n.clone()),
            None => None,
        };
        let c = SyntaxNode { kind: self.kind, span: self.span, name, children };
        assert(nodes_view(c.children@) =~= nodes_view(self.children@));
        assert(opt_string_view(c.name) == opt_string_view(self.name));
        proof {
            lemma_node_view(c);
            lemma_node_view(*self);
        }
        c
    }
}

} // verus!

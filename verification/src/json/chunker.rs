//! Cuts a JSON syntax tree into chunks.
use vstd::prelude::*;
use vstd::string::StringExecFns;
use crate::chunk::{chunks_view, ChunkKind, CodeChunk};
use crate::chunking::{
    all_renderable, before_last, lemma_renderable_join, lemma_slice_renderable, before_last_bracket, dotted, dotted_path, indexed, indexed_path,
    lemma_render_concat, lemma_renderable_prefix, make_chunk, opt_str_view, render_all, renderable, RawChunk,
};
use crate::language::Language;
use crate::path::ChunkPath;
use crate::source::Source;
use crate::syntax::{in_tree, lemma_children_below, lemma_in_tree_cases, lemma_in_tree_self, lemma_node_view, node_view, nodes_view, opt_string_view, spans_sliceable, SpecNode, SyntaxKind, SyntaxNode};
use crate::json::syntax::{json_parse, json_shaped, lemma_json_parse_shape, JsonHalt};
use crate::json::token::Token;

verus! {

broadcast use {vstd::seq::group_seq_axioms, lemma_node_view};

/// The chunks of the subtree `n`, whose parent is named `parent` and sits at
/// path `pp`: a named object gives an object chunk at `pp.name`; an unnamed
/// object under a path gives an object chunk at that path, whose parent path
/// is what precedes the path's last `'['`; a named array gives an array chunk;
/// the items of an array get the paths `ap[i]`; other nodes give only the
/// chunks of their children.
pub open spec fn jc_visit(n: SpecNode, parent: Option<Seq<char>>, pp: Option<Seq<char>>) -> Seq<RawChunk>
    decreases n,
{
    if n.kind == SyntaxKind::Object {
        match n.name {
            None => {
                let own = match pp {
                    Some(path) => seq![
                        RawChunk {
                            kind: ChunkKind::Object,
                            name: parent,
                            parent: before_last(path, '['),
                            path: Some(path),
                            span: n.span,
                        },
                    ],
                    None => seq![],
                };
                own + jc_list(n.children, parent, pp)
            },
            Some(name) => {
                let path = dotted(pp, name);
                seq![
                    RawChunk {
                        kind: ChunkKind::Object,
                        name: Some(name),
                        parent,
                        path: Some(path),
                        span: n.span,
                    },
                ] + jc_list(n.children, Some(name), Some(path))
            },
        }
    } else if n.kind == SyntaxKind::Array {
        match n.name {
            None => jc_items(n.children, None),
            Some(name) => {
                let path = dotted(pp, name);
                seq![
                    RawChunk {
                        kind: ChunkKind::Array,
                        name: Some(name),
                        parent,
                        path: Some(path),
                        span: n.span,
                    },
                ] + jc_items(n.children, Some(path))
            },
        }
    } else {
        jc_list(n.children, parent, pp)
    }
}

/// The chunks of the nodes `cs`, in order, all under the same parent.
pub open spec fn jc_list(cs: Seq<SpecNode>, parent: Option<Seq<char>>, pp: Option<Seq<char>>) -> Seq<RawChunk>
    decreases cs,
{
    if cs.len() == 0 {
        seq![]
    } else {
        jc_list(cs.drop_last(), parent, pp) + jc_visit(cs.last(), parent, pp)
    }
}

/// The chunks of the items `cs` of an array at path `ap`: item `i` is visited
/// with `ap[i]` as both its parent and its path.
pub open spec fn jc_items(cs: Seq<SpecNode>, ap: Option<Seq<char>>) -> Seq<RawChunk>
    decreases cs,
{
    if cs.len() == 0 {
        seq![]
    } else {
        let path = indexed(ap, (cs.len() - 1) as nat);
        jc_items(cs.drop_last(), ap) + jc_visit(cs.last(), Some(path), Some(path))
    }
}

/// The chunks of a JSON syntax tree: a file chunk for the root, then those
/// of the tree.
pub open spec fn json_raw_chunks(root: SpecNode) -> Seq<RawChunk> {
    seq![RawChunk { kind: ChunkKind::File, name: None, parent: None, path: None, span: root.span }]
        + jc_visit(root, None, None)
}

proof fn lemma_jc_visit_renderable(n: SpecNode, parent: Option<Seq<char>>, pp: Option<Seq<char>>, b: Seq<u8>)
    requires
        spans_sliceable(n, b),
        b.len() < usize::MAX,
    ensures
        all_renderable(jc_visit(n, parent, pp), b),
    decreases n,
{
    if n.kind == SyntaxKind::Object {
        match n.name {
            None => {
                lemma_jc_list_renderable(n.children, parent, pp, b);
                let own = match pp {
                    Some(path) => seq![
                        RawChunk {
                            kind: ChunkKind::Object,
                            name: parent,
                            parent: before_last(path, '['),
                            path: Some(path),
                            span: n.span,
                        },
                    ],
                    None => seq![],
                };
                if own.len() > 0 {
                    lemma_slice_renderable(own[0], b);
                }
                lemma_renderable_join(own, jc_list(n.children, parent, pp), b);
            },
            Some(name) => {
                let path = dotted(pp, name);
                lemma_jc_list_renderable(n.children, Some(name), Some(path), b);
                let own = seq![
                    RawChunk { kind: ChunkKind::Object, name: Some(name), parent, path: Some(path), span: n.span },
                ];
                lemma_slice_renderable(own[0], b);
                lemma_renderable_join(own, jc_list(n.children, Some(name), Some(path)), b);
            },
        }
    } else if n.kind == SyntaxKind::Array {
        match n.name {
            None => {
                lemma_jc_items_renderable(n.children, None, b);
            },
            Some(name) => {
                let path = dotted(pp, name);
                lemma_jc_items_renderable(n.children, Some(path), b);
                let own = seq![
                    RawChunk { kind: ChunkKind::Array, name: Some(name), parent, path: Some(path), span: n.span },
                ];
                lemma_slice_renderable(own[0], b);
                lemma_renderable_join(own, jc_items(n.children, Some(path)), b);
            },
        }
    } else {
        lemma_jc_list_renderable(n.children, parent, pp, b);
    }
}

proof fn lemma_jc_list_renderable(cs: Seq<SpecNode>, parent: Option<Seq<char>>, pp: Option<Seq<char>>, b: Seq<u8>)
    requires
        forall|i: int| 0 <= i < cs.len() ==> spans_sliceable(#[trigger] cs[i], b),
        b.len() < usize::MAX,
    ensures
        all_renderable(jc_list(cs, parent, pp), b),
    decreases cs,
{
    if cs.len() > 0 {
        assert(cs.last() == cs[cs.len() - 1]);
        assert forall|i: int| 0 <= i < cs.drop_last().len() implies spans_sliceable(#[trigger] cs.drop_last()[i], b) by {
            assert(cs.drop_last()[i] == cs[i]);
        }
        lemma_jc_list_renderable(cs.drop_last(), parent, pp, b);
        lemma_jc_visit_renderable(cs.last(), parent, pp, b);
        lemma_renderable_join(jc_list(cs.drop_last(), parent, pp), jc_visit(cs.last(), parent, pp), b);
    }
}

proof fn lemma_jc_items_renderable(cs: Seq<SpecNode>, ap: Option<Seq<char>>, b: Seq<u8>)
    requires
        forall|i: int| 0 <= i < cs.len() ==> spans_sliceable(#[trigger] cs[i], b),
        b.len() < usize::MAX,
    ensures
        all_renderable(jc_items(cs, ap), b),
    decreases cs,
{
    if cs.len() > 0 {
        assert(cs.last() == cs[cs.len() - 1]);
        assert forall|i: int| 0 <= i < cs.drop_last().len() implies spans_sliceable(#[trigger] cs.drop_last()[i], b) by {
            assert(cs.drop_last()[i] == cs[i]);
        }
        let path = indexed(ap, (cs.len() - 1) as nat);
        lemma_jc_items_renderable(cs.drop_last(), ap, b);
        lemma_jc_visit_renderable(cs.last(), Some(path), Some(path), b);
        lemma_renderable_join(jc_items(cs.drop_last(), ap), jc_visit(cs.last(), Some(path), Some(path)), b);
    }
}

/// Every chunk of a tree whose nodes cover whole characters of a text that
/// fits in a `usize` can be rendered against that text.
pub proof fn lemma_json_chunks_renderable(tree: SpecNode, b: Seq<u8>)
    requires
        spans_sliceable(tree, b),
        b.len() < usize::MAX,
    ensures
        all_renderable(json_raw_chunks(tree), b),
{
    let file = seq![RawChunk { kind: ChunkKind::File, name: None, parent: None, path: None, span: tree.span }];
    lemma_slice_renderable(file[0], b);
    lemma_jc_visit_renderable(tree, None, None, b);
    lemma_renderable_join(file, jc_visit(tree, None, None), b);
}

/// The chunk `r` was made for a node of `top`: a node with the same span,
/// an object for an object chunk and an array for an array chunk.
pub open spec fn chunk_of_node(r: RawChunk, top: SpecNode) -> bool {
    exists|m: SpecNode|
        #[trigger] in_tree(m, top) && m.span == r.span && ((r.kind == ChunkKind::Object && m.kind == SyntaxKind::Object) || (
        r.kind == ChunkKind::Array && m.kind == SyntaxKind::Array))
}

pub open spec fn all_chunks_of_nodes(rs: Seq<RawChunk>, top: SpecNode) -> bool {
    forall|k: int| 0 <= k < rs.len() ==> chunk_of_node(#[trigger] rs[k], top)
}

proof fn lemma_nodes_concat(a: Seq<RawChunk>, c: Seq<RawChunk>, top: SpecNode)
    requires
        all_chunks_of_nodes(a, top),
        all_chunks_of_nodes(c, top),
    ensures
        all_chunks_of_nodes(a + c, top),
{
    assert forall|k: int| 0 <= k < (a + c).len() implies chunk_of_node(#[trigger] (a + c)[k], top) by {
        if k < a.len() {
            assert((a + c)[k] == a[k]);
        } else {
            assert((a + c)[k] == c[k - a.len()]);
        }
    }
}

proof fn lemma_jc_visit_nodes(n: SpecNode, parent: Option<Seq<char>>, pp: Option<Seq<char>>, top: SpecNode)
    requires
        forall|m: SpecNode| #[trigger] in_tree(m, n) ==> in_tree(m, top),
    ensures
        all_chunks_of_nodes(jc_visit(n, parent, pp), top),
    decreases n,
{
    lemma_in_tree_self(n);
    assert(in_tree(n, top));
    lemma_children_below(n, top);
    if n.kind == SyntaxKind::Object {
        match n.name {
            None => {
                lemma_jc_list_nodes(n.children, parent, pp, top);
                let own = match pp {
                    Some(path) => seq![
                        RawChunk {
                            kind: ChunkKind::Object,
                            name: parent,
                            parent: before_last(path, '['),
                            path: Some(path),
                            span: n.span,
                        },
                    ],
                    None => seq![],
                };
                if own.len() > 0 {
                    assert(chunk_of_node(own[0], top));
                }
                lemma_nodes_concat(own, jc_list(n.children, parent, pp), top);
            },
            Some(name) => {
                let path = dotted(pp, name);
                lemma_jc_list_nodes(n.children, Some(name), Some(path), top);
                let own = seq![
                    RawChunk { kind: ChunkKind::Object, name: Some(name), parent, path: Some(path), span: n.span },
                ];
                assert(chunk_of_node(own[0], top));
                lemma_nodes_concat(own, jc_list(n.children, Some(name), Some(path)), top);
            },
        }
    } else if n.kind == SyntaxKind::Array {
        match n.name {
            None => {
                lemma_jc_items_nodes(n.children, None, top);
            },
            Some(name) => {
                let path = dotted(pp, name);
                lemma_jc_items_nodes(n.children, Some(path), top);
                let own = seq![
                    RawChunk { kind: ChunkKind::Array, name: Some(name), parent, path: Some(path), span: n.span },
                ];
                assert(chunk_of_node(own[0], top));
                lemma_nodes_concat(own, jc_items(n.children, Some(path)), top);
            },
        }
    } else {
        lemma_jc_list_nodes(n.children, parent, pp, top);
    }
}

proof fn lemma_jc_list_nodes(cs: Seq<SpecNode>, parent: Option<Seq<char>>, pp: Option<Seq<char>>, top: SpecNode)
    requires
        forall|j: int, m: SpecNode| 0 <= j < cs.len() && #[trigger] in_tree(m, cs[j]) ==> in_tree(m, top),
    ensures
        all_chunks_of_nodes(jc_list(cs, parent, pp), top),
    decreases cs,
{
    if cs.len() > 0 {
        let last = cs.len() - 1;
        assert(cs.last() == cs[last]);
        assert forall|j: int, m: SpecNode| 0 <= j < cs.drop_last().len() && #[trigger] in_tree(m, cs.drop_last()[j]) implies in_tree(m, top) by {
            assert(cs.drop_last()[j] == cs[j]);
        }
        assert forall|m: SpecNode| #[trigger] in_tree(m, cs.last()) implies in_tree(m, top) by {
            assert(in_tree(m, cs[last]));
        }
        lemma_jc_list_nodes(cs.drop_last(), parent, pp, top);
        lemma_jc_visit_nodes(cs.last(), parent, pp, top);
        lemma_nodes_concat(jc_list(cs.drop_last(), parent, pp), jc_visit(cs.last(), parent, pp), top);
    }
}

proof fn lemma_jc_items_nodes(cs: Seq<SpecNode>, ap: Option<Seq<char>>, top: SpecNode)
    requires
        forall|j: int, m: SpecNode| 0 <= j < cs.len() && #[trigger] in_tree(m, cs[j]) ==> in_tree(m, top),
    ensures
        all_chunks_of_nodes(jc_items(cs, ap), top),
    decreases cs,
{
    if cs.len() > 0 {
        let last = cs.len() - 1;
        assert(cs.last() == cs[last]);
        assert forall|j: int, m: SpecNode| 0 <= j < cs.drop_last().len() && #[trigger] in_tree(m, cs.drop_last()[j]) implies in_tree(m, top) by {
            assert(cs.drop_last()[j] == cs[j]);
        }
        assert forall|m: SpecNode| #[trigger] in_tree(m, cs.last()) implies in_tree(m, top) by {
            assert(in_tree(m, cs[last]));
        }
        let path = indexed(ap, last as nat);
        lemma_jc_items_nodes(cs.drop_last(), ap, top);
        lemma_jc_visit_nodes(cs.last(), Some(path), Some(path), top);
        lemma_nodes_concat(jc_items(cs.drop_last(), ap), jc_visit(cs.last(), Some(path), Some(path)), top);
    }
}

/// Every chunk of a JSON tree after the file chunk is made for a node of
/// the tree with the same span and the same kind: object chunks for object
/// nodes, array chunks for array nodes.
pub proof fn lemma_json_chunk_kinds(tree: SpecNode)
    ensures
        forall|i: int| 1 <= i < json_raw_chunks(tree).len() ==> chunk_of_node(#[trigger] json_raw_chunks(tree)[i], tree),
{
    lemma_jc_visit_nodes(tree, None, None, tree);
    let rest = jc_visit(tree, None, None);
    let all = json_raw_chunks(tree);
    assert forall|i: int| 1 <= i < all.len() implies chunk_of_node(#[trigger] all[i], tree) by {
        assert(all[i] == rest[i - 1]);
    }
}

/// The chunk `r` is the one for the named object or array `m`: it has `m`'s
/// name, span and kind.
pub open spec fn chunk_for_container(r: RawChunk, m: SpecNode) -> bool {
    &&& r.name == m.name
    &&& r.span == m.span
    &&& (m.kind == SyntaxKind::Object ==> r.kind == ChunkKind::Object)
    &&& (m.kind == SyntaxKind::Array ==> r.kind == ChunkKind::Array)
}

/// `m` is a named object or array.
pub open spec fn named_container(m: SpecNode) -> bool {
    m.name is Some && (m.kind == SyntaxKind::Object || m.kind == SyntaxKind::Array)
}

proof fn lemma_container_shift(a: Seq<RawChunk>, c: Seq<RawChunk>, m: SpecNode)
    requires
        exists|k: int| 0 <= k < c.len() && chunk_for_container(#[trigger] c[k], m),
    ensures
        exists|k: int| 0 <= k < (a + c).len() && chunk_for_container(#[trigger] (a + c)[k], m),
{
    let k = choose|k: int| 0 <= k < c.len() && chunk_for_container(#[trigger] c[k], m);
    assert((a + c)[a.len() + k] == c[k]);
}

proof fn lemma_container_keep(a: Seq<RawChunk>, c: Seq<RawChunk>, m: SpecNode)
    requires
        exists|k: int| 0 <= k < a.len() && chunk_for_container(#[trigger] a[k], m),
    ensures
        exists|k: int| 0 <= k < (a + c).len() && chunk_for_container(#[trigger] (a + c)[k], m),
{
    let k = choose|k: int| 0 <= k < a.len() && chunk_for_container(#[trigger] a[k], m);
    assert((a + c)[k] == a[k]);
}

proof fn lemma_containers_from_children(n: SpecNode, own: Seq<RawChunk>, rest: Seq<RawChunk>)
    requires
        named_container(n) ==> exists|k: int| 0 <= k < own.len() && chunk_for_container(#[trigger] own[k], n),
        forall|i: int, m: SpecNode|
            0 <= i < n.children.len() && #[trigger] in_tree(m, n.children[i]) && named_container(m) ==> exists|k: int|
                0 <= k < rest.len() && chunk_for_container(#[trigger] rest[k], m),
    ensures
        forall|m: SpecNode| #[trigger] in_tree(m, n) && named_container(m) ==> exists|k: int|
            0 <= k < (own + rest).len() && chunk_for_container(#[trigger] (own + rest)[k], m),
{
    assert forall|m: SpecNode| #[trigger] in_tree(m, n) && named_container(m) implies exists|k: int|
        0 <= k < (own + rest).len() && chunk_for_container(#[trigger] (own + rest)[k], m) by {
        lemma_in_tree_cases(m, n);
        if m == n {
            lemma_container_keep(own, rest, m);
        } else {
            let i = choose|i: int| 0 <= i < n.children.len() && #[trigger] in_tree(m, n.children[i]);
            lemma_container_shift(own, rest, m);
        }
    }
}

proof fn lemma_jc_visit_containers(n: SpecNode, parent: Option<Seq<char>>, pp: Option<Seq<char>>)
    ensures
        forall|m: SpecNode| #[trigger] in_tree(m, n) && named_container(m) ==> exists|k: int|
            0 <= k < jc_visit(n, parent, pp).len() && chunk_for_container(#[trigger] jc_visit(n, parent, pp)[k], m),
    decreases n,
{
    let empty = Seq::<RawChunk>::empty();
    if n.kind == SyntaxKind::Object {
        match n.name {
            None => {
                lemma_jc_list_containers(n.children, parent, pp);
                let own = match pp {
                    Some(path) => seq![
                        RawChunk {
                            kind: ChunkKind::Object,
                            name: parent,
                            parent: before_last(path, '['),
                            path: Some(path),
                            span: n.span,
                        },
                    ],
                    None => seq![],
                };
                lemma_containers_from_children(n, own, jc_list(n.children, parent, pp));
                assert(jc_visit(n, parent, pp) == own + jc_list(n.children, parent, pp));
            },
            Some(name) => {
                let path = dotted(pp, name);
                let own = seq![
                    RawChunk { kind: ChunkKind::Object, name: Some(name), parent, path: Some(path), span: n.span },
                ];
                assert(chunk_for_container(own[0], n));
                lemma_jc_list_containers(n.children, Some(name), Some(path));
                lemma_containers_from_children(n, own, jc_list(n.children, Some(name), Some(path)));
                assert(jc_visit(n, parent, pp) == own + jc_list(n.children, Some(name), Some(path)));
            },
        }
    } else if n.kind == SyntaxKind::Array {
        match n.name {
            None => {
                lemma_jc_items_containers(n.children, None);
                assert(empty + jc_items(n.children, None) =~= jc_items(n.children, None));
                lemma_containers_from_children(n, empty, jc_items(n.children, None));
                assert(jc_visit(n, parent, pp) == empty + jc_items(n.children, None));
            },
            Some(name) => {
                let path = dotted(pp, name);
                let own = seq![
                    RawChunk { kind: ChunkKind::Array, name: Some(name), parent, path: Some(path), span: n.span },
                ];
                assert(chunk_for_container(own[0], n));
                lemma_jc_items_containers(n.children, Some(path));
                lemma_containers_from_children(n, own, jc_items(n.children, Some(path)));
                assert(jc_visit(n, parent, pp) == own + jc_items(n.children, Some(path)));
            },
        }
    } else {
        lemma_jc_list_containers(n.children, parent, pp);
        assert(empty + jc_list(n.children, parent, pp) =~= jc_list(n.children, parent, pp));
        lemma_containers_from_children(n, empty, jc_list(n.children, parent, pp));
        assert(jc_visit(n, parent, pp) == empty + jc_list(n.children, parent, pp));
    }
}

proof fn lemma_jc_list_containers(cs: Seq<SpecNode>, parent: Option<Seq<char>>, pp: Option<Seq<char>>)
    ensures
        forall|j: int, m: SpecNode|
            0 <= j < cs.len() && #[trigger] in_tree(m, cs[j]) && named_container(m) ==> exists|k: int|
                0 <= k < jc_list(cs, parent, pp).len() && chunk_for_container(#[trigger] jc_list(cs, parent, pp)[k], m),
    decreases cs,
{
    if cs.len() > 0 {
        let last = cs.len() - 1;
        assert(cs.last() == cs[last]);
        lemma_jc_list_containers(cs.drop_last(), parent, pp);
        lemma_jc_visit_containers(cs.last(), parent, pp);
        let a = jc_list(cs.drop_last(), parent, pp);
        let c = jc_visit(cs.last(), parent, pp);
        assert(jc_list(cs, parent, pp) == a + c);
        assert forall|j: int, m: SpecNode|
            0 <= j < cs.len() && #[trigger] in_tree(m, cs[j]) && named_container(m) implies exists|k: int|
                0 <= k < (a + c).len() && chunk_for_container(#[trigger] (a + c)[k], m) by {
            if j < last {
                assert(cs.drop_last()[j] == cs[j]);
                lemma_container_keep(a, c, m);
            } else {
                lemma_container_shift(a, c, m);
            }
        }
    }
}

proof fn lemma_jc_items_containers(cs: Seq<SpecNode>, ap: Option<Seq<char>>)
    ensures
        forall|j: int, m: SpecNode|
            0 <= j < cs.len() && #[trigger] in_tree(m, cs[j]) && named_container(m) ==> exists|k: int|
                0 <= k < jc_items(cs, ap).len() && chunk_for_container(#[trigger] jc_items(cs, ap)[k], m),
    decreases cs,
{
    if cs.len() > 0 {
        let last = cs.len() - 1;
        assert(cs.last() == cs[last]);
        let path = indexed(ap, last as nat);
        lemma_jc_items_containers(cs.drop_last(), ap);
        lemma_jc_visit_containers(cs.last(), Some(path), Some(path));
        let a = jc_items(cs.drop_last(), ap);
        let c = jc_visit(cs.last(), Some(path), Some(path));
        assert(jc_items(cs, ap) == a + c);
        assert forall|j: int, m: SpecNode|
            0 <= j < cs.len() && #[trigger] in_tree(m, cs[j]) && named_container(m) implies exists|k: int|
                0 <= k < (a + c).len() && chunk_for_container(#[trigger] (a + c)[k], m) by {
            if j < last {
                assert(cs.drop_last()[j] == cs[j]);
                lemma_container_keep(a, c, m);
            } else {
                lemma_container_shift(a, c, m);
            }
        }
    }
}

/// Every named object and array of a JSON tree has a chunk after the file
/// chunk with its name, span and kind.
pub proof fn lemma_json_containers_chunked(tree: SpecNode)
    ensures
        forall|m: SpecNode| #[trigger] in_tree(m, tree) && named_container(m) ==> exists|i: int|
            1 <= i < json_raw_chunks(tree).len() && chunk_for_container(#[trigger] json_raw_chunks(tree)[i], m),
{
    let file = seq![RawChunk { kind: ChunkKind::File, name: None, parent: None, path: None, span: tree.span }];
    let rest = jc_visit(tree, None, None);
    lemma_jc_visit_containers(tree, None, None);
    assert(json_raw_chunks(tree) == file + rest);
    assert forall|m: SpecNode| #[trigger] in_tree(m, tree) && named_container(m) implies exists|i: int|
        1 <= i < (file + rest).len() && chunk_for_container(#[trigger] (file + rest)[i], m) by {
        let k = choose|k: int| 0 <= k < rest.len() && chunk_for_container(#[trigger] rest[k], m);
        assert((file + rest)[1 + k] == rest[k]);
    }
}

/// `n` ends the sequence `q`.
pub open spec fn ends_with(q: Seq<char>, n: Seq<char>) -> bool {
    n.len() <= q.len() && q.subrange(q.len() - n.len(), q.len() as int) == n
}

/// A JSON chunk below the file chunk: an object or array chunk with a name
/// and a path that ends with that name.
pub open spec fn named_at_path_end(r: RawChunk) -> bool {
    &&& r.kind == ChunkKind::Object || r.kind == ChunkKind::Array
    &&& r.name matches Some(n) && r.path matches Some(q) && ends_with(q, n)
}

pub open spec fn all_named_at_path_end(rs: Seq<RawChunk>) -> bool {
    forall|i: int| 0 <= i < rs.len() ==> named_at_path_end(#[trigger] rs[i])
}

proof fn lemma_named_concat(a: Seq<RawChunk>, c: Seq<RawChunk>)
    requires
        all_named_at_path_end(a),
        all_named_at_path_end(c),
    ensures
        all_named_at_path_end(a + c),
{
    assert forall|i: int| 0 <= i < (a + c).len() implies named_at_path_end(#[trigger] (a + c)[i]) by {
        if i < a.len() {
            assert((a + c)[i] == a[i]);
        } else {
            assert((a + c)[i] == c[i - a.len()]);
        }
    }
}

proof fn lemma_dotted_ends_with(pp: Option<Seq<char>>, name: Seq<char>)
    ensures
        ends_with(dotted(pp, name), name),
{
    let q = dotted(pp, name);
    assert(q.subrange(q.len() - name.len(), q.len() as int) =~= name);
}

proof fn lemma_jc_visit_named(n: SpecNode, parent: Option<Seq<char>>, pp: Option<Seq<char>>)
    requires
        json_shaped(n),
        n.name is None ==> parent == pp,
    ensures
        all_named_at_path_end(jc_visit(n, parent, pp)),
    decreases n,
{
    if n.kind == SyntaxKind::Object {
        match n.name {
            None => {
                if let Some(path) = pp {
                    assert(ends_with(path, path)) by {
                        assert(path.subrange(0, path.len() as int) =~= path);
                    }
                }
                lemma_jc_list_named(n.children, parent, pp);
                let own = match pp {
                    Some(path) => seq![
                        RawChunk {
                            kind: ChunkKind::Object,
                            name: parent,
                            parent: before_last(path, '['),
                            path: Some(path),
                            span: n.span,
                        },
                    ],
                    None => seq![],
                };
                lemma_named_concat(own, jc_list(n.children, parent, pp));
            },
            Some(name) => {
                let path = dotted(pp, name);
                lemma_dotted_ends_with(pp, name);
                lemma_jc_list_named(n.children, Some(name), Some(path));
                let own = seq![
                    RawChunk { kind: ChunkKind::Object, name: Some(name), parent, path: Some(path), span: n.span },
                ];
                lemma_named_concat(own, jc_list(n.children, Some(name), Some(path)));
            },
        }
    } else if n.kind == SyntaxKind::Array {
        match n.name {
            None => {
                lemma_jc_items_named(n.children, None);
            },
            Some(name) => {
                let path = dotted(pp, name);
                lemma_dotted_ends_with(pp, name);
                lemma_jc_items_named(n.children, Some(path));
                let own = seq![
                    RawChunk { kind: ChunkKind::Array, name: Some(name), parent, path: Some(path), span: n.span },
                ];
                lemma_named_concat(own, jc_items(n.children, Some(path)));
            },
        }
    } else {
        assert(jc_list(n.children, parent, pp) =~= seq![]);
    }
}

proof fn lemma_jc_list_named(cs: Seq<SpecNode>, parent: Option<Seq<char>>, pp: Option<Seq<char>>)
    requires
        forall|i: int| 0 <= i < cs.len() ==> json_shaped(#[trigger] cs[i]),
        parent == pp || forall|i: int| 0 <= i < cs.len() ==> (#[trigger] cs[i]).name is Some,
    ensures
        all_named_at_path_end(jc_list(cs, parent, pp)),
    decreases cs,
{
    if cs.len() > 0 {
        assert(cs.last() == cs[cs.len() - 1]);
        assert forall|i: int| 0 <= i < cs.drop_last().len() implies json_shaped(#[trigger] cs.drop_last()[i])
            && (parent != pp ==> cs.drop_last()[i].name is Some) by {
            assert(cs.drop_last()[i] == cs[i]);
        }
        lemma_jc_list_named(cs.drop_last(), parent, pp);
        lemma_jc_visit_named(cs.last(), parent, pp);
        lemma_named_concat(jc_list(cs.drop_last(), parent, pp), jc_visit(cs.last(), parent, pp));
    }
}

proof fn lemma_jc_items_named(cs: Seq<SpecNode>, ap: Option<Seq<char>>)
    requires
        forall|i: int| 0 <= i < cs.len() ==> json_shaped(#[trigger] cs[i]),
    ensures
        all_named_at_path_end(jc_items(cs, ap)),
    decreases cs,
{
    if cs.len() > 0 {
        assert(cs.last() == cs[cs.len() - 1]);
        assert forall|i: int| 0 <= i < cs.drop_last().len() implies json_shaped(#[trigger] cs.drop_last()[i]) by {
            assert(cs.drop_last()[i] == cs[i]);
        }
        let path = indexed(ap, (cs.len() - 1) as nat);
        lemma_jc_items_named(cs.drop_last(), ap);
        lemma_jc_visit_named(cs.last(), Some(path), Some(path));
        lemma_named_concat(jc_items(cs.drop_last(), ap), jc_visit(cs.last(), Some(path), Some(path)));
    }
}

/// The chunks of a parsed JSON text: the first is the file chunk of the
/// root value; every other chunk is an object or array chunk whose path ends
/// with its name.
pub proof fn lemma_json_chunk_paths(toks: Seq<Token>, b: Seq<u8>, tree: SpecNode)
    requires
        json_parse(toks, b) == Ok::<SpecNode, JsonHalt>(tree),
    ensures
        json_raw_chunks(tree)[0] == (RawChunk {
            kind: ChunkKind::File,
            name: None,
            parent: None,
            path: None,
            span: tree.span,
        }),
        forall|i: int| 1 <= i < json_raw_chunks(tree).len() ==> named_at_path_end(#[trigger] json_raw_chunks(tree)[i]),
{
    lemma_json_parse_shape(toks, b);
    lemma_jc_visit_named(tree, None, None);
    let rest = jc_visit(tree, None, None);
    let all = json_raw_chunks(tree);
    assert forall|i: int| 1 <= i < all.len() implies named_at_path_end(#[trigger] all[i]) by {
        assert(all[i] == rest[i - 1]);
    }
}

pub proof fn lemma_jc_list_take(cs: Seq<SpecNode>, k: int, parent: Option<Seq<char>>, pp: Option<Seq<char>>)
    requires
        0 <= k <= cs.len(),
    ensures
        jc_list(cs.take(k), parent, pp).len() <= jc_list(cs, parent, pp).len(),
        jc_list(cs, parent, pp).subrange(0, jc_list(cs.take(k), parent, pp).len() as int) == jc_list(
            cs.take(k),
            parent,
            pp,
        ),
    decreases cs.len() - k,
{
    if k == cs.len() {
        assert(cs.take(k) =~= cs);
        assert(jc_list(cs, parent, pp).subrange(0, jc_list(cs, parent, pp).len() as int) =~= jc_list(cs, parent, pp));
    } else {
        lemma_jc_list_take(cs, k + 1, parent, pp);
        assert(cs.take(k + 1).drop_last() =~= cs.take(k));
        let a = jc_list(cs.take(k), parent, pp);
        let a1 = jc_list(cs.take(k + 1), parent, pp);
        let w = jc_list(cs, parent, pp);
        assert(a1 == a + jc_visit(cs.take(k + 1).last(), parent, pp));
        assert(w.subrange(0, a.len() as int) =~= a1.subrange(0, a.len() as int));
    }
}

pub proof fn lemma_jc_items_take(cs: Seq<SpecNode>, k: int, ap: Option<Seq<char>>)
    requires
        0 <= k <= cs.len(),
    ensures
        jc_items(cs.take(k), ap).len() <= jc_items(cs, ap).len(),
        jc_items(cs, ap).subrange(0, jc_items(cs.take(k), ap).len() as int) == jc_items(cs.take(k), ap),
    decreases cs.len() - k,
{
    if k == cs.len() {
        assert(cs.take(k) =~= cs);
        assert(jc_items(cs, ap).subrange(0, jc_items(cs, ap).len() as int) =~= jc_items(cs, ap));
    } else {
        lemma_jc_items_take(cs, k + 1, ap);
        assert(cs.take(k + 1).drop_last() =~= cs.take(k));
        let a = jc_items(cs.take(k), ap);
        let a1 = jc_items(cs.take(k + 1), ap);
        let w = jc_items(cs, ap);
        assert(w.subrange(0, a.len() as int) =~= a1.subrange(0, a.len() as int));
    }
}

pub struct JsonChunker;

impl JsonChunker {
    /// The chunks of the tree `root` over `source`, in document order.
    pub fn chunk(&self, root: &SyntaxNode, source: &Source) -> (chunks: Vec<CodeChunk>)
        requires
            all_renderable(json_raw_chunks(node_view(*root)), source.text()),
        ensures
            chunks_view(chunks@) == render_all(json_raw_chunks(node_view(*root)), source.text(), Language::Json),
    {
        let ghost b = source.text();
        let ghost file = seq![RawChunk { kind: ChunkKind::File, name: None, parent: None, path: None, span: root.span }];
        proof {
            lemma_render_concat(file, jc_visit(node_view(*root), None, None), b, Language::Json);
        }
        assert(renderable(file[0], b));
        let mut chunks: Vec<CodeChunk> = Vec::new();
        let file_chunk = make_chunk(source, ChunkKind::File, None, None, None, Language::Json, root.span);
        chunks.push(file_chunk);
        assert(chunks_view(chunks@) =~= render_all(file, b, Language::Json));
        self.visit(root, source, None, None, &mut chunks);
        chunks
    }

    fn visit(
        &self,
        node: &SyntaxNode,
        source: &Source,
        parent: Option<&str>,
        parent_path: Option<&str>,
        chunks: &mut Vec<CodeChunk>,
    )
        requires
            all_renderable(jc_visit(node_view(*node), opt_str_view(parent), opt_str_view(parent_path)), source.text()),
        ensures
            chunks_view(final(chunks)@) == chunks_view(old(chunks)@) + render_all(
                jc_visit(node_view(*node), opt_str_view(parent), opt_str_view(parent_path)),
                source.text(),
                Language::Json,
            ),
        decreases node, 2int,
    {
        match node.kind {
            SyntaxKind::Object => {
                self.visit_object(node, source, parent, parent_path, chunks);
            },
            SyntaxKind::Array => {
                self.visit_array(node, source, parent, parent_path, chunks);
            },
            _ => {
                self.visit_children(node, source, parent, parent_path, chunks);
            },
        }
    }

    /// Visits every child of `node` under the same parent.
    fn visit_children(
        &self,
        node: &SyntaxNode,
        source: &Source,
        parent: Option<&str>,
        parent_path: Option<&str>,
        chunks: &mut Vec<CodeChunk>,
    )
        requires
            all_renderable(jc_list(nodes_view(node.children@), opt_str_view(parent), opt_str_view(parent_path)), source.text()),
        ensures
            chunks_view(final(chunks)@) == chunks_view(old(chunks)@) + render_all(
                jc_list(nodes_view(node.children@), opt_str_view(parent), opt_str_view(parent_path)),
                source.text(),
                Language::Json,
            ),
        decreases node, 0int,
    {
        let ghost b = source.text();
        let ghost cs = nodes_view(node.children@);
        let ghost pv = opt_str_view(parent);
        let ghost ppv = opt_str_view(parent_path);
        let ghost base = chunks_view(chunks@);
        let mut i: usize = 0;
        assert(cs.take(0) =~= seq![]);
        while i < node.children.len()
            invariant
                i <= node.children@.len() == cs.len(),
                cs == nodes_view(node.children@),
                b == source.text(),
                pv == opt_str_view(parent),
                ppv == opt_str_view(parent_path),
                all_renderable(jc_list(cs, pv, ppv), b),
                chunks_view(chunks@) == base + render_all(jc_list(cs.take(i as int), pv, ppv), b, Language::Json),
            decreases node.children@.len() - i,
        {
            let ghost before = jc_list(cs.take(i as int), pv, ppv);
            proof {
                lemma_jc_list_take(cs, i + 1, pv, ppv);
                assert(cs.take(i + 1).drop_last() =~= cs.take(i as int));
                assert(cs.take(i + 1).last() == node_view(node.children@[i as int]));
                lemma_renderable_prefix(jc_list(cs, pv, ppv), jc_list(cs.take(i + 1), pv, ppv).len() as int, b);
                lemma_render_concat(before, jc_visit(cs[i as int], pv, ppv), b, Language::Json);
                assert(jc_list(cs.take(i + 1), pv, ppv) == before + jc_visit(cs[i as int], pv, ppv));
                assert(all_renderable(jc_list(cs.take(i + 1), pv, ppv), b));
                assert(cs[i as int] == node_view(node.children@[i as int]));
                assert(all_renderable(jc_visit(cs[i as int], pv, ppv), b));
                assert(all_renderable(jc_visit(node_view(node.children@[i as int]), pv, ppv), b));
            }
            let child = &node.children[i];
            assert(*child == node.children@[i as int]);
            self.visit(child, source, parent, parent_path, chunks);
            i += 1;
            assert(chunks_view(chunks@) =~= base + render_all(jc_list(cs.take(i as int), pv, ppv), b, Language::Json));
        }
        assert(cs.take(i as int) =~= cs);
    }

    fn visit_object(
        &self,
        node: &SyntaxNode,
        source: &Source,
        parent: Option<&str>,
        parent_path: Option<&str>,
        chunks: &mut Vec<CodeChunk>,
    )
        requires
            node.kind == SyntaxKind::Object,
            all_renderable(jc_visit(node_view(*node), opt_str_view(parent), opt_str_view(parent_path)), source.text()),
        ensures
            chunks_view(final(chunks)@) == chunks_view(old(chunks)@) + render_all(
                jc_visit(node_view(*node), opt_str_view(parent), opt_str_view(parent_path)),
                source.text(),
                Language::Json,
            ),
        decreases node, 1int,
    {
        let ghost b = source.text();
        let ghost cs = nodes_view(node.children@);
        match &node.name {
            None => {
                if let Some(path) = parent_path {
                    let parent_of_path = match before_last_bracket(path) {
                        Some(p) => Some(ChunkPath::new(p)),
                        None => None,
                    };
                    let name = match parent {
                        Some(p) => Some(String::from_str(p)),
                        None => None,
                    };
                    let ghost own = seq![RawChunk {
                        kind: ChunkKind::Object,
                        name: opt_str_view(parent),
                        parent: before_last(path@, '['),
                        path: Some(path@),
                        span: node.span,
                    }];
                    proof {
                        lemma_render_concat(own, jc_list(cs, opt_str_view(parent), opt_str_view(parent_path)), b, Language::Json);
                        assert(renderable(own[0], b));
                    }
                    let c = make_chunk(source, ChunkKind::Object, name, parent_of_path, Some(ChunkPath::new(path)), Language::Json, node.span);
                    let ghost base = chunks_view(chunks@);
                    chunks.push(c);
                    assert(chunks_view(chunks@) =~= base + render_all(own, b, Language::Json));
                } else {
                    assert(seq![] + jc_list(cs, opt_str_view(parent), opt_str_view(parent_path)) =~= jc_list(cs, opt_str_view(parent), opt_str_view(parent_path)));
                }
                self.visit_children(node, source, parent, parent_path, chunks);
                assert(chunks_view(final(chunks)@) =~= chunks_view(old(chunks)@) + render_all(
                    jc_visit(node_view(*node), opt_str_view(parent), opt_str_view(parent_path)),
                    b,
                    Language::Json,
                ));
            },
            Some(name) => {
                let path = dotted_path(parent_path, name.as_str());
                let ghost own = seq![RawChunk {
                    kind: ChunkKind::Object,
                    name: Some(name@),
                    parent: opt_str_view(parent),
                    path: Some(path@),
                    span: node.span,
                }];
                proof {
                    lemma_render_concat(own, jc_list(cs, Some(name@), Some(path@)), b, Language::Json);
                    assert(renderable(own[0], b));
                }
                let parent_path_chunk = match parent {
                    Some(p) => Some(ChunkPath::new(p)),
                    None => None,
                };
                let c = make_chunk(
                    source,
                    ChunkKind::Object,
                    Some(String::from_str(name.as_str())),
                    parent_path_chunk,
                    Some(ChunkPath::new(path.as_str())),
                    Language::Json,
                    node.span,
                );
                let ghost base = chunks_view(chunks@);
                chunks.push(c);
                assert(chunks_view(chunks@) =~= base + render_all(own, b, Language::Json));
                self.visit_children(node, source, Some(name.as_str()), Some(path.as_str()), chunks);
                assert(chunks_view(final(chunks)@) =~= chunks_view(old(chunks)@) + render_all(
                    jc_visit(node_view(*node), opt_str_view(parent), opt_str_view(parent_path)),
                    b,
                    Language::Json,
                ));
            },
        }
    }

    fn visit_array(
        &self,
        node: &SyntaxNode,
        source: &Source,
        parent: Option<&str>,
        parent_path: Option<&str>,
        chunks: &mut Vec<CodeChunk>,
    )
        requires
            node.kind == SyntaxKind::Array,
            all_renderable(jc_visit(node_view(*node), opt_str_view(parent), opt_str_view(parent_path)), source.text()),
        ensures
            chunks_view(final(chunks)@) == chunks_view(old(chunks)@) + render_all(
                jc_visit(node_view(*node), opt_str_view(parent), opt_str_view(parent_path)),
                source.text(),
                Language::Json,
            ),
        decreases node, 1int,
    {
        let ghost b = source.text();
        let ghost cs = nodes_view(node.children@);
        let array_path: Option<String> = match &node.name {
            Some(name) => Some(dotted_path(parent_path, name.as_str())),
            None => None,
        };
        if let Some(name) = &node.name {
            let ghost own = seq![RawChunk {
                kind: ChunkKind::Array,
                name: Some(name@),
                parent: opt_str_view(parent),
                path: opt_string_view(array_path),
                span: node.span,
            }];
            proof {
                lemma_render_concat(own, jc_items(cs, opt_string_view(array_path)), b, Language::Json);
                assert(renderable(own[0], b));
            }
            let parent_chunk = match parent {
                Some(p) => Some(ChunkPath::new(p)),
                None => None,
            };
            let path_chunk = match &array_path {
                Some(p) => Some(ChunkPath::new(p.as_str())),
                None => None,
            };
            let c = make_chunk(
                source,
                ChunkKind::Array,
                Some(String::from_str(name.as_str())),
                parent_chunk,
                path_chunk,
                Language::Json,
                node.span,
            );
            let ghost base = chunks_view(chunks@);
            chunks.push(c);
            assert(chunks_view(chunks@) =~= base + render_all(own, b, Language::Json));
        } else {
            assert(jc_visit(node_view(*node), opt_str_view(parent), opt_str_view(parent_path)) == jc_items(cs, None));
        }
        let ghost ap = opt_string_view(array_path);
        let ghost base = chunks_view(chunks@);
        let mut i: usize = 0;
        assert(cs.take(0) =~= seq![]);
        while i < node.children.len()
            invariant
                i <= node.children@.len() == cs.len(),
                cs == nodes_view(node.children@),
                ap == opt_string_view(array_path),
                b == source.text(),
                all_renderable(jc_items(cs, ap), b),
                chunks_view(chunks@) == base + render_all(jc_items(cs.take(i as int), ap), b, Language::Json),
            decreases node.children@.len() - i,
        {
            let path = match &array_path {
                Some(p) => indexed_path(Some(p.as_str()), i),
                None => indexed_path(None, i),
            };
            let ghost before = jc_items(cs.take(i as int), ap);
            proof {
                lemma_jc_items_take(cs, i + 1, ap);
                assert(cs.take(i + 1).drop_last() =~= cs.take(i as int));
                assert(cs.take(i + 1).last() == node_view(node.children@[i as int]));
                lemma_renderable_prefix(jc_items(cs, ap), jc_items(cs.take(i + 1), ap).len() as int, b);
                lemma_render_concat(before, jc_visit(cs[i as int], Some(path@), Some(path@)), b, Language::Json);
                assert(jc_items(cs.take(i + 1), ap) == before + jc_visit(cs[i as int], Some(path@), Some(path@)));
                assert(all_renderable(jc_items(cs.take(i + 1), ap), b));
                assert(cs[i as int] == node_view(node.children@[i as int]));
            }
            self.visit(&node.children[i], source, Some(path.as_str()), Some(path.as_str()), chunks);
            i += 1;
            assert(chunks_view(chunks@) =~= base + render_all(jc_items(cs.take(i as int), ap), b, Language::Json));
        }
        assert(cs.take(i as int) =~= cs);
    }
}

} // verus!

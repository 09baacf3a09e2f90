//! Cuts a YAML syntax tree into chunks.
use vstd::prelude::*;
use vstd::string::StringExecFns;
use crate::chunk::{chunks_view, opt_path_view, ChunkKind, CodeChunk};
use crate::chunking::{
    all_step_exactly, all_step_from_parent, lemma_exact_concat, lemma_parents_concat, steps_exactly, lemma_steps_concat, parents_come_first, path_prefix, steps_from_parent,
    all_renderable, dotted, lemma_renderable_join, lemma_slice_renderable, dotted_path, indexed, indexed_path, lemma_render_concat,
    lemma_renderable_prefix, make_chunk, render_all, renderable, RawChunk,
};
use crate::language::Language;
use crate::path::ChunkPath;
use crate::source::Source;
use crate::syntax::{in_tree, node_at, lemma_in_tree_cases, lemma_in_tree_child, lemma_in_tree_self, lemma_node_view, node_view, nodes_view, spans_sliceable, SpecNode, SyntaxKind, SyntaxNode};
use crate::yaml::lexer::YamlToken;
use crate::yaml::syntax::{lemma_yaml_parse_shape, yaml_parse, yaml_shaped};

verus! {

broadcast use {vstd::seq::group_seq_axioms, lemma_node_view};

pub open spec fn opt_ref_path_view(p: Option<&ChunkPath>) -> Option<Seq<char>> {
    match p {
        Some(p) => Some(p@),
        None => None,
    }
}

/// A scalar-like node kind: property, string, number, boolean or null.
pub open spec fn is_scalar_kind(k: SyntaxKind) -> bool {
    k == SyntaxKind::Property || k == SyntaxKind::String || k == SyntaxKind::Number
        || k == SyntaxKind::Boolean || k == SyntaxKind::Null
}

/// The chunk kind of an item of an array: object, array, property for
/// scalar-like nodes, block otherwise. Under a named array a `Property`
/// node counts as a block.
pub open spec fn item_kind(k: SyntaxKind, named: bool) -> ChunkKind {
    if k == SyntaxKind::Object {
        ChunkKind::Object
    } else if k == SyntaxKind::Array {
        ChunkKind::Array
    } else if is_scalar_kind(k) && !(named && k == SyntaxKind::Property) {
        ChunkKind::Property
    } else {
        ChunkKind::Block
    }
}

/// The chunks of the subtree `n` under parent path `parent` and path `pp`:
/// a named object gives an object chunk at `pp.name` and its children sit
/// under that path; a named array gives an array chunk, then each item `i`
/// a chunk named `[i]` at `path[i]`, then the chunks of the item; an unnamed
/// array does the same with `pp` as the array's path and parent; a named
/// scalar-like node gives a property chunk; other nodes give their
/// children's chunks.
pub open spec fn yc_visit(n: SpecNode, parent: Option<Seq<char>>, pp: Option<Seq<char>>) -> Seq<RawChunk>
    decreases n,
{
    if n.kind == SyntaxKind::Object {
        match n.name {
            None => yc_list(n.children, parent, pp),
            Some(name) => {
                let path = dotted(pp, name);
                seq![
                    RawChunk {
                        kind: ChunkKind::Object,
                        name: Some(name),
                        parent,
                        path: Some(path),
                        span: n.span,
                    },
                ] + yc_list(n.children, Some(path), Some(path))
            },
        }
    } else if n.kind == SyntaxKind::Array {
        match n.name {
            None => yc_items(n.children, pp, false),
            Some(name) => {
                let path = dotted(pp, name);
                seq![
                    RawChunk {
                        kind: ChunkKind::Array,
                        name: Some(name),
                        parent,
                        path: Some(path),
                        span: n.span,
                    },
                ] + yc_items(n.children, Some(path), true)
            },
        }
    } else if is_scalar_kind(n.kind) && n.name is Some {
        seq![
            RawChunk {
                kind: ChunkKind::Property,
                name: n.name,
                parent,
                path: Some(dotted(pp, n.name.unwrap())),
                span: n.span,
            },
        ]
    } else {
        yc_list(n.children, parent, pp)
    }
}

/// The chunks of the nodes `cs`, in order, all under the same parent.
pub open spec fn yc_list(cs: Seq<SpecNode>, parent: Option<Seq<char>>, pp: Option<Seq<char>>) -> Seq<RawChunk>
    decreases cs,
{
    if cs.len() == 0 {
        seq![]
    } else {
        yc_list(cs.drop_last(), parent, pp) + yc_visit(cs.last(), parent, pp)
    }
}

/// The chunks of the items `cs` of an array at path `ap`: item `i` gives a
/// chunk named `[i]` at `ap[i]` whose parent is `ap`, then the chunks of the
/// item with `ap[i]` as parent and path.
pub open spec fn yc_items(cs: Seq<SpecNode>, ap: Option<Seq<char>>, named: bool) -> Seq<RawChunk>
    decreases cs,
{
    if cs.len() == 0 {
        seq![]
    } else {
        let i = (cs.len() - 1) as nat;
        let item = cs.last();
        let path = indexed(ap, i);
        yc_items(cs.drop_last(), ap, named) + seq![
            RawChunk {
                kind: item_kind(item.kind, named),
                name: Some(indexed(None, i)),
                parent: ap,
                path: Some(path),
                span: item.span,
            },
        ] + yc_visit(item, Some(path), Some(path))
    }
}

/// The chunks of a YAML syntax tree: a file chunk for the root, then those of
/// the root's children.
pub open spec fn yaml_raw_chunks(root: SpecNode) -> Seq<RawChunk> {
    seq![RawChunk { kind: ChunkKind::File, name: None, parent: None, path: None, span: root.span }]
        + yc_list(root.children, None, None)
}

pub proof fn lemma_yc_list_take(cs: Seq<SpecNode>, k: int, parent: Option<Seq<char>>, pp: Option<Seq<char>>)
    requires
        0 <= k <= cs.len(),
    ensures
        yc_list(cs.take(k), parent, pp).len() <= yc_list(cs, parent, pp).len(),
        yc_list(cs, parent, pp).subrange(0, yc_list(cs.take(k), parent, pp).len() as int) == yc_list(
            cs.take(k),
            parent,
            pp,
        ),
    decreases cs.len() - k,
{
    if k == cs.len() {
        assert(cs.take(k) =~= cs);
        assert(yc_list(cs, parent, pp).subrange(0, yc_list(cs, parent, pp).len() as int) =~= yc_list(cs, parent, pp));
    } else {
        lemma_yc_list_take(cs, k + 1, parent, pp);
        assert(cs.take(k + 1).drop_last() =~= cs.take(k));
        let a = yc_list(cs.take(k), parent, pp);
        let a1 = yc_list(cs.take(k + 1), parent, pp);
        let w = yc_list(cs, parent, pp);
        assert(w.subrange(0, a.len() as int) =~= a1.subrange(0, a.len() as int));
    }
}

pub proof fn lemma_yc_items_take(cs: Seq<SpecNode>, k: int, ap: Option<Seq<char>>, named: bool)
    requires
        0 <= k <= cs.len(),
    ensures
        yc_items(cs.take(k), ap, named).len() <= yc_items(cs, ap, named).len(),
        yc_items(cs, ap, named).subrange(0, yc_items(cs.take(k), ap, named).len() as int) == yc_items(cs.take(k), ap, named),
    decreases cs.len() - k,
{
    if k == cs.len() {
        assert(cs.take(k) =~= cs);
        assert(yc_items(cs, ap, named).subrange(0, yc_items(cs, ap, named).len() as int) =~= yc_items(cs, ap, named));
    } else {
        lemma_yc_items_take(cs, k + 1, ap, named);
        assert(cs.take(k + 1).drop_last() =~= cs.take(k));
        let a = yc_items(cs.take(k), ap, named);
        let a1 = yc_items(cs.take(k + 1), ap, named);
        let w = yc_items(cs, ap, named);
        assert(w.subrange(0, a.len() as int) =~= a1.subrange(0, a.len() as int));
    }
}

proof fn lemma_yc_visit_renderable(n: SpecNode, parent: Option<Seq<char>>, pp: Option<Seq<char>>, b: Seq<u8>)
    requires
        spans_sliceable(n, b),
        b.len() < usize::MAX,
    ensures
        all_renderable(yc_visit(n, parent, pp), b),
    decreases n,
{
    if n.kind == SyntaxKind::Object {
        match n.name {
            None => {
                lemma_yc_list_renderable(n.children, parent, pp, b);
            },
            Some(name) => {
                let path = Some(dotted(pp, name));
                let own = seq![
                    RawChunk { kind: ChunkKind::Object, name: Some(name), parent, path, span: n.span },
                ];
                lemma_slice_renderable(own[0], b);
                lemma_yc_list_renderable(n.children, path, path, b);
                lemma_renderable_join(own, yc_list(n.children, path, path), b);
            },
        }
    } else if n.kind == SyntaxKind::Array {
        match n.name {
            None => {
                lemma_yc_items_renderable(n.children, pp, false, b);
            },
            Some(name) => {
                let path = Some(dotted(pp, name));
                let own = seq![
                    RawChunk { kind: ChunkKind::Array, name: Some(name), parent, path, span: n.span },
                ];
                lemma_slice_renderable(own[0], b);
                lemma_yc_items_renderable(n.children, path, true, b);
                lemma_renderable_join(own, yc_items(n.children, path, true), b);
            },
        }
    } else if is_scalar_kind(n.kind) && n.name is Some {
        lemma_slice_renderable(yc_visit(n, parent, pp)[0], b);
    } else {
        lemma_yc_list_renderable(n.children, parent, pp, b);
    }
}

proof fn lemma_yc_list_renderable(cs: Seq<SpecNode>, parent: Option<Seq<char>>, pp: Option<Seq<char>>, b: Seq<u8>)
    requires
        forall|i: int| 0 <= i < cs.len() ==> spans_sliceable(#[trigger] cs[i], b),
        b.len() < usize::MAX,
    ensures
        all_renderable(yc_list(cs, parent, pp), b),
    decreases cs,
{
    if cs.len() > 0 {
        assert(cs.last() == cs[cs.len() - 1]);
        assert forall|i: int| 0 <= i < cs.drop_last().len() implies spans_sliceable(#[trigger] cs.drop_last()[i], b) by {
            assert(cs.drop_last()[i] == cs[i]);
        }
        lemma_yc_list_renderable(cs.drop_last(), parent, pp, b);
        lemma_yc_visit_renderable(cs.last(), parent, pp, b);
        lemma_renderable_join(yc_list(cs.drop_last(), parent, pp), yc_visit(cs.last(), parent, pp), b);
    }
}

proof fn lemma_yc_items_renderable(cs: Seq<SpecNode>, ap: Option<Seq<char>>, named: bool, b: Seq<u8>)
    requires
        forall|i: int| 0 <= i < cs.len() ==> spans_sliceable(#[trigger] cs[i], b),
        b.len() < usize::MAX,
    ensures
        all_renderable(yc_items(cs, ap, named), b),
    decreases cs,
{
    if cs.len() > 0 {
        assert(cs.last() == cs[cs.len() - 1]);
        assert forall|i: int| 0 <= i < cs.drop_last().len() implies spans_sliceable(#[trigger] cs.drop_last()[i], b) by {
            assert(cs.drop_last()[i] == cs[i]);
        }
        let i = (cs.len() - 1) as nat;
        let item = cs.last();
        let path = Some(indexed(ap, i));
        let own = seq![
            RawChunk {
                kind: item_kind(item.kind, named),
                name: Some(indexed(None, i)),
                parent: ap,
                path,
                span: item.span,
            },
        ];
        let first = yc_items(cs.drop_last(), ap, named);
        lemma_yc_items_renderable(cs.drop_last(), ap, named, b);
        lemma_slice_renderable(own[0], b);
        lemma_yc_visit_renderable(item, path, path, b);
        lemma_renderable_join(first, own, b);
        lemma_renderable_join(first + own, yc_visit(item, path, path), b);
    }
}

/// Every chunk of a tree whose nodes cover whole characters of a text that
/// fits in a `usize` can be rendered against that text.
pub proof fn lemma_yaml_chunks_renderable(root: SpecNode, b: Seq<u8>)
    requires
        spans_sliceable(root, b),
        b.len() < usize::MAX,
    ensures
        all_renderable(yaml_raw_chunks(root), b),
{
    let file = seq![RawChunk { kind: ChunkKind::File, name: None, parent: None, path: None, span: root.span }];
    lemma_slice_renderable(file[0], b);
    lemma_yc_list_renderable(root.children, None, None, b);
    lemma_renderable_join(file, yc_list(root.children, None, None), b);
}

/// A node kind that a named node turns into a chunk for: an object, an
/// array, or a scalar (property, string, number, boolean or null).
pub open spec fn chunked_kind(k: SyntaxKind) -> bool {
    k == SyntaxKind::Object || k == SyntaxKind::Array || k == SyntaxKind::Property || k == SyntaxKind::String
        || k == SyntaxKind::Number || k == SyntaxKind::Boolean || k == SyntaxKind::Null
}

/// The chunk `r` is the one for the named node `m`: it has `m`'s name and
/// span, and its kind fits `m`: an object chunk for an object, an array
/// chunk for an array, a property chunk for a scalar.
pub open spec fn chunk_for_key(r: RawChunk, m: SpecNode) -> bool {
    &&& r.name == m.name
    &&& r.span == m.span
    &&& (m.kind == SyntaxKind::Object ==> r.kind == ChunkKind::Object)
    &&& (m.kind == SyntaxKind::Array ==> r.kind == ChunkKind::Array)
    &&& (m.kind != SyntaxKind::Object && m.kind != SyntaxKind::Array ==> r.kind == ChunkKind::Property)
}

/// In the tree `n`, only objects and arrays have children.
pub open spec fn leaves_bare(n: SpecNode) -> bool {
    forall|m: SpecNode|
        #[trigger] in_tree(m, n) && m.kind != SyntaxKind::Object && m.kind != SyntaxKind::Array ==> m.children.len() == 0
}

/// Every named node of kind `chunked_kind` below `n` has a chunk for it in `rs`.
pub open spec fn keys_chunked(n: SpecNode, rs: Seq<RawChunk>) -> bool {
    forall|m: SpecNode|
        #[trigger] in_tree(m, n) && m.name is Some && chunked_kind(m.kind) ==> exists|k: int|
            0 <= k < rs.len() && chunk_for_key(#[trigger] rs[k], m)
}

proof fn lemma_key_chunk_shift(a: Seq<RawChunk>, c: Seq<RawChunk>, m: SpecNode)
    requires
        exists|k: int| 0 <= k < c.len() && chunk_for_key(#[trigger] c[k], m),
    ensures
        exists|k: int| 0 <= k < (a + c).len() && chunk_for_key(#[trigger] (a + c)[k], m),
{
    let k = choose|k: int| 0 <= k < c.len() && chunk_for_key(#[trigger] c[k], m);
    assert((a + c)[a.len() + k] == c[k]);
}

proof fn lemma_key_chunk_keep(a: Seq<RawChunk>, c: Seq<RawChunk>, m: SpecNode)
    requires
        exists|k: int| 0 <= k < a.len() && chunk_for_key(#[trigger] a[k], m),
    ensures
        exists|k: int| 0 <= k < (a + c).len() && chunk_for_key(#[trigger] (a + c)[k], m),
{
    let k = choose|k: int| 0 <= k < a.len() && chunk_for_key(#[trigger] a[k], m);
    assert((a + c)[k] == a[k]);
}

proof fn lemma_leaves_bare_child(n: SpecNode, i: int)
    requires
        leaves_bare(n),
        0 <= i < n.children.len(),
    ensures
        leaves_bare(n.children[i]),
{
    assert forall|m: SpecNode| #[trigger] in_tree(m, n.children[i]) && m.kind != SyntaxKind::Object && m.kind
        != SyntaxKind::Array implies m.children.len() == 0 by {
        lemma_in_tree_child(m, n, i);
    }
}

/// The chunks `own + rest` hold a chunk for every key of `n` when `own`
/// holds one for `n` itself (if it is a key) and `rest` one for every key
/// below a child.
proof fn lemma_keys_from_children(n: SpecNode, own: Seq<RawChunk>, rest: Seq<RawChunk>)
    requires
        n.name is Some && chunked_kind(n.kind) ==> exists|k: int| 0 <= k < own.len() && chunk_for_key(#[trigger] own[k], n),
        forall|i: int, m: SpecNode|
            0 <= i < n.children.len() && #[trigger] in_tree(m, n.children[i]) && m.name is Some && chunked_kind(m.kind)
                ==> exists|k: int| 0 <= k < rest.len() && chunk_for_key(#[trigger] rest[k], m),
    ensures
        keys_chunked(n, own + rest),
{
    assert forall|m: SpecNode| #[trigger] in_tree(m, n) && m.name is Some && chunked_kind(m.kind) implies exists|k: int|
        0 <= k < (own + rest).len() && chunk_for_key(#[trigger] (own + rest)[k], m) by {
        lemma_in_tree_cases(m, n);
        if m == n {
            lemma_key_chunk_keep(own, rest, m);
        } else {
            let i = choose|i: int| 0 <= i < n.children.len() && #[trigger] in_tree(m, n.children[i]);
            lemma_key_chunk_shift(own, rest, m);
        }
    }
}

proof fn lemma_yc_visit_keys(n: SpecNode, parent: Option<Seq<char>>, pp: Option<Seq<char>>)
    requires
        leaves_bare(n),
    ensures
        keys_chunked(n, yc_visit(n, parent, pp)),
    decreases n,
{
    lemma_in_tree_self(n);
    assert forall|i: int| 0 <= i < n.children.len() implies leaves_bare(#[trigger] n.children[i]) by {
        lemma_leaves_bare_child(n, i);
    }
    let empty = Seq::<RawChunk>::empty();
    if n.kind == SyntaxKind::Object {
        match n.name {
            None => {
                lemma_yc_list_keys(n.children, parent, pp);
                assert(empty + yc_list(n.children, parent, pp) =~= yc_list(n.children, parent, pp));
                lemma_keys_from_children(n, empty, yc_list(n.children, parent, pp));
            },
            Some(name) => {
                let path = Some(dotted(pp, name));
                let own = seq![
                    RawChunk { kind: ChunkKind::Object, name: Some(name), parent, path, span: n.span },
                ];
                assert(chunk_for_key(own[0], n));
                lemma_yc_list_keys(n.children, path, path);
                lemma_keys_from_children(n, own, yc_list(n.children, path, path));
            },
        }
    } else if n.kind == SyntaxKind::Array {
        match n.name {
            None => {
                lemma_yc_items_keys(n.children, pp, false);
                assert(empty + yc_items(n.children, pp, false) =~= yc_items(n.children, pp, false));
                lemma_keys_from_children(n, empty, yc_items(n.children, pp, false));
            },
            Some(name) => {
                let path = Some(dotted(pp, name));
                let own = seq![
                    RawChunk { kind: ChunkKind::Array, name: Some(name), parent, path, span: n.span },
                ];
                assert(chunk_for_key(own[0], n));
                lemma_yc_items_keys(n.children, path, true);
                lemma_keys_from_children(n, own, yc_items(n.children, path, true));
            },
        }
    } else if is_scalar_kind(n.kind) && n.name is Some {
        let own = yc_visit(n, parent, pp);
        assert(chunk_for_key(own[0], n));
        assert(n.children.len() == 0);
        assert(own + empty =~= own);
        lemma_keys_from_children(n, own, empty);
    } else {
        lemma_yc_list_keys(n.children, parent, pp);
        assert(empty + yc_list(n.children, parent, pp) =~= yc_list(n.children, parent, pp));
        lemma_keys_from_children(n, empty, yc_list(n.children, parent, pp));
    }
}

proof fn lemma_yc_list_keys(cs: Seq<SpecNode>, parent: Option<Seq<char>>, pp: Option<Seq<char>>)
    requires
        forall|j: int| 0 <= j < cs.len() ==> leaves_bare(#[trigger] cs[j]),
    ensures
        forall|j: int, m: SpecNode|
            0 <= j < cs.len() && #[trigger] in_tree(m, cs[j]) && m.name is Some && chunked_kind(m.kind) ==> exists|k: int|
                0 <= k < yc_list(cs, parent, pp).len() && chunk_for_key(#[trigger] yc_list(cs, parent, pp)[k], m),
    decreases cs,
{
    if cs.len() > 0 {
        let last = cs.len() - 1;
        assert(cs.last() == cs[last]);
        assert forall|j: int| 0 <= j < cs.drop_last().len() implies leaves_bare(#[trigger] cs.drop_last()[j]) by {
            assert(cs.drop_last()[j] == cs[j]);
        }
        lemma_yc_list_keys(cs.drop_last(), parent, pp);
        lemma_yc_visit_keys(cs.last(), parent, pp);
        let a = yc_list(cs.drop_last(), parent, pp);
        let c = yc_visit(cs.last(), parent, pp);
        assert(yc_list(cs, parent, pp) == a + c);
        assert forall|j: int, m: SpecNode|
            0 <= j < cs.len() && #[trigger] in_tree(m, cs[j]) && m.name is Some && chunked_kind(m.kind) implies exists|k: int|
                0 <= k < (a + c).len() && chunk_for_key(#[trigger] (a + c)[k], m) by {
            if j < last {
                assert(cs.drop_last()[j] == cs[j]);
                lemma_key_chunk_keep(a, c, m);
            } else {
                lemma_key_chunk_shift(a, c, m);
            }
        }
    }
}

proof fn lemma_yc_items_keys(cs: Seq<SpecNode>, ap: Option<Seq<char>>, named: bool)
    requires
        forall|j: int| 0 <= j < cs.len() ==> leaves_bare(#[trigger] cs[j]),
    ensures
        forall|j: int, m: SpecNode|
            0 <= j < cs.len() && #[trigger] in_tree(m, cs[j]) && m.name is Some && chunked_kind(m.kind) ==> exists|k: int|
                0 <= k < yc_items(cs, ap, named).len() && chunk_for_key(#[trigger] yc_items(cs, ap, named)[k], m),
    decreases cs,
{
    if cs.len() > 0 {
        let last = cs.len() - 1;
        assert(cs.last() == cs[last]);
        assert forall|j: int| 0 <= j < cs.drop_last().len() implies leaves_bare(#[trigger] cs.drop_last()[j]) by {
            assert(cs.drop_last()[j] == cs[j]);
        }
        let i = last as nat;
        let item = cs.last();
        let path = Some(indexed(ap, i));
        let own = seq![
            RawChunk {
                kind: item_kind(item.kind, named),
                name: Some(indexed(None, i)),
                parent: ap,
                path,
                span: item.span,
            },
        ];
        lemma_yc_items_keys(cs.drop_last(), ap, named);
        lemma_yc_visit_keys(item, path, path);
        let a = yc_items(cs.drop_last(), ap, named);
        let c = yc_visit(item, path, path);
        assert(yc_items(cs, ap, named) == (a + own) + c);
        assert forall|j: int, m: SpecNode|
            0 <= j < cs.len() && #[trigger] in_tree(m, cs[j]) && m.name is Some && chunked_kind(m.kind) implies exists|k: int|
                0 <= k < ((a + own) + c).len() && chunk_for_key(#[trigger] ((a + own) + c)[k], m) by {
            if j < last {
                assert(cs.drop_last()[j] == cs[j]);
                lemma_key_chunk_keep(a, own, m);
                lemma_key_chunk_keep(a + own, c, m);
            } else {
                lemma_key_chunk_shift(a + own, c, m);
            }
        }
    }
}

/// Every key of an unnamed YAML tree in which only objects and arrays have
/// children (a named object, array or scalar, a key without a value
/// included) has a
/// chunk after the file chunk with its name and span, of the kind that fits
/// it: object, array, or property for a scalar.
pub proof fn lemma_yaml_keys_chunked(root: SpecNode)
    requires
        leaves_bare(root),
        root.name is None,
    ensures
        forall|m: SpecNode|
            #[trigger] in_tree(m, root) && m.name is Some && chunked_kind(m.kind) ==> exists|i: int|
                1 <= i < yaml_raw_chunks(root).len() && chunk_for_key(#[trigger] yaml_raw_chunks(root)[i], m),
{
    let file = seq![RawChunk { kind: ChunkKind::File, name: None, parent: None, path: None, span: root.span }];
    let rest = yc_list(root.children, None, None);
    assert forall|j: int| 0 <= j < root.children.len() implies leaves_bare(#[trigger] root.children[j]) by {
        lemma_leaves_bare_child(root, j);
    }
    lemma_yc_list_keys(root.children, None, None);
    assert(yaml_raw_chunks(root) == file + rest);
    assert forall|m: SpecNode| #[trigger] in_tree(m, root) && m.name is Some && chunked_kind(m.kind) implies exists|i: int|
        1 <= i < (file + rest).len() && chunk_for_key(#[trigger] (file + rest)[i], m) by {
        lemma_in_tree_cases(m, root);
        if m != root {
            let j = choose|j: int| 0 <= j < root.children.len() && #[trigger] in_tree(m, root.children[j]);
            let k = choose|k: int| 0 <= k < rest.len() && chunk_for_key(#[trigger] rest[k], m);
            assert((file + rest)[1 + k] == rest[k]);
        }
    }
}

proof fn lemma_shaped_node_at(n: SpecNode, b: Seq<u8>, path: Seq<int>)
    requires
        yaml_shaped(n, b),
    ensures
        node_at(n, path) matches Some(m) ==> yaml_shaped(m, b),
    decreases path.len(),
{
    if path.len() > 0 && 0 <= path[0] < n.children.len() {
        lemma_shaped_node_at(n.children[path[0]], b, path.drop_first());
    }
}

proof fn lemma_shaped_leaves_bare(n: SpecNode, b: Seq<u8>)
    requires
        yaml_shaped(n, b),
    ensures
        leaves_bare(n),
{
    assert forall|m: SpecNode| #[trigger] in_tree(m, n) && m.kind != SyntaxKind::Object && m.kind != SyntaxKind::Array
        implies m.children.len() == 0 by {
        let p = choose|path: Seq<int>| #[trigger] node_at(n, path) == Some(m);
        lemma_shaped_node_at(n, b, p);
    }
}

/// Every key of a parsed YAML text, a key without a value included, has a
/// chunk after the file chunk with the key's name and span, of the kind that
/// fits it: object, array, or property for a scalar.
pub proof fn lemma_yaml_parsed_keys_chunked(toks: Seq<YamlToken>, b: Seq<u8>)
    ensures
        yaml_parse(toks, b) matches Ok(root) ==> forall|m: SpecNode|
            #[trigger] in_tree(m, root) && m.name is Some && chunked_kind(m.kind) ==> exists|i: int|
                1 <= i < yaml_raw_chunks(root).len() && chunk_for_key(#[trigger] yaml_raw_chunks(root)[i], m),
{
    lemma_yaml_parse_shape(toks, b);
    if let Ok(root) = yaml_parse(toks, b) {
        lemma_shaped_leaves_bare(root, b);
        lemma_yaml_keys_chunked(root);
    }
}

/// No node of the tree `n` has a name that starts with `'['`.
pub open spec fn keys_plain(n: SpecNode) -> bool
    decreases n,
{
    &&& !(n.name matches Some(k) && k.len() > 0 && k[0] == '[')
    &&& forall|i: int| 0 <= i < n.children.len() ==> keys_plain(#[trigger] n.children[i])
}

proof fn lemma_yc_visit_shape(n: SpecNode, p: Option<Seq<char>>)
    ensures
        all_step_from_parent(yc_visit(n, p, p)),
        parents_come_first(yc_visit(n, p, p), p),
        keys_plain(n) ==> all_step_exactly(yc_visit(n, p, p)),
    decreases n,
{
    if n.kind == SyntaxKind::Object {
        match n.name {
            None => {
                lemma_yc_list_shape(n.children, p);
            },
            Some(name) => {
                let path = Some(dotted(p, name));
                let own = seq![
                    RawChunk { kind: ChunkKind::Object, name: Some(name), parent: p, path, span: n.span },
                ];
                lemma_yc_list_shape(n.children, path);
                lemma_steps_concat(own, yc_list(n.children, path, path));
                if keys_plain(n) {
                    assert(steps_exactly(own[0]));
                    lemma_exact_concat(own, yc_list(n.children, path, path));
                }
                assert(own[0].path == path);
                lemma_parents_concat(own, yc_list(n.children, path, path), p, path);
            },
        }
    } else if n.kind == SyntaxKind::Array {
        match n.name {
            None => {
                lemma_yc_items_shape(n.children, p, false);
            },
            Some(name) => {
                let path = Some(dotted(p, name));
                let own = seq![
                    RawChunk { kind: ChunkKind::Array, name: Some(name), parent: p, path, span: n.span },
                ];
                lemma_yc_items_shape(n.children, path, true);
                lemma_steps_concat(own, yc_items(n.children, path, true));
                if keys_plain(n) {
                    assert(steps_exactly(own[0]));
                    lemma_exact_concat(own, yc_items(n.children, path, true));
                }
                assert(own[0].path == path);
                lemma_parents_concat(own, yc_items(n.children, path, true), p, path);
            },
        }
    } else if is_scalar_kind(n.kind) && n.name is Some {
        let own = yc_visit(n, p, p);
        assert(keys_plain(n) ==> steps_exactly(own[0]));
    } else {
        lemma_yc_list_shape(n.children, p);
    }
}

proof fn lemma_yc_list_shape(cs: Seq<SpecNode>, p: Option<Seq<char>>)
    ensures
        all_step_from_parent(yc_list(cs, p, p)),
        parents_come_first(yc_list(cs, p, p), p),
        (forall|i: int| 0 <= i < cs.len() ==> keys_plain(#[trigger] cs[i])) ==> all_step_exactly(yc_list(cs, p, p)),
    decreases cs,
{
    if cs.len() > 0 {
        assert(cs.last() == cs[cs.len() - 1]);
        assert forall|i: int| 0 <= i < cs.drop_last().len() implies #[trigger] cs.drop_last()[i] == cs[i] by {}
        lemma_yc_list_shape(cs.drop_last(), p);
        lemma_yc_visit_shape(cs.last(), p);
        lemma_steps_concat(yc_list(cs.drop_last(), p, p), yc_visit(cs.last(), p, p));
        if forall|i: int| 0 <= i < cs.len() ==> keys_plain(#[trigger] cs[i]) {
            lemma_exact_concat(yc_list(cs.drop_last(), p, p), yc_visit(cs.last(), p, p));
        }
        lemma_parents_concat(yc_list(cs.drop_last(), p, p), yc_visit(cs.last(), p, p), p, p);
    }
}

proof fn lemma_yc_items_shape(cs: Seq<SpecNode>, ap: Option<Seq<char>>, named: bool)
    ensures
        all_step_from_parent(yc_items(cs, ap, named)),
        parents_come_first(yc_items(cs, ap, named), ap),
        (forall|i: int| 0 <= i < cs.len() ==> keys_plain(#[trigger] cs[i])) ==> all_step_exactly(yc_items(cs, ap, named)),
    decreases cs,
{
    if cs.len() > 0 {
        assert(cs.last() == cs[cs.len() - 1]);
        assert forall|i: int| 0 <= i < cs.drop_last().len() implies #[trigger] cs.drop_last()[i] == cs[i] by {}
        let i = (cs.len() - 1) as nat;
        let item = cs.last();
        let path = Some(indexed(ap, i));
        let own = seq![
            RawChunk {
                kind: item_kind(item.kind, named),
                name: Some(indexed(None, i)),
                parent: ap,
                path,
                span: item.span,
            },
        ];
        assert(indexed(ap, i) =~= path_prefix(ap) + indexed(None, i));
        let first = yc_items(cs.drop_last(), ap, named);
        lemma_yc_items_shape(cs.drop_last(), ap, named);
        lemma_yc_visit_shape(item, path);
        lemma_steps_concat(first, own);
        lemma_steps_concat(first + own, yc_visit(item, path, path));
        if forall|k: int| 0 <= k < cs.len() ==> keys_plain(#[trigger] cs[k]) {
            assert(indexed(None, i)[0] == '[');
            assert(steps_exactly(own[0]));
            lemma_exact_concat(first, own);
            lemma_exact_concat(first + own, yc_visit(item, path, path));
        }
        lemma_parents_concat(first, own, ap, ap);
        assert((first + own)[first.len() as int] == own[0]);
        lemma_parents_concat(first + own, yc_visit(item, path, path), ap, path);
    }
}

/// The chunks of a YAML tree: the first is the file chunk of the whole tree;
/// every other chunk's path extends its parent's path by the chunk's name
/// (`parent.name`, or `parent[i]` for an item), and its parent is the path of
/// a chunk that comes before it, or none at the top level. Where no key
/// starts with `'['`, the path is exactly `parent[i]` for an item named
/// `[i]` and `parent.name` (or `name` at the top level) for a key.
pub proof fn lemma_yaml_chunk_paths(root: SpecNode)
    ensures
        yaml_raw_chunks(root)[0] == (RawChunk {
            kind: ChunkKind::File,
            name: None,
            parent: None,
            path: None,
            span: root.span,
        }),
        forall|i: int| 1 <= i < yaml_raw_chunks(root).len() ==> steps_from_parent(#[trigger] yaml_raw_chunks(root)[i]),
        parents_come_first(yaml_raw_chunks(root), None),
        keys_plain(root) ==> forall|i: int|
            1 <= i < yaml_raw_chunks(root).len() ==> steps_exactly(#[trigger] yaml_raw_chunks(root)[i]),
{
    let file = seq![RawChunk { kind: ChunkKind::File, name: None, parent: None, path: None, span: root.span }];
    let rest = yc_list(root.children, None, None);
    lemma_yc_list_shape(root.children, None);
    assert(parents_come_first(file, None));
    lemma_parents_concat(file, rest, None, None);
    let all = yaml_raw_chunks(root);
    assert forall|i: int| 1 <= i < all.len() implies steps_from_parent(#[trigger] all[i]) && (keys_plain(root)
        ==> steps_exactly(all[i])) by {
        assert(all[i] == rest[i - 1]);
    }
}

/// A copy of an optional path.
fn copy_path(p: Option<&ChunkPath>) -> (r: Option<ChunkPath>)
    ensures
        opt_path_view(r) == opt_ref_path_view(p),
{
    match p {
        Some(p) => Some(ChunkPath::new(p.as_str())),
        None => None,
    }
}

fn path_str(p: Option<&ChunkPath>) -> (r: Option<&str>)
    ensures
        crate::chunking::opt_str_view(r) == opt_ref_path_view(p),
{
    match p {
        Some(p) => Some(p.as_str()),
        None => None,
    }
}

pub struct YamlChunker;

impl YamlChunker {
    /// The chunks of the tree `root` over `source`, in document order.
    pub fn chunk(&self, root: &SyntaxNode, source: &Source) -> (chunks: Vec<CodeChunk>)
        requires
            all_renderable(yaml_raw_chunks(node_view(*root)), source.text()),
        ensures
            chunks_view(chunks@) == render_all(yaml_raw_chunks(node_view(*root)), source.text(), Language::Yaml),
    {
        let ghost b = source.text();
        let ghost file = seq![RawChunk { kind: ChunkKind::File, name: None, parent: None, path: None, span: root.span }];
        proof {
            lemma_render_concat(file, yc_list(nodes_view(root.children@), None, None), b, Language::Yaml);
        }
        assert(renderable(file[0], b));
        let mut chunks: Vec<CodeChunk> = Vec::new();
        let file_chunk = make_chunk(source, ChunkKind::File, None, None, None, Language::Yaml, root.span);
        chunks.push(file_chunk);
        assert(chunks_view(chunks@) =~= render_all(file, b, Language::Yaml));
        self.visit_children(root, source, None, None, &mut chunks);
        chunks
    }

    fn visit(
        &self,
        node: &SyntaxNode,
        source: &Source,
        parent: Option<&ChunkPath>,
        parent_path: Option<&ChunkPath>,
        chunks: &mut Vec<CodeChunk>,
    )
        requires
            all_renderable(yc_visit(node_view(*node), opt_ref_path_view(parent), opt_ref_path_view(parent_path)), source.text()),
        ensures
            chunks_view(final(chunks)@) == chunks_view(old(chunks)@) + render_all(
                yc_visit(node_view(*node), opt_ref_path_view(parent), opt_ref_path_view(parent_path)),
                source.text(),
                Language::Yaml,
            ),
        decreases node, 2int,
    {
        match node.kind {
            SyntaxKind::Object => {
                self.visit_object(node, source, parent, parent_path, chunks);
            },
            SyntaxKind::Array => {
                self.visit_array(node, source, parent, parent_path, chunks);
            },
            SyntaxKind::Property | SyntaxKind::String | SyntaxKind::Number | SyntaxKind::Boolean | SyntaxKind::Null => {
                if node.name.is_some() {
                    self.visit_property(node, source, parent, parent_path, chunks);
                } else {
                    self.visit_children(node, source, parent, parent_path, chunks);
                }
            },
            _ => {
                self.visit_children(node, source, parent, parent_path, chunks);
            },
        }
    }

    /// Visits every child of `node` under the same parent.
    fn visit_children(
        &self,
        node: &SyntaxNode,
        source: &Source,
        parent: Option<&ChunkPath>,
        parent_path: Option<&ChunkPath>,
        chunks: &mut Vec<CodeChunk>,
    )
        requires
            all_renderable(yc_list(nodes_view(node.children@), opt_ref_path_view(parent), opt_ref_path_view(parent_path)), source.text()),
        ensures
            chunks_view(final(chunks)@) == chunks_view(old(chunks)@) + render_all(
                yc_list(nodes_view(node.children@), opt_ref_path_view(parent), opt_ref_path_view(parent_path)),
                source.text(),
                Language::Yaml,
            ),
        decreases node, 0int,
    {
        let ghost b = source.text();
        let ghost cs = nodes_view(node.children@);
        let ghost pv = opt_ref_path_view(parent);
        let ghost ppv = opt_ref_path_view(parent_path);
        let ghost base = chunks_view(chunks@);
        let mut i: usize = 0;
        assert(cs.take(0) =~= seq![]);
        while i < node.children.len()
            invariant
                i <= node.children@.len() == cs.len(),
                cs == nodes_view(node.children@),
                b == source.text(),
                pv == opt_ref_path_view(parent),
                ppv == opt_ref_path_view(parent_path),
                all_renderable(yc_list(cs, pv, ppv), b),
                chunks_view(chunks@) == base + render_all(yc_list(cs.take(i as int), pv, ppv), b, Language::Yaml),
            decreases node.children@.len() - i,
        {
            let ghost before = yc_list(cs.take(i as int), pv, ppv);
            proof {
                lemma_yc_list_take(cs, i + 1, pv, ppv);
                assert(cs.take(i + 1).drop_last() =~= cs.take(i as int));
                assert(cs.take(i + 1).last() == node_view(node.children@[i as int]));
                lemma_renderable_prefix(yc_list(cs, pv, ppv), yc_list(cs.take(i + 1), pv, ppv).len() as int, b);
                lemma_render_concat(before, yc_visit(cs[i as int], pv, ppv), b, Language::Yaml);
                assert(yc_list(cs.take(i + 1), pv, ppv) == before + yc_visit(cs[i as int], pv, ppv));
            }
            let child = &node.children[i];
            self.visit(child, source, parent, parent_path, chunks);
            i += 1;
            assert(chunks_view(chunks@) =~= base + render_all(yc_list(cs.take(i as int), pv, ppv), b, Language::Yaml));
        }
        assert(cs.take(i as int) =~= cs);
    }

    fn visit_array(
        &self,
        node: &SyntaxNode,
        source: &Source,
        parent: Option<&ChunkPath>,
        parent_path: Option<&ChunkPath>,
        chunks: &mut Vec<CodeChunk>,
    )
        requires
            node.kind == SyntaxKind::Array,
            all_renderable(yc_visit(node_view(*node), opt_ref_path_view(parent), opt_ref_path_view(parent_path)), source.text()),
        ensures
            chunks_view(final(chunks)@) == chunks_view(old(chunks)@) + render_all(
                yc_visit(node_view(*node), opt_ref_path_view(parent), opt_ref_path_view(parent_path)),
                source.text(),
                Language::Yaml,
            ),
        decreases node, 1int,
    {
        let ghost b = source.text();
        let ghost cs = nodes_view(node.children@);
        let named = node.name.is_some();
        let array_path: Option<ChunkPath> = match &node.name {
            Some(name) => Some(ChunkPath::from_string(dotted_path(path_str(parent_path), name.as_str()))),
            None => copy_path(parent_path),
        };
        if let Some(name) = &node.name {
            let ghost own = seq![RawChunk {
                kind: ChunkKind::Array,
                name: Some(name@),
                parent: opt_ref_path_view(parent),
                path: opt_path_view(array_path),
                span: node.span,
            }];
            proof {
                lemma_render_concat(own, yc_items(cs, opt_path_view(array_path), true), b, Language::Yaml);
                assert(renderable(own[0], b));
            }
            let path_chunk = copy_path(array_path.as_ref());
            let c = make_chunk(
                source,
                ChunkKind::Array,
                Some(String::from_str(name.as_str())),
                copy_path(parent),
                path_chunk,
                Language::Yaml,
                node.span,
            );
            let ghost base = chunks_view(chunks@);
            chunks.push(c);
            assert(chunks_view(chunks@) =~= base + render_all(own, b, Language::Yaml));
        }
        let ghost ap = opt_path_view(array_path);
        let ghost base = chunks_view(chunks@);
        let mut i: usize = 0;
        assert(cs.take(0) =~= seq![]);
        while i < node.children.len()
            invariant
                i <= node.children@.len() == cs.len(),
                cs == nodes_view(node.children@),
                ap == opt_path_view(array_path),
                named == node.name is Some,
                b == source.text(),
                all_renderable(yc_items(cs, ap, named), b),
                chunks_view(chunks@) == base + render_all(yc_items(cs.take(i as int), ap, named), b, Language::Yaml),
            decreases node.children@.len() - i,
        {
            let child = &node.children[i];
            let item_path = ChunkPath::from_string(indexed_path(path_str(array_path.as_ref()), i));
            let kind = match child.kind {
                SyntaxKind::Object => ChunkKind::Object,
                SyntaxKind::Array => ChunkKind::Array,
                SyntaxKind::Property => if named {
                    ChunkKind::Block
                } else {
                    ChunkKind::Property
                },
                SyntaxKind::String | SyntaxKind::Number | SyntaxKind::Boolean | SyntaxKind::Null => ChunkKind::Property,
                _ => ChunkKind::Block,
            };
            let ghost before = yc_items(cs.take(i as int), ap, named);
            let ghost own = seq![RawChunk {
                kind: item_kind(child.kind, named),
                name: Some(indexed(None, i as nat)),
                parent: ap,
                path: Some(item_path@),
                span: child.span,
            }];
            proof {
                lemma_yc_items_take(cs, i + 1, ap, named);
                assert(cs.take(i + 1).drop_last() =~= cs.take(i as int));
                assert(cs.take(i + 1).last() == node_view(node.children@[i as int]));
                lemma_renderable_prefix(yc_items(cs, ap, named), yc_items(cs.take(i + 1), ap, named).len() as int, b);
                assert(yc_items(cs.take(i + 1), ap, named) == (before + own) + yc_visit(cs[i as int], Some(item_path@), Some(item_path@)));
                lemma_render_concat(before + own, yc_visit(cs[i as int], Some(item_path@), Some(item_path@)), b, Language::Yaml);
                lemma_render_concat(before, own, b, Language::Yaml);
                assert(renderable(own[0], b));
            }
            let c = make_chunk(
                source,
                kind,
                Some(indexed_path(None, i)),
                copy_path(array_path.as_ref()),
                Some(ChunkPath::new(item_path.as_str())),
                Language::Yaml,
                child.span,
            );
            let ghost mid = chunks_view(chunks@);
            chunks.push(c);
            assert(chunks_view(chunks@) =~= mid + render_all(own, b, Language::Yaml));
            self.visit(child, source, Some(&item_path), Some(&item_path), chunks);
            i += 1;
            assert(chunks_view(chunks@) =~= base + render_all(yc_items(cs.take(i as int), ap, named), b, Language::Yaml));
        }
        assert(cs.take(i as int) =~= cs);
        assert(chunks_view(final(chunks)@) =~= chunks_view(old(chunks)@) + render_all(
            yc_visit(node_view(*node), opt_ref_path_view(parent), opt_ref_path_view(parent_path)),
            b,
            Language::Yaml,
        ));
    }

    fn visit_object(
        &self,
        node: &SyntaxNode,
        source: &Source,
        parent: Option<&ChunkPath>,
        parent_path: Option<&ChunkPath>,
        chunks: &mut Vec<CodeChunk>,
    )
        requires
            node.kind == SyntaxKind::Object,
            all_renderable(yc_visit(node_view(*node), opt_ref_path_view(parent), opt_ref_path_view(parent_path)), source.text()),
        ensures
            chunks_view(final(chunks)@) == chunks_view(old(chunks)@) + render_all(
                yc_visit(node_view(*node), opt_ref_path_view(parent), opt_ref_path_view(parent_path)),
                source.text(),
                Language::Yaml,
            ),
        decreases node, 1int,
    {
        let ghost b = source.text();
        let ghost cs = nodes_view(node.children@);
        match &node.name {
            None => {
                self.visit_children(node, source, parent, parent_path, chunks);
            },
            Some(name) => {
                let path = ChunkPath::from_string(dotted_path(path_str(parent_path), name.as_str()));
                let ghost own = seq![RawChunk {
                    kind: ChunkKind::Object,
                    name: Some(name@),
                    parent: opt_ref_path_view(parent),
                    path: Some(path@),
                    span: node.span,
                }];
                proof {
                    lemma_render_concat(own, yc_list(cs, Some(path@), Some(path@)), b, Language::Yaml);
                    assert(renderable(own[0], b));
                }
                let c = make_chunk(
                    source,
                    ChunkKind::Object,
                    Some(String::from_str(name.as_str())),
                    copy_path(parent),
                    Some(ChunkPath::new(path.as_str())),
                    Language::Yaml,
                    node.span,
                );
                let ghost base = chunks_view(chunks@);
                chunks.push(c);
                assert(chunks_view(chunks@) =~= base + render_all(own, b, Language::Yaml));
                self.visit_children(node, source, Some(&path), Some(&path), chunks);
                assert(chunks_view(final(chunks)@) =~= chunks_view(old(chunks)@) + render_all(
                    yc_visit(node_view(*node), opt_ref_path_view(parent), opt_ref_path_view(parent_path)),
                    b,
                    Language::Yaml,
                ));
            },
        }
    }

    fn visit_property(
        &self,
        node: &SyntaxNode,
        source: &Source,
        parent: Option<&ChunkPath>,
        parent_path: Option<&ChunkPath>,
        chunks: &mut Vec<CodeChunk>,
    )
        requires
            is_scalar_kind(node.kind),
            node.name is Some,
            all_renderable(yc_visit(node_view(*node), opt_ref_path_view(parent), opt_ref_path_view(parent_path)), source.text()),
        ensures
            chunks_view(final(chunks)@) == chunks_view(old(chunks)@) + render_all(
                yc_visit(node_view(*node), opt_ref_path_view(parent), opt_ref_path_view(parent_path)),
                source.text(),
                Language::Yaml,
            ),
    {
        let ghost b = source.text();
        let name = match &node.name {
            Some(name) => name,
            None => {
                return;
            },
        };
        let path = dotted_path(path_str(parent_path), name.as_str());
        let ghost own = yc_visit(node_view(*node), opt_ref_path_view(parent), opt_ref_path_view(parent_path));
        assert(renderable(own[0], b));
        let c = make_chunk(
            source,
            ChunkKind::Property,
            Some(String::from_str(name.as_str())),
            copy_path(parent),
            Some(ChunkPath::from_string(path)),
            Language::Yaml,
            node.span,
        );
        let ghost base = chunks_view(chunks@);
        chunks.push(c);
        assert(chunks_view(chunks@) =~= base + render_all(own, b, Language::Yaml));
    }
}

} // verus!

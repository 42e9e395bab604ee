use vstd::prelude::*;

use crate::workspace::node::{differs_from, Direction};
use crate::workspace::shape::lemma_filter_out;
use crate::workspace::operation::{applied, Edit};
use crate::workspace::tree::{developed_through, with_images_cleared, Develop, Tree};

verus! {

/// No node of a tree is among its own ancestors, nor among its own
/// descendants.
pub proof fn law_no_node_is_its_own_relative<P, S, I>(tree: &Tree<P, S, I>, x: u128)
    requires
        tree.wf(),
        tree.has(x),
    ensures
        !tree.upstream(x).contains(x),
        !tree.downstream(x).contains(x),
{
    tree.shape().lemma_not_own_relative(x);
}

/// The descendants of a node are listed once each.
pub proof fn law_downstream_lists_each_node_once<P, S, I>(tree: &Tree<P, S, I>, x: u128)
    requires
        tree.wf(),
        tree.has(x),
    ensures
        tree.downstream(x).no_duplicates(),
{
    tree.shape().lemma_downstream_no_duplicates(x);
}

/// Pruning from a node, in either direction, leaves the cached image of that
/// node alone: it is not among the nodes whose images are cleared.
pub proof fn law_prune_spares_the_start<P, S, I>(tree: &Tree<P, S, I>, start: u128, direction: Direction)
    requires
        tree.wf(),
        tree.has(start),
    ensures
        !tree.prune_list(start, direction).contains(start),
        with_images_cleared(tree.nodes(), tree.prune_list(start, direction))[tree.shape().index_of(start)]
            == tree.node(start),
{
    tree.shape().lemma_not_own_relative(start);
    tree.shape().lemma_has(start);
    let i = tree.shape().index_of(start);
    assert(tree.shape().ids()[i] == start);
    assert(tree.shape().links[i] == tree.nodes()[i].link());
}

/// `y` is downstream of `x` exactly when `x` is upstream of `y`.
pub proof fn law_downstream_iff_upstream<P, S, I>(tree: &Tree<P, S, I>, x: u128, y: u128)
    requires
        tree.wf(),
        tree.has(x),
        tree.has(y),
    ensures
        tree.downstream(x).contains(y) <==> tree.upstream(y).contains(x),
{
    tree.shape().lemma_downstream_iff_upstream(x, y);
}

/// Removing a node preserves heredity: the ancestors of every other node are
/// those it had, in their order, without the removed node.
pub proof fn law_removal_keeps_heredity<P, S, I>(
    before: &Tree<P, S, I>,
    after: &Tree<P, S, I>,
    removed: u128,
    y: u128,
)
    requires
        before.wf(),
        before.has(removed),
        removed != before.root(),
        after.shape() == before.shape().removed(removed),
        before.has(y),
        y != removed,
    ensures
        after.upstream(y) == before.upstream(y).filter(differs_from(removed)),
{
    before.shape().lemma_removed_upstream(removed, y);
}

/// Inserting a node `x` below `p` puts it before exactly the nodes that came
/// after `p`, and leaves the rest of the ancestors of every node as they
/// were.
pub proof fn law_insertion_keeps_heredity<P, S, I>(
    before: &Tree<P, S, I>,
    after: &Tree<P, S, I>,
    p: u128,
    x: u128,
    y: u128,
)
    requires
        before.wf(),
        before.has(p),
        !before.has(x),
        after.shape() == before.shape().inserted(p, x),
        before.has(y),
    ensures
        after.upstream(y).filter(differs_from(x)) == before.upstream(y),
        after.upstream(y).contains(x) <==> before.downstream(p).contains(y),
        after.upstream(x) == seq![p] + before.upstream(p),
{
    let s = before.shape();
    s.lemma_inserted_upstream(p, x, y);
    s.lemma_downstream_iff_upstream(p, y);
    s.lemma_inserted(p, x);
    s.lemma_inserted_links(p, x);
    s.lemma_inserted_upstream(p, x, p);
    s.lemma_not_own_relative(p);
    lemma_filter_out(s.inserted(p, x).upstream(p), x);
    assert(s.inserted(p, x).has(x));
}

/// Adding a node `x` to a new branch below `p` leaves the ancestors of every
/// other node as they were; those of `x` are `p` and the ancestors of `p`.
pub proof fn law_branching_keeps_heredity<P, S, I>(
    before: &Tree<P, S, I>,
    after: &Tree<P, S, I>,
    p: u128,
    x: u128,
    y: u128,
)
    requires
        before.wf(),
        before.has(p),
        !before.has(x),
        after.shape() == before.shape().branched(p, x),
        before.has(y),
    ensures
        after.upstream(y) == before.upstream(y),
        after.upstream(x) == seq![p] + before.upstream(p),
{
    before.shape().lemma_branched_upstream(p, x, y);
}

/// Generating the image of a node reads no cached image: two trees that
/// differ only in the images cached in their nodes have the same nodes, and
/// generate the same images for each of them.
pub proof fn law_generating_ignores_cached_images<P, S, I: Develop<S> + Edit + Clone>(
    t1: &Tree<P, S, I>,
    t2: &Tree<P, S, I>,
    x: u128,
    image: I,
)
    requires
        t1.wf(),
        t2.wf(),
        t1.shape() == t2.shape(),
        t1.source() == t2.source(),
        t1.nodes().len() == t2.nodes().len(),
        forall|k: int| 0 <= k < t1.nodes().len() ==> #[trigger] t1.nodes()[k].operation == t2.nodes()[k].operation,
    ensures
        t1.has(x) == t2.has(x),
        t1.has(x) ==> (t1.generates(x, image) <==> t2.generates(x, image)),
{
    if t1.has(x) {
        let s = t1.shape();
        s.lemma_upstream_members(x);
        s.lemma_has(x);
        assert(t1.path_operations(x) =~= t2.path_operations(x)) by {
            assert forall|m: int| 0 <= m < t1.path_operations(x).len() implies t1.path_operations(x)[m]
                == t2.path_operations(x)[m] by {
                if m < t1.upstream(x).len() {
                    let u = t1.upstream(x)[t1.upstream(x).len() - 1 - m];
                    assert(s.has(u));
                    s.lemma_has(u);
                }
            }
        }
    }
}

/// The image generated for a node other than the root is the image
/// generated for its parent, taken through the node's own operation: each
/// edit above a node enters its image, in order.
pub proof fn law_generation_follows_the_parent<P, S, I: Develop<S> + Edit + Clone>(
    tree: &Tree<P, S, I>,
    x: u128,
    image: I,
)
    requires
        tree.wf(),
        tree.has(x),
        x != tree.root(),
    ensures
        tree.generates(x, image) <==> exists|prev: I|
            tree.generates(tree.shape().parent(x), prev) && applied(tree.node(x).operation, prev, image),
{
    let p = tree.shape().parent(x);
    let o = tree.node(x).operation;
    let src = tree.source().unwrap();
    tree.lemma_path_operations_step(x);
    let ops = tree.path_operations(p);
    if tree.generates(x, image) {
        let c = choose|c: Seq<I>| developed_through(src, tree.path_operations(x), c) && c.last() == image;
        let c2 = c.drop_last();
        let n = ops.len() as int;
        assert(ops.push(o)[n] == o);
        assert(applied(ops.push(o)[n], c[n], c[n + 1]));
        assert forall|i: int| 0 <= i < ops.len() implies applied(#[trigger] ops[i], c2[i], c2[i + 1]) by {
            assert(ops.push(o)[i] == ops[i]);
            assert(applied(ops.push(o)[i], c[i], c[i + 1]));
        }
        assert(developed_through(src, ops, c2));
        assert(c2.last() == c[n]);
        assert(c[n + 1] == image);
        assert(tree.generates(p, c2.last()));
        assert(tree.generates(p, c2.last()) && applied(o, c2.last(), image));
    }
    if exists|prev: I| tree.generates(p, prev) && applied(o, prev, image) {
        let prev = choose|prev: I| tree.generates(p, prev) && applied(o, prev, image);
        let c2 = choose|c: Seq<I>| developed_through(src, ops, c) && c.last() == prev;
        let c = c2.push(image);
        let n = ops.len() as int;
        assert forall|i: int| 0 <= i < ops.push(o).len() implies applied(#[trigger] ops.push(o)[i], c[i], c[i + 1]) by {
            if i < n {
                assert(ops.push(o)[i] == ops[i]);
                assert(c[i] == c2[i] && c[i + 1] == c2[i + 1]);
            } else {
                assert(ops.push(o)[i] == o);
                assert(c[i] == prev);
            }
        }
        assert(c[0] == c2[0]);
        assert(developed_through(src, tree.path_operations(x), c));
        assert(c.last() == image);
        assert(tree.generates(x, image));
    }
}

/// The image generated for the root is the developed source image, taken
/// through the root's operation.
pub proof fn law_generation_starts_from_the_developed_source<P, S, I: Develop<S> + Edit + Clone>(
    tree: &Tree<P, S, I>,
    image: I,
)
    requires
        tree.wf(),
    ensures
        tree.generates(tree.root(), image) <==> exists|d: I|
            call_ensures(<I as Develop<S>>::develop, (&tree.source().unwrap(),), d) && applied(
                tree.node(tree.root()).operation,
                d,
                image,
            ),
{
    let src = tree.source().unwrap();
    let o = tree.node(tree.root()).operation;
    tree.lemma_path_operations_root();
    if tree.generates(tree.root(), image) {
        let c = choose|c: Seq<I>| developed_through(src, tree.path_operations(tree.root()), c) && c.last() == image;
        assert(seq![o][0] == o);
        assert(applied(seq![o][0], c[0], c[1]));
        assert(c[1] == image);
        assert(call_ensures(<I as Develop<S>>::develop, (&src,), c[0]) && applied(o, c[0], image));
    }
    if exists|d: I| call_ensures(<I as Develop<S>>::develop, (&src,), d) && applied(o, d, image) {
        let d = choose|d: I| call_ensures(<I as Develop<S>>::develop, (&src,), d) && applied(o, d, image);
        let c = seq![d, image];
        assert forall|i: int| 0 <= i < seq![o].len() implies applied(#[trigger] seq![o][i], c[i], c[i + 1]) by {
            assert(i == 0);
        }
        assert(developed_through(src, tree.path_operations(tree.root()), c));
        assert(c.last() == image);
        assert(tree.generates(tree.root(), image));
    }
}

/// The ancestors of a node other than the root run from its parent up to
/// the root, each the parent of the one before, each once.
pub proof fn law_ancestors_run_from_the_parent_to_the_root<P, S, I>(tree: &Tree<P, S, I>, x: u128)
    requires
        tree.wf(),
        tree.has(x),
        x != tree.root(),
    ensures
        tree.upstream(x).len() > 0,
        tree.upstream(x)[0] == tree.shape().parent(x),
        tree.upstream(x).last() == tree.root(),
        forall|k: int|
            0 <= k < tree.upstream(x).len() - 1 ==> tree.upstream(x)[k + 1] == tree.shape().parent(
                #[trigger] tree.upstream(x)[k],
            ) && tree.upstream(x)[k] != tree.root(),
        tree.upstream(x).no_duplicates(),
{
    tree.shape().lemma_upstream_chain(x);
    tree.shape().lemma_upstream_distinct(x);
}

/// Pruning from `start` clears the cached image of exactly the nodes on the
/// given side of it: its ancestors upstream, the nodes it is an ancestor of
/// downstream; every other part of every node stays as it was.
pub proof fn law_prune_clears_exactly_one_side<P, S, I>(
    tree: &Tree<P, S, I>,
    start: u128,
    direction: Direction,
    y: u128,
)
    requires
        tree.wf(),
        tree.has(start),
        tree.has(y),
    ensures
        ({
            let after = with_images_cleared(tree.nodes(), tree.prune_list(start, direction))[tree.shape().index_of(
                y,
            )];
            let side = match direction {
                Direction::UpStream => tree.upstream(start).contains(y),
                Direction::DownStream => tree.upstream(y).contains(start),
            };
            &&& after.image == if side {
                None
            } else {
                tree.node(y).image
            }
            &&& after.id == y
            &&& after.operation == tree.node(y).operation
            &&& after.branch_id == tree.node(y).branch_id
            &&& after.parent_id == tree.node(y).parent_id
            &&& after.children_ids == tree.node(y).children_ids
        }),
{
    let s = tree.shape();
    s.lemma_has(y);
    s.lemma_downstream_iff_upstream(start, y);
    let i = s.index_of(y);
    assert(s.links[i] == tree.nodes()[i].link());
}

/// A node holds its generated image exactly when there is a source, the
/// node caches an image, and that image is what generating the image of the
/// node gives.
pub proof fn law_cached_images_are_generated_images<P, S, I: Develop<S> + Edit + Clone>(
    tree: &Tree<P, S, I>,
    x: u128,
)
    ensures
        tree.holds_generated_image(x) <==> tree.source() is Some && tree.node(x).image is Some && tree.generates(
            x,
            tree.node(x).image.unwrap(),
        ),
{
    reveal(Tree::holds_generated_image);
}

/// The end nodes of `x` are exactly the nodes without children at or below
/// `x`: none is missing, and none has a child.
pub proof fn law_end_nodes_are_the_childless_nodes_below<P, S, I>(tree: &Tree<P, S, I>, x: u128, y: u128)
    requires
        tree.wf(),
        tree.has(x),
    ensures
        tree.shape().end_nodes(x).contains(y) <==> tree.has(y) && (y == x || tree.upstream(y).contains(x))
            && tree.shape().children(y).len() == 0,
{
    tree.lemma_end_nodes_exactly(x);
}

} // verus!

use vstd::prelude::*;

use crate::workspace::node::differs_from;

verus! {

/// The links of one node: its id, its parent and its children.
pub struct Link {
    pub id: u128,
    pub parent_id: u128,
    pub children_ids: Seq<u128>,
}

/// The shape of an edit tree: the links of its nodes in storage order, the id
/// of its root, and a rank for each node that grows from parent to child
/// (which shows that following parents always ends at the root).
pub struct Shape {
    pub links: Seq<Link>,
    pub root: u128,
    pub rank: Map<u128, nat>,
}

impl Shape {
    /// The ids of the nodes, in storage order.
    pub open spec fn ids(self) -> Seq<u128> {
        Seq::new(self.links.len(), |i: int| self.links[i].id)
    }

    /// Whether a node carries the id `x`.
    pub open spec fn has(self, x: u128) -> bool {
        self.ids().contains(x)
    }

    /// Where the node with id `x` is stored.
    pub open spec fn index_of(self, x: u128) -> int {
        self.ids().index_of(x)
    }

    /// The links of the node with id `x`.
    pub open spec fn link(self, x: u128) -> Link {
        self.links[self.index_of(x)]
    }

    pub open spec fn parent(self, x: u128) -> u128 {
        self.link(x).parent_id
    }

    pub open spec fn children(self, x: u128) -> Seq<u128> {
        self.link(x).children_ids
    }

    /// A well-formed tree: ids are unique, the root is its own parent, parent
    /// and child links agree both ways, no node lists a child twice, and ranks
    /// are distinct, below the number of nodes, and grow from parent to child.
    pub open spec fn wf(self) -> bool {
        &&& self.has(self.root)
        &&& self.parent(self.root) == self.root
        &&& self.ids().no_duplicates()
        &&& forall|x: u128|
            #![trigger self.has(x)]
            self.has(x) && x != self.root ==> {
                &&& self.has(self.parent(x))
                &&& self.children(self.parent(x)).contains(x)
            }
        &&& forall|x: u128, c: u128|
            #![trigger self.children(x).contains(c)]
            self.has(x) && self.children(x).contains(c) ==> {
                &&& self.has(c)
                &&& self.parent(c) == x
                &&& c != self.root
            }
        &&& forall|x: u128| #![trigger self.has(x)] self.has(x) ==> self.children(x).no_duplicates()
        &&& forall|x: u128|
            #![trigger self.has(x)]
            self.has(x) ==> {
                &&& self.rank.contains_key(x)
                &&& self.rank[x] < self.links.len()
                &&& (x != self.root ==> self.rank[self.parent(x)] < self.rank[x])
            }
        &&& forall|x: u128, y: u128|
            #![trigger self.has(x), self.has(y)]
            self.has(x) && self.has(y) && x != y ==> self.rank[x] != self.rank[y]
    }

    /// The proper ancestors of `x`: its parent first, the root last.
    pub open spec fn upstream(self, x: u128) -> Seq<u128>
        decreases self.rank[x],
        when self.wf()
    {
        if !self.has(x) || x == self.root {
            Seq::empty()
        } else {
            seq![self.parent(x)] + self.upstream(self.parent(x))
        }
    }

    /// The children of the nodes of `frontier`, in order.
    pub open spec fn expand(self, frontier: Seq<u128>) -> Seq<u128>
        decreases frontier.len(),
    {
        if frontier.len() == 0 {
            Seq::empty()
        } else {
            self.expand(frontier.drop_last()) + self.children(frontier.last())
        }
    }

    /// `frontier` and the generations below it, level after level, for at
    /// most `fuel` levels.
    pub open spec fn levels(self, frontier: Seq<u128>, fuel: nat) -> Seq<u128>
        decreases fuel,
    {
        if fuel == 0 || frontier.len() == 0 {
            Seq::empty()
        } else {
            frontier + self.levels(self.expand(frontier), (fuel - 1) as nat)
        }
    }

    /// The proper descendants of `x`, generation by generation (breadth first).
    pub open spec fn downstream(self, x: u128) -> Seq<u128> {
        self.levels(self.children(x), self.links.len())
    }

    /// Whether the node `x` has no children.
    pub open spec fn is_end(self) -> spec_fn(u128) -> bool {
        |x: u128| self.children(x).len() == 0
    }

    /// The nodes without children among `x` and its descendants, breadth first.
    pub open spec fn end_nodes(self, x: u128) -> Seq<u128> {
        (seq![x] + self.downstream(x)).filter(self.is_end())
    }

    // lemmas
    pub proof fn lemma_index_of(self, i: int)
        requires
            self.ids().no_duplicates(),
            0 <= i < self.links.len(),
        ensures
            self.has(self.links[i].id),
            self.index_of(self.links[i].id) == i,
            self.link(self.links[i].id) == self.links[i],
    {
        let x = self.links[i].id;
        assert(self.ids()[i] == x);
        let j = self.index_of(x);
        assert(self.ids()[j] == x);
    }

    pub proof fn lemma_has(self, x: u128)
        requires
            self.ids().no_duplicates(),
            self.has(x),
        ensures
            0 <= self.index_of(x) < self.links.len(),
            self.links[self.index_of(x)].id == x,
    {
        let j = self.index_of(x);
        assert(self.ids()[j] == x);
    }

    /// The end nodes at and below `x` are nodes of the tree without children.
    pub proof fn lemma_end_nodes_members(self, x: u128)
        requires
            self.wf(),
            self.has(x),
        ensures
            forall|k: int|
                0 <= k < self.end_nodes(x).len() ==> self.has(#[trigger] self.end_nodes(x)[k])
                    && self.children(self.end_nodes(x)[k]).len() == 0,
    {
        let all = seq![x] + self.downstream(x);
        self.lemma_downstream_members(x);
        assert forall|k: int| 0 <= k < self.end_nodes(x).len() implies self.has(#[trigger] self.end_nodes(x)[k])
            && self.children(self.end_nodes(x)[k]).len() == 0 by {
            let e = self.end_nodes(x)[k];
            assert(self.end_nodes(x).contains(e));
            all.lemma_filter_contains_rev(self.is_end(), e);
            all.lemma_filter_pred(self.is_end(), k);
            let j = choose|j: int| 0 <= j < all.len() && all[j] == e;
            if j > 0 {
                assert(all[j] == self.downstream(x)[j - 1]);
            }
        }
    }

    /// Every node without children at or below `x` is among the end nodes of
    /// `x`.
    pub proof fn lemma_end_nodes_complete(self, x: u128, y: u128)
        requires
            self.wf(),
            self.has(x),
            self.has(y),
            y == x || self.upstream(y).contains(x),
            self.children(y).len() == 0,
        ensures
            self.end_nodes(x).contains(y),
    {
        let all = seq![x] + self.downstream(x);
        if y == x {
            assert(all[0] == y);
            all.lemma_filter_contains(self.is_end(), 0);
        } else {
            self.lemma_downstream_iff_upstream(x, y);
            let j = choose|j: int| 0 <= j < self.downstream(x).len() && self.downstream(x)[j] == y;
            assert(all[j + 1] == y);
            all.lemma_filter_contains(self.is_end(), j + 1);
        }
    }

    /// The end nodes of `x` lie at or below `x`.
    pub proof fn lemma_end_nodes_below(self, x: u128, y: u128)
        requires
            self.wf(),
            self.has(x),
            self.end_nodes(x).contains(y),
        ensures
            y == x || self.upstream(y).contains(x),
    {
        let all = seq![x] + self.downstream(x);
        all.lemma_filter_contains_rev(self.is_end(), y);
        self.lemma_downstream_members(x);
        let j = choose|j: int| 0 <= j < all.len() && all[j] == y;
        if j > 0 {
            assert(all[j] == self.downstream(x)[j - 1]);
            assert(self.has(y));
            self.lemma_downstream_iff_upstream(x, y);
        }
    }

    /// The ancestors of a node other than the root run from its parent up to
    /// the root, each the parent of the one before.
    #[verifier::spinoff_prover]
    #[verifier::rlimit(40)]
    pub proof fn lemma_upstream_chain(self, x: u128)
        requires
            self.wf(),
            self.has(x),
            x != self.root,
        ensures
            self.upstream(x).len() > 0,
            self.upstream(x)[0] == self.parent(x),
            self.upstream(x).last() == self.root,
            forall|k: int|
                0 <= k < self.upstream(x).len() - 1 ==> self.upstream(x)[k + 1] == self.parent(
                    #[trigger] self.upstream(x)[k],
                ) && self.upstream(x)[k] != self.root,
        decreases self.rank[x],
    {
        let p = self.parent(x);
        assert(self.has(p));
        let up = self.upstream(x);
        let upp = self.upstream(p);
        assert(up == seq![p] + upp);
        if p != self.root {
            self.lemma_upstream_chain(p);
            assert forall|k: int| 0 <= k < up.len() - 1 implies up[k + 1] == self.parent(#[trigger] up[k]) && up[k]
                != self.root by {
                if k > 0 {
                    assert(up[k] == upp[k - 1]);
                    assert(up[k + 1] == upp[k]);
                }
            }
        } else {
            assert(upp == Seq::<u128>::empty());
            assert(up =~= seq![p]);
        }
    }

    /// No node occurs twice among the ancestors of a node.
    #[verifier::spinoff_prover]
    #[verifier::rlimit(40)]
    pub proof fn lemma_upstream_distinct(self, x: u128)
        requires
            self.wf(),
            self.has(x),
        ensures
            self.upstream(x).no_duplicates(),
        decreases self.rank[x],
    {
        if x != self.root {
            let p = self.parent(x);
            assert(self.has(p));
            let up = self.upstream(x);
            let upp = self.upstream(p);
            assert(up == seq![p] + upp);
            self.lemma_upstream_distinct(p);
            self.lemma_upstream_members(p);
            assert forall|i: int, j: int| 0 <= i < j < up.len() implies up[i] != up[j] by {
                assert(up[j] == upp[j - 1]);
                if i == 0 {
                    assert(self.rank[upp[j - 1]] < self.rank[p]);
                } else {
                    assert(up[i] == upp[i - 1]);
                }
            }
        }
    }

    pub proof fn lemma_levels_unfold(self, frontier: Seq<u128>, fuel: nat)
        requires
            fuel > 0,
            frontier.len() > 0,
        ensures
            self.levels(frontier, fuel) == frontier + self.levels(self.expand(frontier), (fuel - 1) as nat),
    {
    }

    pub proof fn lemma_expand_take(self, frontier: Seq<u128>, j: int)
        requires
            0 <= j < frontier.len(),
        ensures
            self.expand(frontier.take(j + 1)) == self.expand(frontier.take(j)) + self.children(frontier[j]),
    {
        assert(frontier.take(j + 1).drop_last() =~= frontier.take(j));
    }

    /// The children of nodes of rank at least `low` are nodes of rank above `low`.
    pub proof fn lemma_expand_members(self, frontier: Seq<u128>, low: int)
        requires
            self.wf(),
            forall|k: int| 0 <= k < frontier.len() ==> self.has(#[trigger] frontier[k]) && self.rank[frontier[k]] >= low,
        ensures
            forall|k: int|
                0 <= k < self.expand(frontier).len() ==> self.has(#[trigger] self.expand(frontier)[k])
                    && self.rank[self.expand(frontier)[k]] >= low + 1,
        decreases frontier.len(),
    {
        if frontier.len() > 0 {
            let rest = frontier.drop_last();
            self.lemma_expand_members(rest, low);
            let f = frontier.last();
            let e = self.expand(frontier);
            assert forall|k: int| 0 <= k < e.len() implies self.has(#[trigger] e[k]) && self.rank[e[k]] >= low + 1 by {
                if k >= self.expand(rest).len() {
                    let c = self.children(f)[k - self.expand(rest).len()];
                    assert(self.children(f).contains(c));
                    assert(self.has(f));
                }
            }
        }
    }

    /// Every node listed in `levels(frontier, fuel)` is a node of the tree.
    pub proof fn lemma_levels_members(self, frontier: Seq<u128>, fuel: nat, low: int)
        requires
            self.wf(),
            forall|k: int| 0 <= k < frontier.len() ==> self.has(#[trigger] frontier[k]) && self.rank[frontier[k]] >= low,
        ensures
            forall|k: int|
                0 <= k < self.levels(frontier, fuel).len() ==> self.has(#[trigger] self.levels(frontier, fuel)[k])
                    && self.rank[self.levels(frontier, fuel)[k]] >= low,
        decreases fuel,
    {
        if fuel > 0 && frontier.len() > 0 {
            self.lemma_expand_members(frontier, low);
            self.lemma_levels_members(self.expand(frontier), (fuel - 1) as nat, low + 1);
            let l = self.levels(frontier, fuel);
            let rest = self.levels(self.expand(frontier), (fuel - 1) as nat);
            assert forall|k: int| 0 <= k < l.len() implies self.has(#[trigger] l[k]) && self.rank[l[k]] >= low by {
                if k >= frontier.len() {
                    assert(l[k] == rest[k - frontier.len()]);
                }
            }
        }
    }

    /// Every proper ancestor of a node is a node of the tree, of lower rank.
    pub proof fn lemma_upstream_members(self, x: u128)
        requires
            self.wf(),
            self.has(x),
        ensures
            forall|k: int|
                0 <= k < self.upstream(x).len() ==> self.has(#[trigger] self.upstream(x)[k])
                    && self.rank[self.upstream(x)[k]] < self.rank[x],
        decreases self.rank[x],
    {
        if x != self.root {
            let p = self.parent(x);
            self.lemma_upstream_members(p);
            let u = self.upstream(x);
            assert forall|k: int| 0 <= k < u.len() implies self.has(#[trigger] u[k]) && self.rank[u[k]] < self.rank[x] by {
                if k > 0 {
                    assert(u[k] == self.upstream(p)[k - 1]);
                }
            }
        }
    }

    /// Every proper descendant of a node is a node of the tree, of higher rank.
    pub proof fn lemma_downstream_members(self, x: u128)
        requires
            self.wf(),
            self.has(x),
        ensures
            forall|k: int|
                0 <= k < self.downstream(x).len() ==> self.has(#[trigger] self.downstream(x)[k])
                    && self.rank[self.downstream(x)[k]] > self.rank[x],
    {
        let ch = self.children(x);
        assert forall|k: int| 0 <= k < ch.len() implies self.has(#[trigger] ch[k]) && self.rank[ch[k]] >= self.rank[x] + 1 by {
            assert(ch.contains(ch[k]));
        }
        self.lemma_levels_members(ch, self.links.len(), (self.rank[x] + 1) as int);
    }

    /// A shape whose links are those of `self`, each changed by `f` (which
    /// keeps ids), followed by the links `new` of a node that `self` lacks.
    #[verifier::spinoff_prover]
    pub proof fn lemma_map_push(self, other: Shape, f: spec_fn(Link) -> Link, new: Link)
        requires
            self.ids().no_duplicates(),
            !self.has(new.id),
            other.links == self.links.map_values(f).push(new),
            forall|l: Link| #[trigger] f(l).id == l.id,
        ensures
            other.ids().no_duplicates(),
            forall|y: u128| #[trigger] other.has(y) <==> self.has(y) || y == new.id,
            forall|y: u128|
                #[trigger] self.has(y) ==> other.index_of(y) == self.index_of(y) && other.link(y) == f(
                    self.link(y),
                ),
            other.link(new.id) == new,
            other.index_of(new.id) == self.links.len(),
    {
        let n = self.links.len();
        assert forall|k: int| 0 <= k < n implies #[trigger] other.ids()[k] == self.ids()[k] by {
            assert(other.links[k] == f(self.links[k]));
        }
        assert(other.ids()[n as int] == new.id);
        assert forall|i: int, j: int| 0 <= i < other.links.len() && 0 <= j < other.links.len() && i != j
            implies other.ids()[i] != other.ids()[j] by {
            if i < n && j < n {
            } else if i < n {
                assert(self.ids()[i] == other.ids()[i]);
            } else if j < n {
                assert(self.ids()[j] == other.ids()[j]);
            }
        }
        assert forall|y: u128| #[trigger] other.has(y) <==> self.has(y) || y == new.id by {
            if other.has(y) && y != new.id {
                let k = choose|k: int| 0 <= k < other.ids().len() && other.ids()[k] == y;
                assert(self.ids()[k] == y);
            }
            if self.has(y) {
                let k = choose|k: int| 0 <= k < self.ids().len() && self.ids()[k] == y;
                assert(other.ids()[k] == y);
            }
        }
        assert forall|y: u128| #[trigger] self.has(y) implies other.index_of(y) == self.index_of(y)
            && other.link(y) == f(self.link(y)) by {
            self.lemma_has(y);
            let k = self.index_of(y);
            assert(other.links[k] == f(self.links[k]));
            other.lemma_index_of(k);
        }
        assert(other.links[n as int] == new);
        other.lemma_index_of(n as int);
    }

    /// The links of `l` with `x` added after its children when it is `p`.
    pub open spec fn add_child_of(p: u128, x: u128) -> spec_fn(Link) -> Link {
        |l: Link|
            if l.id == p {
                Link { children_ids: l.children_ids.push(x), ..l }
            } else {
                l
            }
    }

    /// The tree with a new node `x` added as the last child of `p`.
    pub open spec fn branched(self, p: u128, x: u128) -> Shape {
        Shape {
            links: self.links.map_values(Shape::add_child_of(p, x)).push(
                Link { id: x, parent_id: p, children_ids: Seq::empty() },
            ),
            root: self.root,
            rank: self.rank.insert(x, self.links.len()),
        }
    }

    /// Adding a new leaf keeps the tree well formed.
    #[verifier::spinoff_prover]
    pub proof fn lemma_branched(self, p: u128, x: u128)
        requires
            self.wf(),
            self.has(p),
            !self.has(x),
        ensures
            self.branched(p, x).wf(),
            forall|y: u128| #[trigger] self.branched(p, x).has(y) <==> self.has(y) || y == x,
            forall|y: u128|
                #[trigger] self.has(y) ==> self.branched(p, x).parent(y) == self.parent(y)
                    && self.branched(p, x).children(y) == if y == p {
                    self.children(y).push(x)
                } else {
                    self.children(y)
                },
            self.branched(p, x).parent(x) == p,
            self.branched(p, x).children(x) == Seq::<u128>::empty(),
    {
        let b = self.branched(p, x);
        let f = Shape::add_child_of(p, x);
        let new = Link { id: x, parent_id: p, children_ids: Seq::empty() };
        self.lemma_map_push(b, f, new);
        assert forall|y: u128| #[trigger] self.has(y) implies b.parent(y) == self.parent(y) && b.children(y)
            == if y == p {
            self.children(y).push(x)
        } else {
            self.children(y)
        } by {
            self.lemma_has(y);
        }
        assert(!self.children(p).contains(x));
        assert forall|y: u128, c: u128| #[trigger] b.children(y).contains(c) && b.has(y) implies b.has(c)
            && b.parent(c) == y && c != b.root by {
            if y == p {
                lemma_push_contains_u128(self.children(p), x, c);
            }
            if y != x && c != x {
                assert(self.children(y).contains(c));
            }
        }
        assert forall|y: u128| #[trigger] b.has(y) && y != b.root implies b.has(b.parent(y))
            && b.children(b.parent(y)).contains(y) by {
            if y != x {
                let q = self.parent(y);
                assert(self.has(q));
                assert(self.children(q).contains(y));
                if q == p {
                    lemma_push_contains_u128(self.children(p), x, y);
                }
            } else {
                lemma_push_contains_u128(self.children(p), x, x);
            }
        }
        assert forall|y: u128| #[trigger] b.has(y) implies b.children(y).no_duplicates() by {
            if y == p {
                assert forall|i: int, j: int| 0 <= i < b.children(y).len() && 0 <= j < b.children(y).len() && i != j
                    implies b.children(y)[i] != b.children(y)[j] by {
                    let s = self.children(p);
                    if i < s.len() && j == s.len() {
                        assert(s.contains(s[i]));
                    } else if j < s.len() && i == s.len() {
                        assert(s.contains(s[j]));
                    }
                }
            }
        }
    }
}

impl Shape {
    /// The proper ancestors of `x` stay the same in a tree where `x` and
    /// each of them keep their parent.
    pub proof fn lemma_upstream_same(self, other: Shape, x: u128)
        requires
            self.wf(),
            other.wf(),
            self.has(x),
            self.root == other.root,
            forall|y: u128|
                (y == x || self.upstream(x).contains(y)) ==> other.has(y) && other.parent(y) == self.parent(y),
        ensures
            other.upstream(x) == self.upstream(x),
        decreases self.rank[x],
    {
        if x != self.root {
            let p = self.parent(x);
            assert(self.upstream(x)[0] == p);
            assert forall|y: u128| (y == p || self.upstream(p).contains(y)) implies other.has(y)
                && other.parent(y) == self.parent(y) by {
                if self.upstream(p).contains(y) {
                    let k = choose|k: int| 0 <= k < self.upstream(p).len() && self.upstream(p)[k] == y;
                    assert(self.upstream(x)[k + 1] == y);
                }
            }
            self.lemma_upstream_same(other, p);
        }
    }
}

impl Shape {
    /// The links of `l` once `x` is put between `p` and the children of `p`.
    pub open spec fn insert_below(self, p: u128, x: u128) -> spec_fn(Link) -> Link {
        |l: Link|
            if l.id == p {
                Link { children_ids: seq![x], ..l }
            } else if self.children(p).contains(l.id) {
                Link { parent_id: x, ..l }
            } else {
                l
            }
    }

    /// The ranks once `x` is put right below `p`: every rank above that of
    /// `p` moves up by one to make room.
    pub open spec fn insert_rank(self, p: u128, x: u128) -> Map<u128, nat> {
        Map::new(
            |y: u128| self.has(y) || y == x,
            |y: u128|
                if y == x {
                    self.rank[p] + 1
                } else if self.rank[y] > self.rank[p] {
                    self.rank[y] + 1
                } else {
                    self.rank[y]
                },
        )
    }

    /// The tree with a new node `x` put between `p` and its children: `x`
    /// becomes the only child of `p`, and the former children of `p` become
    /// the children of `x`.
    pub open spec fn inserted(self, p: u128, x: u128) -> Shape {
        Shape {
            links: self.links.map_values(self.insert_below(p, x)).push(
                Link { id: x, parent_id: p, children_ids: self.children(p) },
            ),
            root: self.root,
            rank: self.insert_rank(p, x),
        }
    }

    /// The links of the nodes once a new node is put below `p`.
    #[verifier::spinoff_prover]
    pub proof fn lemma_inserted_links(self, p: u128, x: u128)
        requires
            self.wf(),
            self.has(p),
            !self.has(x),
        ensures
            self.inserted(p, x).ids().no_duplicates(),
            forall|y: u128| #[trigger] self.inserted(p, x).has(y) <==> self.has(y) || y == x,
            forall|y: u128|
                #[trigger] self.has(y) ==> self.inserted(p, x).parent(y) == (if self.children(p).contains(y) {
                    x
                } else {
                    self.parent(y)
                }) && self.inserted(p, x).children(y) == (if y == p {
                    seq![x]
                } else {
                    self.children(y)
                }),
            self.inserted(p, x).parent(x) == p,
            self.inserted(p, x).children(x) == self.children(p),
            !self.children(p).contains(p),
            !self.children(p).contains(x),
            !self.children(p).contains(self.root),
    {
        let b = self.inserted(p, x);
        let f = self.insert_below(p, x);
        let new = Link { id: x, parent_id: p, children_ids: self.children(p) };
        self.lemma_map_push(b, f, new);
        assert(!self.children(p).contains(p)) by {
            if self.children(p).contains(p) {
                assert(self.parent(p) == p);
                assert(p != self.root);
            }
        }
        assert forall|y: u128| #[trigger] self.has(y) implies b.parent(y) == (if self.children(p).contains(y) {
            x
        } else {
            self.parent(y)
        }) && b.children(y) == (if y == p {
            seq![x]
        } else {
            self.children(y)
        }) by {
            self.lemma_has(y);
        }
    }

    /// Putting a new node below `p` keeps the tree well formed.
    #[verifier::spinoff_prover]
    pub proof fn lemma_inserted(self, p: u128, x: u128)
        requires
            self.wf(),
            self.has(p),
            !self.has(x),
        ensures
            self.inserted(p, x).wf(),
    {
        let b = self.inserted(p, x);
        self.lemma_inserted_links(p, x);
        assert(b.has(b.root));
        assert(b.parent(b.root) == b.root);
        assert forall|y: u128, c: u128| #[trigger] b.children(y).contains(c) && b.has(y) implies b.has(c)
            && b.parent(c) == y && c != b.root by {
            if y == p {
                assert(seq![x][0] == x);
                assert(c == x);
            } else if y == x {
                assert(self.children(p).contains(c));
            } else {
                assert(self.children(y).contains(c));
                if self.children(p).contains(c) {
                    assert(self.parent(c) == p);
                }
            }
        }
        assert forall|y: u128| #[trigger] b.has(y) && y != b.root implies b.has(b.parent(y))
            && b.children(b.parent(y)).contains(y) by {
            if y == x {
                assert(seq![x][0] == x);
            } else if self.children(p).contains(y) {
            } else {
                let q = self.parent(y);
                assert(self.has(q));
                assert(self.children(q).contains(y));
            }
        }
        assert forall|y: u128| #[trigger] b.has(y) implies b.children(y).no_duplicates() by {
            if y == p {
                assert(seq![x].len() == 1);
            }
        }
        self.lemma_inserted_rank(p, x);
    }

    #[verifier::spinoff_prover]
    proof fn lemma_inserted_rank_at(self, p: u128, x: u128, y: u128)
        requires
            self.wf(),
            self.has(p),
            !self.has(x),
            self.has(y) || y == x,
            forall|z: u128| #[trigger] self.inserted(p, x).has(z) <==> self.has(z) || z == x,
            self.has(y) ==> self.inserted(p, x).parent(y) == (if self.children(p).contains(y) {
                x
            } else {
                self.parent(y)
            }),
            self.inserted(p, x).parent(x) == p,
        ensures
            self.inserted(p, x).rank.contains_key(y),
            self.inserted(p, x).rank[y] < self.inserted(p, x).links.len(),
            y != self.root ==> self.inserted(p, x).rank[self.inserted(p, x).parent(y)]
                < self.inserted(p, x).rank[y],
    {
        let b = self.inserted(p, x);
        assert(b.has(y));
        if y != x {
            assert(self.rank[y] < self.links.len());
            if y != self.root && !self.children(p).contains(y) {
                let q = self.parent(y);
                assert(self.has(q));
                assert(b.has(q));
            }
            if self.children(p).contains(y) {
                assert(self.parent(y) == p);
            }
        } else {
            assert(b.has(p));
            assert(self.rank[p] < self.links.len());
        }
    }

    #[verifier::spinoff_prover]
    proof fn lemma_inserted_rank(self, p: u128, x: u128)
        requires
            self.wf(),
            self.has(p),
            !self.has(x),
            forall|y: u128| #[trigger] self.inserted(p, x).has(y) <==> self.has(y) || y == x,
            forall|y: u128|
                #[trigger] self.has(y) ==> self.inserted(p, x).parent(y) == (if self.children(p).contains(y) {
                    x
                } else {
                    self.parent(y)
                }),
            self.inserted(p, x).parent(x) == p,
        ensures
            forall|y: u128|
                #![trigger self.inserted(p, x).has(y)]
                self.inserted(p, x).has(y) ==> {
                    &&& self.inserted(p, x).rank.contains_key(y)
                    &&& self.inserted(p, x).rank[y] < self.inserted(p, x).links.len()
                    &&& (y != self.root ==> self.inserted(p, x).rank[self.inserted(p, x).parent(y)]
                        < self.inserted(p, x).rank[y])
                },
            forall|y: u128, z: u128|
                #![trigger self.inserted(p, x).has(y), self.inserted(p, x).has(z)]
                self.inserted(p, x).has(y) && self.inserted(p, x).has(z) && y != z ==> self.inserted(p, x).rank[y]
                    != self.inserted(p, x).rank[z],
    {
        let b = self.inserted(p, x);
        assert forall|y: u128| #[trigger] b.has(y) implies {
            &&& b.rank.contains_key(y)
            &&& b.rank[y] < b.links.len()
            &&& (y != self.root ==> b.rank[b.parent(y)] < b.rank[y])
        } by {
            self.lemma_inserted_rank_at(p, x, y);
        }
        assert forall|y: u128, z: u128| #[trigger] b.has(y) && #[trigger] b.has(z) && y != z implies b.rank[y]
            != b.rank[z] by {
            Shape::lemma_insert_rank_distinct(self.rank, self.has(y), self.has(z), self.has(p), y, z, p, x);
        }
    }

    proof fn lemma_insert_rank_distinct(
        rank: Map<u128, nat>,
        has_y: bool,
        has_z: bool,
        has_p: bool,
        y: u128,
        z: u128,
        p: u128,
        x: u128,
    )
        requires
            has_y || y == x,
            has_z || z == x,
            has_p,
            y != z,
            y == x ==> !has_y,
            z == x ==> !has_z,
            p != x,
            has_y && has_z ==> rank[y] != rank[z],
            has_y && y != p ==> rank[y] != rank[p],
            has_z && z != p ==> rank[z] != rank[p],
        ensures
            (if y == x {
                rank[p] + 1
            } else if rank[y] > rank[p] {
                rank[y] + 1
            } else {
                rank[y]
            }) != (if z == x {
                rank[p] + 1
            } else if rank[z] > rank[p] {
                rank[z] + 1
            } else {
                rank[z]
            }),
    {
    }
}

impl Shape {
    /// No node is among its own ancestors or descendants.
    pub proof fn lemma_not_own_relative(self, x: u128)
        requires
            self.wf(),
            self.has(x),
        ensures
            !self.upstream(x).contains(x),
            !self.downstream(x).contains(x),
    {
        self.lemma_upstream_members(x);
        self.lemma_downstream_members(x);
        if self.upstream(x).contains(x) {
            let k = choose|k: int| 0 <= k < self.upstream(x).len() && self.upstream(x)[k] == x;
            assert(self.rank[self.upstream(x)[k]] < self.rank[x]);
        }
        if self.downstream(x).contains(x) {
            let k = choose|k: int| 0 <= k < self.downstream(x).len() && self.downstream(x)[k] == x;
            assert(self.rank[self.downstream(x)[k]] > self.rank[x]);
        }
    }
}

impl Shape {
    /// A shape whose links are those of `self` without the one stored at
    /// `ri`, each changed by `f` (which keeps ids).
    #[verifier::spinoff_prover]
    pub proof fn lemma_map_remove(self, other: Shape, f: spec_fn(Link) -> Link, ri: int)
        requires
            self.ids().no_duplicates(),
            0 <= ri < self.links.len(),
            other.links == self.links.remove(ri).map_values(f),
            forall|l: Link| #[trigger] f(l).id == l.id,
        ensures
            other.ids().no_duplicates(),
            forall|y: u128| #[trigger] other.has(y) <==> self.has(y) && y != self.links[ri].id,
            forall|y: u128|
                #[trigger] self.has(y) && y != self.links[ri].id ==> other.link(y) == f(self.link(y)),
    {
        let n = self.links.len();
        let r = self.links[ri].id;
        assert forall|k: int| 0 <= k < n - 1 implies #[trigger] other.ids()[k] == self.ids()[if k < ri {
            k
        } else {
            k + 1
        }] by {
            assert(other.links[k] == f(self.links.remove(ri)[k]));
        }
        assert forall|i: int, j: int| 0 <= i < other.links.len() && 0 <= j < other.links.len() && i != j
            implies other.ids()[i] != other.ids()[j] by {
            let i0 = if i < ri { i } else { i + 1 };
            let j0 = if j < ri { j } else { j + 1 };
            assert(other.ids()[i] == self.ids()[i0]);
            assert(other.ids()[j] == self.ids()[j0]);
        }
        assert(self.ids()[ri] == r);
        assert forall|y: u128| #[trigger] other.has(y) <==> self.has(y) && y != r by {
            if other.has(y) {
                let k = choose|k: int| 0 <= k < other.ids().len() && other.ids()[k] == y;
                let k0 = if k < ri { k } else { k + 1 };
                assert(self.ids()[k0] == y);
            }
            if self.has(y) && y != r {
                let k = choose|k: int| 0 <= k < self.ids().len() && self.ids()[k] == y;
                let k1 = if k < ri { k } else { k - 1 };
                assert(other.ids()[k1] == self.ids()[if k1 < ri { k1 } else { k1 + 1 }]);
            }
        }
        assert forall|y: u128| #[trigger] self.has(y) && y != r implies other.link(y) == f(self.link(y)) by {
            self.lemma_has(y);
            let k = self.index_of(y);
            assert(k != ri);
            let k1 = if k < ri { k } else { k - 1 };
            assert(other.links[k1] == f(self.links[k]));
            other.lemma_index_of(k1);
        }
    }
}

impl Shape {
    /// The links of `l` once `r` is taken out and its children are handed to
    /// its parent.
    pub open spec fn lift_children(self, r: u128) -> spec_fn(Link) -> Link {
        |l: Link|
            if l.id == self.parent(r) {
                Link { children_ids: (l.children_ids + self.children(r)).filter(differs_from(r)), ..l }
            } else if self.children(r).contains(l.id) {
                Link { parent_id: self.parent(r), ..l }
            } else {
                l
            }
    }

    /// The ranks once `r` is taken out: every rank above that of `r` moves
    /// down by one to close the gap.
    pub open spec fn remove_rank(self, r: u128) -> Map<u128, nat> {
        Map::new(
            |y: u128| self.has(y) && y != r,
            |y: u128|
                if self.rank[y] > self.rank[r] {
                    (self.rank[y] - 1) as nat
                } else {
                    self.rank[y]
                },
        )
    }

    /// The tree with the node `r` taken out: its children, in their order,
    /// follow the other children of its parent and have that parent as theirs.
    #[verifier::opaque]
    pub open spec fn removed(self, r: u128) -> Shape {
        Shape {
            links: self.links.remove(self.index_of(r)).map_values(self.lift_children(r)),
            root: self.root,
            rank: self.remove_rank(r),
        }
    }

    /// What holds around a node `r` that is not the root.
    #[verifier::spinoff_prover]
    pub proof fn lemma_removed_basics(self, r: u128)
        requires
            self.wf(),
            self.has(r),
            r != self.root,
        ensures
            self.has(self.parent(r)),
            self.parent(r) != r,
            !self.children(r).contains(r),
            !self.children(r).contains(self.parent(r)),
            !self.children(r).contains(self.root),
    {
        let q = self.parent(r);
        assert(self.has(q));
        assert(self.rank[q] < self.rank[r]);
        assert(!self.children(r).contains(r)) by {
            if self.children(r).contains(r) {
                assert(self.parent(r) == r);
            }
        }
        assert(!self.children(r).contains(q)) by {
            if self.children(r).contains(q) {
                assert(self.parent(q) == r);
                assert(self.rank[r] < self.rank[q]);
            }
        }
    }

    /// Which nodes remain once `r` is taken out, and their ranks.
    pub proof fn lemma_removed_domain(self, r: u128)
        requires
            self.ids().no_duplicates(),
            self.has(r),
        ensures
            self.removed(r).ids().no_duplicates(),
            forall|y: u128| #[trigger] self.removed(r).has(y) <==> self.has(y) && y != r,
            self.removed(r).root == self.root,
            self.removed(r).rank == self.remove_rank(r),
            self.removed(r).links.len() == self.links.len() - 1,
    {
        reveal(Shape::removed);
        let ri = self.index_of(r);
        self.lemma_has(r);
        self.lemma_map_remove(self.removed(r), self.lift_children(r), ri);
    }

    /// The links of the nodes once `r` is taken out.
    #[verifier::spinoff_prover]
    pub proof fn lemma_removed_links(self, r: u128)
        requires
            self.ids().no_duplicates(),
            self.has(r),
            !self.children(r).contains(self.parent(r)),
        ensures
            self.removed(r).ids().no_duplicates(),
            forall|y: u128| #[trigger] self.removed(r).has(y) <==> self.has(y) && y != r,
            forall|y: u128|
                #[trigger] self.has(y) && y != r ==> self.removed(r).parent(y) == (if self.children(r).contains(y) {
                    self.parent(r)
                } else {
                    self.parent(y)
                }) && self.removed(r).children(y) == (if y == self.parent(r) {
                    (self.children(y) + self.children(r)).filter(differs_from(r))
                } else {
                    self.children(y)
                }),
            self.removed(r).root == self.root,
            self.removed(r).rank == self.remove_rank(r),
            self.removed(r).links.len() == self.links.len() - 1,
    {
        reveal(Shape::removed);
        let b = self.removed(r);
        let f = self.lift_children(r);
        let ri = self.index_of(r);
        self.lemma_has(r);
        self.lemma_map_remove(b, f, ri);
        let q = self.parent(r);
        assert forall|y: u128| #[trigger] self.has(y) && y != r implies b.parent(y) == (if self.children(r).contains(y) {
            q
        } else {
            self.parent(y)
        }) && b.children(y) == (if y == q {
            (self.children(y) + self.children(r)).filter(differs_from(r))
        } else {
            self.children(y)
        }) by {
            self.lemma_has(y);
            self.lemma_removed_link_at(r, y);
        }
    }

    proof fn lemma_removed_link_at(self, r: u128, y: u128)
        requires
            self.removed(r) == (Shape {
                links: self.links.remove(self.index_of(r)).map_values(self.lift_children(r)),
                root: self.root,
                rank: self.remove_rank(r),
            }),
            self.removed(r).link(y) == self.lift_children(r)(self.link(y)),
            self.link(y).id == y,
            !self.children(r).contains(self.parent(r)),
        ensures
            self.removed(r).parent(y) == (if self.children(r).contains(y) {
                self.parent(r)
            } else {
                self.parent(y)
            }),
            self.removed(r).children(y) == (if y == self.parent(r) {
                (self.children(y) + self.children(r)).filter(differs_from(r))
            } else {
                self.children(y)
            }),
    {
    }
}

impl Shape {
    #[verifier::spinoff_prover]
    proof fn lemma_removed_child_at(self, r: u128, y: u128, c: u128)
        requires
            self.wf(),
            self.has(r),
            r != self.root,
            self.removed(r).has(y),
            self.removed(r).children(y).contains(c),
        ensures
            self.removed(r).has(c),
            self.removed(r).parent(c) == y,
            c != self.root,
    {
        self.lemma_removed_basics(r);
        self.lemma_removed_links(r);
        let q = self.parent(r);
        let rc = self.children(r);
        assert(self.has(y) && y != r);
        if y == q {
            let both = self.children(q) + rc;
            lemma_filter_out(both, r);
            lemma_concat_contains(self.children(q), rc, c);
            assert(c != r);
            if rc.contains(c) {
                assert(self.parent(c) == r);
            } else {
                assert(self.children(q).contains(c));
                assert(self.parent(c) == q);
            }
        } else {
            assert(self.children(y).contains(c));
            assert(self.parent(c) == y);
            if c == r {
                assert(y == q);
            }
            if rc.contains(c) {
                assert(self.parent(c) == r);
            }
        }
    }

    #[verifier::spinoff_prover]
    proof fn lemma_removed_parent_at(self, r: u128, y: u128)
        requires
            self.wf(),
            self.has(r),
            r != self.root,
            self.removed(r).has(y),
            y != self.root,
        ensures
            self.removed(r).has(self.removed(r).parent(y)),
            self.removed(r).children(self.removed(r).parent(y)).contains(y),
    {
        self.lemma_removed_basics(r);
        self.lemma_removed_links(r);
        let q = self.parent(r);
        let rc = self.children(r);
        assert(self.has(y) && y != r);
        if rc.contains(y) {
            let both = self.children(q) + rc;
            lemma_filter_out(both, r);
            lemma_concat_contains(self.children(q), rc, y);
        } else {
            let p = self.parent(y);
            assert(self.has(p));
            assert(self.children(p).contains(y));
            if p == r {
                assert(rc.contains(y));
            }
            if p == q {
                let both = self.children(q) + rc;
                lemma_filter_out(both, r);
                lemma_concat_contains(self.children(q), rc, y);
            }
        }
    }

    #[verifier::spinoff_prover]
    proof fn lemma_removed_no_duplicates_at(self, r: u128, y: u128)
        requires
            self.wf(),
            self.has(r),
            r != self.root,
            self.removed(r).has(y),
        ensures
            self.removed(r).children(y).no_duplicates(),
    {
        self.lemma_removed_basics(r);
        self.lemma_removed_links(r);
        let q = self.parent(r);
        let rc = self.children(r);
        assert(self.has(y) && y != r);
        if y == q {
            let a = self.children(q);
            assert forall|i: int, j: int| 0 <= i < a.len() && 0 <= j < rc.len() implies a[i] != rc[j] by {
                assert(a.contains(a[i]));
                assert(rc.contains(rc[j]));
                assert(self.parent(a[i]) == q);
                assert(self.parent(rc[j]) == r);
            }
            vstd::seq_lib::lemma_no_dup_in_concat(a, rc);
            lemma_filter_out(a + rc, r);
        }
    }
}

impl Shape {
    #[verifier::spinoff_prover]
    proof fn lemma_removed_rank_at(self, r: u128, y: u128)
        requires
            self.wf(),
            self.has(r),
            r != self.root,
            self.removed(r).has(y),
        ensures
            self.removed(r).rank.contains_key(y),
            self.removed(r).rank[y] < self.removed(r).links.len(),
            y != self.root ==> self.removed(r).rank[self.removed(r).parent(y)] < self.removed(r).rank[y],
    {
        self.lemma_removed_basics(r);
        self.lemma_removed_links(r);
        let b = self.removed(r);
        let q = self.parent(r);
        assert(self.has(y) && y != r);
        assert(b.links.len() == self.links.len() - 1);
        assert(self.rank[y] != self.rank[r]);
        assert(self.rank[y] < self.links.len());
        if y != self.root {
            let p = b.parent(y);
            if self.children(r).contains(y) {
                assert(self.parent(y) == r);
                assert(p == q);
                assert(self.rank[q] < self.rank[r]);
            } else {
                assert(p == self.parent(y));
                assert(self.has(p));
                if p == r {
                    assert(self.children(r).contains(y));
                }
                assert(self.rank[p] != self.rank[r]);
                assert(b.has(p));
            }
        }
    }

    /// Taking out a node other than the root keeps the tree well formed.
    #[verifier::spinoff_prover]
    pub proof fn lemma_removed(self, r: u128)
        requires
            self.wf(),
            self.has(r),
            r != self.root,
        ensures
            self.removed(r).wf(),
    {
        self.lemma_removed_root(r);
        self.lemma_removed_domain(r);
        let b = self.removed(r);
        assert forall|y: u128, c: u128| #[trigger] b.children(y).contains(c) && b.has(y) implies b.has(c)
            && b.parent(c) == y && c != b.root by {
            self.lemma_removed_child_at(r, y, c);
        }
        assert forall|y: u128| #[trigger] b.has(y) && y != b.root implies b.has(b.parent(y))
            && b.children(b.parent(y)).contains(y) by {
            self.lemma_removed_parent_at(r, y);
        }
        assert forall|y: u128| #[trigger] b.has(y) implies b.children(y).no_duplicates() by {
            self.lemma_removed_no_duplicates_at(r, y);
        }
        assert forall|y: u128| #[trigger] b.has(y) implies {
            &&& b.rank.contains_key(y)
            &&& b.rank[y] < b.links.len()
            &&& (y != b.root ==> b.rank[b.parent(y)] < b.rank[y])
        } by {
            self.lemma_removed_rank_at(r, y);
        }
        assert forall|y: u128, z: u128| #[trigger] b.has(y) && #[trigger] b.has(z) && y != z implies b.rank[y]
            != b.rank[z] by {
            self.lemma_removed_rank_distinct(r, y, z);
        }
    }

    proof fn lemma_removed_root(self, r: u128)
        requires
            self.wf(),
            self.has(r),
            r != self.root,
        ensures
            self.removed(r).has(self.removed(r).root),
            self.removed(r).parent(self.removed(r).root) == self.removed(r).root,
    {
        self.lemma_removed_basics(r);
        self.lemma_removed_links(r);
    }

    #[verifier::spinoff_prover]
    proof fn lemma_removed_rank_distinct(self, r: u128, y: u128, z: u128)
        requires
            self.wf(),
            self.has(r),
            r != self.root,
            self.removed(r).has(y),
            self.removed(r).has(z),
            y != z,
        ensures
            self.removed(r).rank[y] != self.removed(r).rank[z],
    {
        self.lemma_removed_domain(r);
        assert(self.has(y) && self.has(z));
        assert(self.rank[y] != self.rank[z]);
        assert(self.rank[y] != self.rank[r]);
        assert(self.rank[z] != self.rank[r]);
        Shape::lemma_remove_rank_distinct(self.rank[y], self.rank[z], self.rank[r]);
    }

    proof fn lemma_remove_rank_distinct(ry: nat, rz: nat, rr: nat)
        requires
            ry != rz,
            ry != rr,
            rz != rr,
        ensures
            (if ry > rr {
                (ry - 1) as nat
            } else {
                ry
            }) != (if rz > rr {
                (rz - 1) as nat
            } else {
                rz
            }),
    {
    }
}

impl Shape {
    /// A node outside the ancestors of `x`, of rank at least that of `x`.
    pub proof fn lemma_not_upstream_by_rank(self, x: u128, r: u128)
        requires
            self.wf(),
            self.has(x),
            self.has(r),
            self.rank[r] >= self.rank[x],
        ensures
            !self.upstream(x).contains(r),
    {
        self.lemma_upstream_members(x);
        if self.upstream(x).contains(r) {
            let k = choose|k: int| 0 <= k < self.upstream(x).len() && self.upstream(x)[k] == r;
            assert(self.rank[self.upstream(x)[k]] < self.rank[x]);
        }
    }

    /// Taking out `r` takes it out of the ancestors of every other node, and
    /// changes nothing else in them.
    #[verifier::spinoff_prover]
    pub proof fn lemma_removed_upstream(self, r: u128, y: u128)
        requires
            self.wf(),
            self.has(r),
            r != self.root,
            self.has(y),
            y != r,
        ensures
            self.removed(r).upstream(y) == self.upstream(y).filter(differs_from(r)),
        decreases self.rank[y],
    {
        let b = self.removed(r);
        self.lemma_removed(r);
        self.lemma_removed_basics(r);
        self.lemma_removed_links(r);
        let pred = differs_from(r);
        if y == self.root {
            assert(self.upstream(y) =~= Seq::<u128>::empty());
            reveal(Seq::filter);
            assert(b.upstream(y) =~= Seq::<u128>::empty());
        } else {
            let p = self.parent(y);
            assert(self.has(p));
            if self.children(r).contains(y) {
                let q = self.parent(r);
                assert(p == r);
                assert(b.parent(y) == q);
                assert(self.upstream(y) == seq![r] + self.upstream(r));
                self.upstream(r).lemma_filter_prepend(r, pred);
                self.lemma_not_upstream_by_rank(r, r);
                lemma_filter_out(self.upstream(r), r);
                assert(self.upstream(r) == seq![q] + self.upstream(q));
                self.lemma_removed_upstream(r, q);
                assert(self.rank[q] < self.rank[r]);
                self.lemma_not_upstream_by_rank(q, r);
                lemma_filter_out(self.upstream(q), r);
                assert(b.upstream(y) == seq![q] + b.upstream(q));
            } else {
                assert(b.parent(y) == p);
                assert(p != r) by {
                    if p == r {
                        assert(self.children(r).contains(y));
                    }
                }
                self.lemma_removed_upstream(r, p);
                assert(self.upstream(y) == seq![p] + self.upstream(p));
                self.upstream(p).lemma_filter_prepend(p, pred);
                assert(b.has(y));
                assert(b.upstream(y) == seq![p] + b.upstream(p));
            }
        }
    }
}

impl Shape {
    /// The `j`-th generation below the nodes of `frontier` (`frontier` itself
    /// for `j == 0`).
    pub open spec fn generation(self, frontier: Seq<u128>, j: nat) -> Seq<u128>
        decreases j,
    {
        if j == 0 {
            frontier
        } else {
            self.generation(self.expand(frontier), (j - 1) as nat)
        }
    }

    pub proof fn lemma_generation_step(self, frontier: Seq<u128>, j: nat)
        ensures
            self.generation(frontier, j + 1) == self.expand(self.generation(frontier, j)),
        decreases j,
    {
        assert(self.generation(frontier, j + 1) == self.generation(self.expand(frontier), j));
        if j > 0 {
            self.lemma_generation_step(self.expand(frontier), (j - 1) as nat);
            assert(self.generation(frontier, j) == self.generation(self.expand(frontier), (j - 1) as nat));
        }
    }

    pub proof fn lemma_expand_empty(self, frontier: Seq<u128>)
        requires
            frontier.len() == 0,
        ensures
            self.expand(frontier).len() == 0,
    {
    }

    pub proof fn lemma_generation_in_levels(self, frontier: Seq<u128>, j: nat, fuel: nat, z: u128)
        requires
            self.generation(frontier, j).contains(z),
            j < fuel,
        ensures
            self.levels(frontier, fuel).contains(z),
        decreases j,
    {
        if frontier.len() == 0 {
            self.lemma_generation_of_empty(frontier, j);
        } else if j == 0 {
            let k = choose|k: int| 0 <= k < frontier.len() && frontier[k] == z;
            assert(self.levels(frontier, fuel)[k] == z);
        } else {
            self.lemma_generation_in_levels(self.expand(frontier), (j - 1) as nat, (fuel - 1) as nat, z);
            let rest = self.levels(self.expand(frontier), (fuel - 1) as nat);
            let k = choose|k: int| 0 <= k < rest.len() && rest[k] == z;
            assert(self.levels(frontier, fuel)[frontier.len() + k] == z);
        }
    }

    pub proof fn lemma_generation_of_empty(self, frontier: Seq<u128>, j: nat)
        requires
            frontier.len() == 0,
        ensures
            self.generation(frontier, j).len() == 0,
        decreases j,
    {
        if j > 0 {
            self.lemma_expand_empty(frontier);
            self.lemma_generation_of_empty(self.expand(frontier), (j - 1) as nat);
        }
    }

    /// A child of a node of `frontier` is in `expand(frontier)`.
    pub proof fn lemma_expand_contains(self, frontier: Seq<u128>, w: u128, c: u128)
        requires
            frontier.contains(w),
            self.children(w).contains(c),
        ensures
            self.expand(frontier).contains(c),
        decreases frontier.len(),
    {
        let rest = frontier.drop_last();
        lemma_concat_contains(self.expand(rest), self.children(frontier.last()), c);
        if frontier.last() != w {
            let k = choose|k: int| 0 <= k < frontier.len() && frontier[k] == w;
            assert(rest[k] == w);
            self.lemma_expand_contains(rest, w, c);
        }
    }

    /// Each node of `expand(frontier)` is a child of a node of `frontier`.
    pub proof fn lemma_expand_member(self, frontier: Seq<u128>, c: u128)
        requires
            self.expand(frontier).contains(c),
        ensures
            exists|k: int| 0 <= k < frontier.len() && #[trigger] self.children(frontier[k]).contains(c),
        decreases frontier.len(),
    {
        let rest = frontier.drop_last();
        lemma_concat_contains(self.expand(rest), self.children(frontier.last()), c);
        if self.expand(rest).contains(c) {
            self.lemma_expand_member(rest, c);
            let k = choose|k: int| 0 <= k < rest.len() && #[trigger] self.children(rest[k]).contains(c);
            assert(frontier[k] == rest[k]);
        } else {
            assert(self.children(frontier[frontier.len() - 1]).contains(c));
        }
    }

    pub proof fn lemma_upstream_len(self, x: u128)
        requires
            self.wf(),
            self.has(x),
        ensures
            self.upstream(x).len() <= self.rank[x],
        decreases self.rank[x],
    {
        if x != self.root {
            self.lemma_upstream_len(self.parent(x));
        }
    }

    /// A node whose `m`-th ancestor (counting from 0 at the parent) is `x`
    /// is in the `m`-th generation below the children of `x`.
    pub proof fn lemma_ancestor_generation(self, x: u128, z: u128, m: nat)
        requires
            self.wf(),
            self.has(z),
            m < self.upstream(z).len(),
            self.upstream(z)[m as int] == x,
        ensures
            self.generation(self.children(x), m).contains(z),
        decreases m,
    {
        let p = self.parent(z);
        assert(z != self.root);
        assert(self.has(p));
        assert(self.children(p).contains(z));
        if m == 0 {
        } else {
            assert(self.upstream(z) == seq![p] + self.upstream(p));
            assert(self.upstream(p)[m - 1] == x);
            self.lemma_ancestor_generation(x, p, (m - 1) as nat);
            self.lemma_generation_step(self.children(x), (m - 1) as nat);
            self.lemma_expand_contains(self.generation(self.children(x), (m - 1) as nat), p, z);
        }
    }

    /// Every node below a frontier of descendants of `x` descends from `x`.
    pub proof fn lemma_levels_below(self, frontier: Seq<u128>, fuel: nat, x: u128)
        requires
            self.wf(),
            forall|k: int|
                0 <= k < frontier.len() ==> self.has(#[trigger] frontier[k]) && self.upstream(frontier[k]).contains(x),
        ensures
            forall|k: int|
                0 <= k < self.levels(frontier, fuel).len() ==> self.upstream(#[trigger] self.levels(frontier, fuel)[k]).contains(x),
        decreases fuel,
    {
        if fuel > 0 && frontier.len() > 0 {
            let e = self.expand(frontier);
            assert forall|k: int| 0 <= k < e.len() implies self.has(#[trigger] e[k]) && self.upstream(e[k]).contains(x) by {
                let c = e[k];
                assert(e.contains(c));
                self.lemma_expand_member(frontier, c);
                let j = choose|j: int| 0 <= j < frontier.len() && #[trigger] self.children(frontier[j]).contains(c);
                let f = frontier[j];
                assert(self.has(f));
                assert(self.has(c) && self.parent(c) == f);
                assert(self.upstream(c) == seq![f] + self.upstream(f));
                let i = choose|i: int| 0 <= i < self.upstream(f).len() && self.upstream(f)[i] == x;
                assert(self.upstream(c)[i + 1] == x);
            }
            self.lemma_levels_below(e, (fuel - 1) as nat, x);
            let l = self.levels(frontier, fuel);
            assert forall|k: int| 0 <= k < l.len() implies self.upstream(#[trigger] l[k]).contains(x) by {
                if k >= frontier.len() {
                    assert(l[k] == self.levels(e, (fuel - 1) as nat)[k - frontier.len()]);
                }
            }
        }
    }

    /// `y` is downstream of `x` exactly when `x` is upstream of `y`.
    pub proof fn lemma_downstream_iff_upstream(self, x: u128, y: u128)
        requires
            self.wf(),
            self.has(x),
            self.has(y),
        ensures
            self.downstream(x).contains(y) <==> self.upstream(y).contains(x),
    {
        if self.upstream(y).contains(x) {
            let m = choose|m: int| 0 <= m < self.upstream(y).len() && self.upstream(y)[m] == x;
            self.lemma_ancestor_generation(x, y, m as nat);
            self.lemma_upstream_len(y);
            self.lemma_generation_in_levels(self.children(x), m as nat, self.links.len(), y);
        }
        if self.downstream(x).contains(y) {
            let ch = self.children(x);
            assert forall|k: int| 0 <= k < ch.len() implies self.has(#[trigger] ch[k]) && self.upstream(ch[k]).contains(x) by {
                assert(ch.contains(ch[k]));
                assert(self.parent(ch[k]) == x);
                assert(self.upstream(ch[k])[0] == x);
            }
            self.lemma_levels_below(ch, self.links.len(), x);
            let k = choose|k: int| 0 <= k < self.downstream(x).len() && self.downstream(x)[k] == y;
        }
    }
}

impl Shape {
    /// Adding a leaf leaves the ancestors of every other node as they were.
    pub proof fn lemma_branched_upstream(self, p: u128, x: u128, y: u128)
        requires
            self.wf(),
            self.has(p),
            !self.has(x),
            self.has(y),
        ensures
            self.branched(p, x).upstream(y) == self.upstream(y),
            self.branched(p, x).upstream(x) == seq![p] + self.upstream(p),
    {
        let b = self.branched(p, x);
        self.lemma_branched(p, x);
        self.lemma_upstream_members(y);
        self.lemma_upstream_members(p);
        assert forall|z: u128| (z == y || self.upstream(y).contains(z)) implies b.has(z) && b.parent(z)
            == self.parent(z) by {
            assert(self.has(z));
        }
        self.lemma_upstream_same(b, y);
        assert forall|z: u128| (z == p || self.upstream(p).contains(z)) implies b.has(z) && b.parent(z)
            == self.parent(z) by {
            assert(self.has(z));
        }
        self.lemma_upstream_same(b, p);
        assert(b.has(x));
        assert(x != b.root);
    }

    /// Putting `x` below `p` makes it an ancestor of exactly the nodes that
    /// had `p` for one, and changes nothing else in the ancestors of any
    /// node.
    #[verifier::spinoff_prover]
    pub proof fn lemma_inserted_upstream(self, p: u128, x: u128, y: u128)
        requires
            self.wf(),
            self.has(p),
            !self.has(x),
            self.has(y),
        ensures
            self.inserted(p, x).upstream(y).filter(differs_from(x)) == self.upstream(y),
            self.inserted(p, x).upstream(y).contains(x) <==> self.upstream(y).contains(p),
        decreases self.rank[y],
    {
        let b = self.inserted(p, x);
        let pred = differs_from(x);
        self.lemma_inserted(p, x);
        self.lemma_inserted_links(p, x);
        if y == self.root {
            reveal(Seq::filter);
            assert(b.upstream(y) =~= Seq::<u128>::empty());
            assert(self.upstream(y) =~= Seq::<u128>::empty());
            assert(b.upstream(y).filter(pred) =~= Seq::<u128>::empty());
        } else {
            let q = self.parent(y);
            assert(self.has(q));
            assert(self.upstream(y) == seq![q] + self.upstream(q));
            lemma_concat_contains(seq![q], self.upstream(q), p);
            if self.children(p).contains(y) {
                assert(q == p);
                assert(b.parent(y) == x);
                assert(b.has(x));
                assert(b.upstream(y) == seq![x] + b.upstream(x));
                assert(b.upstream(x) == seq![p] + b.upstream(p));
                self.lemma_inserted_upstream(p, x, p);
                self.lemma_not_own_relative(p);
                b.upstream(x).lemma_filter_prepend(x, pred);
                b.upstream(p).lemma_filter_prepend(p, pred);
                assert(b.upstream(y).filter(pred) =~= self.upstream(y));
                assert(b.upstream(y)[0] == x);
            } else {
                assert(b.parent(y) == q);
                assert(q != x);
                assert(b.has(y));
                assert(b.upstream(y) == seq![q] + b.upstream(q));
                self.lemma_inserted_upstream(p, x, q);
                b.upstream(q).lemma_filter_prepend(q, pred);
                assert(b.upstream(y).filter(pred) =~= self.upstream(y));
                lemma_concat_contains(seq![q], b.upstream(q), x);
                if q == p {
                    assert(self.children(p).contains(y));
                }
                assert(seq![q].contains(p) <==> q == p) by {
                    if seq![q].contains(p) {
                        assert(seq![q][0] == q);
                    }
                    if q == p {
                        assert(seq![q][0] == p);
                    }
                }
                assert(seq![q].contains(x) <==> q == x) by {
                    if seq![q].contains(x) {
                        assert(seq![q][0] == q);
                    }
                }
            }
        }
    }
}

/// What a concatenation contains.
pub proof fn lemma_concat_contains(a: Seq<u128>, b: Seq<u128>, x: u128)
    ensures
        (a + b).contains(x) <==> a.contains(x) || b.contains(x),
{
    if a.contains(x) {
        let k = choose|k: int| 0 <= k < a.len() && a[k] == x;
        assert((a + b)[k] == x);
    }
    if b.contains(x) {
        let k = choose|k: int| 0 <= k < b.len() && b[k] == x;
        assert((a + b)[a.len() + k] == x);
    }
    if (a + b).contains(x) {
        let k = choose|k: int| 0 <= k < (a + b).len() && (a + b)[k] == x;
        if k < a.len() {
            assert(a[k] == x);
        } else {
            assert(b[k - a.len()] == x);
        }
    }
}

/// Taking `r` out of a sequence keeps the other elements, and no duplicates.
pub proof fn lemma_filter_out(s: Seq<u128>, r: u128)
    ensures
        forall|c: u128| #[trigger] s.filter(differs_from(r)).contains(c) <==> s.contains(c) && c != r,
        s.no_duplicates() ==> s.filter(differs_from(r)).no_duplicates(),
        !s.contains(r) ==> s.filter(differs_from(r)) == s,
    decreases s.len(),
{
    reveal(Seq::filter);
    let pred = differs_from(r);
    if s.len() > 0 {
        let rest = s.drop_last();
        let v = s.last();
        lemma_filter_out(rest, r);
        assert(s =~= rest.push(v));
        let fr = rest.filter(pred);
        assert(s.filter(pred) == if pred(v) { fr.push(v) } else { fr });
        assert forall|c: u128| #[trigger] s.filter(pred).contains(c) <==> s.contains(c) && c != r by {
            lemma_push_contains_u128(rest, v, c);
            lemma_push_contains_u128(fr, v, c);
        }
        if s.no_duplicates() {
            assert(rest.no_duplicates());
            if pred(v) {
                assert(!rest.contains(v)) by {
                    if rest.contains(v) {
                        let k = choose|k: int| 0 <= k < rest.len() && rest[k] == v;
                        assert(s[k] == s[s.len() - 1]);
                    }
                }
                assert(!fr.contains(v));
                assert forall|i: int, j: int| 0 <= i < fr.push(v).len() && 0 <= j < fr.push(v).len() && i != j
                    implies fr.push(v)[i] != fr.push(v)[j] by {
                    if i < fr.len() && j == fr.len() {
                        assert(fr.contains(fr[i]));
                    } else if j < fr.len() && i == fr.len() {
                        assert(fr.contains(fr[j]));
                    }
                }
            }
        }
        if !s.contains(r) {
            assert(!rest.contains(r)) by {
                if rest.contains(r) {
                    let k = choose|k: int| 0 <= k < rest.len() && rest[k] == r;
                    assert(s[k] == r);
                }
            }
            assert(v != r);
        }
    } else {
        assert(s.filter(pred) =~= s);
    }
}

/// What a sequence with one more element at its end contains.
pub proof fn lemma_push_contains_u128(s: Seq<u128>, v: u128, x: u128)
    ensures
        s.push(v).contains(x) <==> (s.contains(x) || x == v),
{
    if s.contains(x) {
        let k = choose|k: int| 0 <= k < s.len() && s[k] == x;
        assert(s.push(v)[k] == x);
    }
    if x == v {
        assert(s.push(v)[s.len() as int] == x);
    }
    if s.push(v).contains(x) && x != v {
        let k = choose|k: int| 0 <= k < s.push(v).len() && s.push(v)[k] == x;
        assert(s[k] == x);
    }
}

/// Two sequences without repeats and without a common element concatenate to
/// a sequence without repeats.
pub proof fn lemma_concat_no_duplicates(a: Seq<u128>, b: Seq<u128>)
    requires
        a.no_duplicates(),
        b.no_duplicates(),
        forall|x: u128| a.contains(x) ==> !b.contains(x),
    ensures
        (a + b).no_duplicates(),
{
    let c = a + b;
    assert forall|i: int, j: int| 0 <= i < c.len() && 0 <= j < c.len() && i != j implies c[i] != c[j] by {
        if i < a.len() && j >= a.len() {
            assert(a.contains(c[i]));
            assert(b[j - a.len()] == c[j]);
        } else if j < a.len() && i >= a.len() {
            assert(a.contains(c[j]));
            assert(b[i - a.len()] == c[i]);
        } else if i >= a.len() {
            assert(c[i] == b[i - a.len()] && c[j] == b[j - a.len()]);
        }
    }
}

impl Shape {
    /// The number of proper ancestors of `x`.
    pub open spec fn depth(self, x: u128) -> nat {
        self.upstream(x).len()
    }

    /// A child lies one level below its parent.
    pub proof fn lemma_child_depth(self, p: u128, c: u128)
        requires
            self.wf(),
            self.has(p),
            self.children(p).contains(c),
        ensures
            self.has(c),
            self.parent(c) == p,
            self.depth(c) == self.depth(p) + 1,
    {
        assert(self.has(c) && self.parent(c) == p && c != self.root);
        assert(self.upstream(c) == seq![p] + self.upstream(p));
    }

    /// The children of a generation of distinct nodes at depth `d` are
    /// distinct nodes at depth `d + 1`.
    pub proof fn lemma_expand_distinct(self, frontier: Seq<u128>, d: nat)
        requires
            self.wf(),
            frontier.no_duplicates(),
            forall|k: int| 0 <= k < frontier.len() ==> self.has(#[trigger] frontier[k]) && self.depth(frontier[k]) == d,
        ensures
            self.expand(frontier).no_duplicates(),
            forall|k: int|
                0 <= k < self.expand(frontier).len() ==> self.has(#[trigger] self.expand(frontier)[k]) && self.depth(
                    self.expand(frontier)[k],
                ) == d + 1,
        decreases frontier.len(),
    {
        if frontier.len() > 0 {
            let rest = frontier.drop_last();
            let last = frontier.last();
            let e = self.expand(rest);
            let kids = self.children(last);
            self.lemma_expand_distinct(rest, d);
            assert(self.has(last));
            assert forall|x: u128| e.contains(x) implies !kids.contains(x) by {
                self.lemma_expand_member(rest, x);
                let k = choose|k: int| 0 <= k < rest.len() && #[trigger] self.children(rest[k]).contains(x);
                assert(self.has(rest[k]));
                self.lemma_child_depth(rest[k], x);
                if kids.contains(x) {
                    self.lemma_child_depth(last, x);
                    assert(frontier[k] == rest[k]);
                    assert(frontier[frontier.len() - 1] == last);
                }
            }
            lemma_concat_no_duplicates(e, kids);
            assert(self.expand(frontier) == e + kids);
            assert forall|k: int| 0 <= k < self.expand(frontier).len() implies self.has(
                #[trigger] self.expand(frontier)[k],
            ) && self.depth(self.expand(frontier)[k]) == d + 1 by {
                if k >= e.len() {
                    let c = kids[k - e.len()];
                    assert(kids.contains(c));
                    self.lemma_child_depth(last, c);
                }
            }
        }
    }

    /// The levels below a generation of distinct nodes at depth `d` are
    /// distinct nodes at depth `d` or more.
    pub proof fn lemma_levels_distinct(self, frontier: Seq<u128>, fuel: nat, d: nat)
        requires
            self.wf(),
            frontier.no_duplicates(),
            forall|k: int| 0 <= k < frontier.len() ==> self.has(#[trigger] frontier[k]) && self.depth(frontier[k]) == d,
        ensures
            self.levels(frontier, fuel).no_duplicates(),
            forall|k: int|
                0 <= k < self.levels(frontier, fuel).len() ==> self.depth(#[trigger] self.levels(frontier, fuel)[k]) >= d,
        decreases fuel,
    {
        if fuel > 0 && frontier.len() > 0 {
            let e = self.expand(frontier);
            let rest = self.levels(e, (fuel - 1) as nat);
            self.lemma_expand_distinct(frontier, d);
            self.lemma_levels_distinct(e, (fuel - 1) as nat, d + 1);
            assert forall|x: u128| frontier.contains(x) implies !rest.contains(x) by {
                if rest.contains(x) {
                    let k = choose|k: int| 0 <= k < rest.len() && rest[k] == x;
                    let j = choose|j: int| 0 <= j < frontier.len() && frontier[j] == x;
                    assert(self.depth(rest[k]) >= d + 1);
                    assert(self.depth(frontier[j]) == d);
                }
            }
            lemma_concat_no_duplicates(frontier, rest);
            assert(self.levels(frontier, fuel) == frontier + rest);
            assert forall|k: int| 0 <= k < self.levels(frontier, fuel).len() implies self.depth(
                #[trigger] self.levels(frontier, fuel)[k],
            ) >= d by {
                if k >= frontier.len() {
                    assert(self.levels(frontier, fuel)[k] == rest[k - frontier.len()]);
                }
            }
        }
    }

    /// No node occurs twice among the descendants of a node.
    pub proof fn lemma_downstream_no_duplicates(self, x: u128)
        requires
            self.wf(),
            self.has(x),
        ensures
            self.downstream(x).no_duplicates(),
    {
        assert forall|k: int| 0 <= k < self.children(x).len() implies self.has(#[trigger] self.children(x)[k])
            && self.depth(self.children(x)[k]) == self.depth(x) + 1 by {
            assert(self.children(x).contains(self.children(x)[k]));
            self.lemma_child_depth(x, self.children(x)[k]);
        }
        self.lemma_levels_distinct(self.children(x), self.links.len(), self.depth(x) + 1);
    }
}

} // verus!

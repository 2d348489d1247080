//! A sparse voxel octree mapping voxel coordinates to payloads.
//!
//! Nodes live in one flat arena; a split node holds the index of the first of
//! its eight children, which are stored next to each other in octant order.

use vstd::prelude::*;
use crate::geometry::{
    Cube, Point, aligned_cube, is_cell, lemma_cell_at, lemma_child, lemma_child_cell, lemma_near_within,
    lemma_octants_tile, lemma_root_cell, lemma_unit_cube, near4,
};

verus! {

/// One node of the arena.
pub enum Node<T> {
    /// No voxel anywhere in the node's cube.
    Empty,
    /// The node's unit cube is occupied by the payload.
    Leaf(T),
    /// The cube is split; the children are at `first .. first + 8`.
    Split(usize),
}

/// Node `i` is consistent with its cube and with its children.
pub open spec fn node_ok<T>(nodes: Seq<Node<T>>, cells: Seq<Cube>, i: int) -> bool {
    &&& cells[i].valid()
    &&& (nodes[i] is Leaf ==> cells[i].size == 1)
    &&& (nodes[i] matches Node::Split(f) ==> {
        &&& i < f
        &&& f + 8 <= nodes.len()
        &&& cells[i].size > 1
        &&& forall|k: int| 0 <= k < 8 ==> cells[f + k] == #[trigger] cells[i].child(k)
    })
}

/// Every node of the arena is consistent; `cells[i]` is the cube of node `i`.
pub open spec fn tree_ok<T>(nodes: Seq<Node<T>>, cells: Seq<Cube>) -> bool {
    &&& nodes.len() == cells.len()
    &&& forall|i: int| 0 <= i < nodes.len() ==> #[trigger] node_ok(nodes, cells, i)
}

/// A split node `i` has a child that is not empty.
pub open spec fn split_occupied<T>(nodes: Seq<Node<T>>, i: int) -> bool {
    nodes[i] matches Node::Split(f) ==> exists|k: int|
        0 <= k < 8 && !(#[trigger] nodes[f + k] is Empty)
}

/// The payload found for `p` by descending from node `i` along the octants
/// that hold `p`.
pub open spec fn find_in<T>(nodes: Seq<Node<T>>, cells: Seq<Cube>, i: int, p: Point) -> Option<T>
    decreases nodes.len() - i,
{
    if 0 <= i < nodes.len() {
        match nodes[i] {
            Node::Empty => None,
            Node::Leaf(v) => Some(v),
            Node::Split(f) => {
                if i < f && f + 8 <= nodes.len() {
                    find_in(nodes, cells, f + cells[i].octant_of(p), p)
                } else {
                    None
                }
            },
        }
    } else {
        None
    }
}

/// The cube of the node where the descent for `p` from node `i` stops: a
/// leaf or an empty node.
pub open spec fn reached_cell<T>(nodes: Seq<Node<T>>, cells: Seq<Cube>, i: int, p: Point) -> Cube
    decreases nodes.len() - i,
{
    if 0 <= i < nodes.len() {
        match nodes[i] {
            Node::Split(f) => {
                if i < f && f + 8 <= nodes.len() {
                    reached_cell(nodes, cells, f + cells[i].octant_of(p), p)
                } else {
                    cells[i]
                }
            },
            _ => cells[i],
        }
    } else {
        cells[i]
    }
}

/// A descent for `q` from node `i` only reads nodes whose cube holds `q`: if
/// those are the same in `b`, the descent finds the same payload there.
proof fn lemma_find_frame<T>(
    a: Seq<Node<T>>,
    ca: Seq<Cube>,
    b: Seq<Node<T>>,
    cb: Seq<Cube>,
    i: int,
    q: Point,
)
    requires
        tree_ok(a, ca),
        a.len() <= b.len(),
        ca.len() <= cb.len(),
        forall|j: int| 0 <= j < ca.len() ==> cb[j] == ca[j],
        forall|j: int| 0 <= j < a.len() && ca[j].covers(q) ==> b[j] == a[j],
        0 <= i < a.len(),
        ca[i].covers(q),
    ensures
        find_in(b, cb, i, q) == find_in(a, ca, i, q),
    decreases a.len() - i,
{
    assert(node_ok(a, ca, i));
    assert(b[i] == a[i]);
    if let Node::Split(f) = a[i] {
        let k = ca[i].octant_of(q);
        lemma_octants_tile(ca[i], q);
        assert(ca[f + k] == ca[i].child(k));
        lemma_find_frame(a, ca, b, cb, f + k, q);
    }
}

/// When no split node has only empty children, the cube of a split node
/// holds a stored voxel.
proof fn lemma_split_holds_voxel<T>(nodes: Seq<Node<T>>, cells: Seq<Cube>, j: int)
    requires
        tree_ok(nodes, cells),
        forall|i: int| 0 <= i < nodes.len() ==> #[trigger] split_occupied(nodes, i),
        0 <= j < nodes.len(),
        nodes[j] is Split,
    ensures
        exists|q: Point| cells[j].covers(q) && #[trigger] find_in(nodes, cells, j, q) is Some,
    decreases nodes.len() - j,
{
    assert(node_ok(nodes, cells, j));
    assert(split_occupied(nodes, j));
    let f = nodes[j]->Split_0;
    let c = cells[j];
    let k = choose|k: int| 0 <= k < 8 && !(#[trigger] nodes[f + k] is Empty);
    assert(cells[f + k] == c.child(k));
    lemma_child(c, k);
    assert(node_ok(nodes, cells, f + k));
    if nodes[f + k] is Leaf {
        let q = cells[f + k].pos;
        assert(cells[f + k].size == 1);
        assert(c.child(k).covers(q));
        lemma_octants_tile(c, q);
        assert(c.octant_of(q) == k);
        assert(find_in(nodes, cells, f + k, q) is Some);
        assert(find_in(nodes, cells, j, q) is Some);
    } else {
        lemma_split_holds_voxel(nodes, cells, f + k);
        let q = choose|q: Point| cells[f + k].covers(q) && #[trigger] find_in(nodes, cells, f + k, q) is Some;
        lemma_octants_tile(c, q);
        assert(find_in(nodes, cells, j, q) is Some);
    }
}

/// The sparse voxel octree over the cube `bounds`.
pub struct Octree<T> {
    nodes: Vec<Node<T>>,
    bounds: Cube,
    cells: Ghost<Seq<Cube>>,
}

impl<T> Octree<T> {
    /// The arena, root first.
    pub closed spec fn nodes_spec(&self) -> Seq<Node<T>> {
        self.nodes@
    }

    /// The cube of each node of the arena.
    pub closed spec fn cells_spec(&self) -> Seq<Cube> {
        self.cells@
    }

    pub closed spec fn bounds_spec(&self) -> Cube {
        self.bounds
    }

    /// The root covers the valid cube `bounds`, every node is consistent,
    /// and every node's cube is a cell of the subdivision of `bounds`.
    pub open spec fn shape(&self) -> bool {
        &&& self.bounds_spec().valid()
        &&& tree_ok(self.nodes_spec(), self.cells_spec())
        &&& self.nodes_spec().len() >= 1
        &&& self.cells_spec()[0] == self.bounds_spec()
        &&& forall|i: int|
            0 <= i < self.cells_spec().len() ==> is_cell(
                self.bounds_spec(),
                #[trigger] self.cells_spec()[i],
            )
    }

    /// A consistent arena in which no node is split without need: every
    /// split node has a child that is not empty.
    pub open spec fn wf(&self) -> bool {
        &&& self.shape()
        &&& forall|i: int|
            0 <= i < self.nodes_spec().len() ==> #[trigger] split_occupied(self.nodes_spec(), i)
    }

    /// The payload stored for `p`, if any.
    pub open spec fn at(&self, p: Point) -> Option<T> {
        if self.bounds_spec().covers(p) {
            find_in(self.nodes_spec(), self.cells_spec(), 0, p)
        } else {
            None
        }
    }

    pub open spec fn view(&self) -> Map<Point, T> {
        Map::new(|p: Point| self.at(p) is Some, |p: Point| self.at(p)->0)
    }

    /// An empty octree over `bounds`.
    pub fn new(bounds: Cube) -> (r: Self)
        requires
            bounds.valid(),
        ensures
            r.wf(),
            r.bounds_spec() == bounds,
            r@ == Map::<Point, T>::empty(),
            r.nodes_spec() == seq![Node::<T>::Empty],
            r.cells_spec() == seq![bounds],
    {
        let mut nodes: Vec<Node<T>> = Vec::new();
        nodes.push(Node::Empty);
        let ghost cells = seq![bounds];
        let r = Octree { nodes, bounds, cells: Ghost(cells) };
        assert(node_ok(r.nodes@, r.cells@, 0));
        assert(split_occupied(r.nodes@, 0));
        proof {
            lemma_root_cell(bounds);
        }
        assert(r@ =~= Map::<Point, T>::empty());
        r
    }

    /// Stores `v` for `p`, overwriting an earlier payload; a point outside the
    /// bounds is ignored. Storing the payload that `p` already has leaves the
    /// arena as it was.
    pub fn insert(&mut self, p: Point, v: T)
        requires
            old(self).wf(),
        ensures
            final(self).wf(),
            final(self).bounds_spec() == old(self).bounds_spec(),
            final(self)@ == if old(self).bounds_spec().covers(p) {
                old(self)@.insert(p, v)
            } else {
                old(self)@
            },
            old(self).at(p) == Some(v) ==> final(self).nodes_spec() == old(self).nodes_spec()
                && final(self).cells_spec() == old(self).cells_spec(),
            !old(self).bounds_spec().covers(p) ==> final(self).nodes_spec() == old(
                self,
            ).nodes_spec() && final(self).cells_spec() == old(self).cells_spec(),
    {
        let c = self.bounds;
        if !c.contains(&p) {
            return;
        }
        self.insert_at(0, c, p, v, Ghost(-1));
        proof {
            assert(final(self)@ =~= old(self)@.insert(p, v));
        }
    }

    /// Inserts below node `i`, whose cube is `c`. Node `e`, if any, is the
    /// parent of `i` and the one split node that may have only empty
    /// children.
    fn insert_at(&mut self, i: usize, c: Cube, p: Point, v: T, e: Ghost<int>)
        requires
            old(self).shape(),
            forall|j: int|
                0 <= j < old(self).nodes@.len() && j != e@ ==> #[trigger] split_occupied(
                    old(self).nodes@,
                    j,
                ),
            0 <= e@ ==> e@ < old(self).nodes@.len() && old(self).nodes@[e@] is Split && old(
                self,
            ).nodes@[e@]->Split_0 <= i < old(self).nodes@[e@]->Split_0 + 8,
            i < old(self).nodes@.len(),
            old(self).cells@[i as int] == c,
            c.covers(p),
        ensures
            final(self).wf(),
            final(self).bounds == old(self).bounds,
            final(self).nodes@.len() >= old(self).nodes@.len(),
            forall|j: int|
                0 <= j < old(self).cells@.len() ==> #[trigger] final(self).cells@[j]
                    == old(self).cells@[j],
            forall|j: int|
                0 <= j < old(self).nodes@.len() && !old(self).cells@[j].within(c)
                    ==> #[trigger] final(self).nodes@[j] == old(self).nodes@[j],
            forall|q: Point|
                c.covers(q) ==> #[trigger] find_in(final(self).nodes@, final(self).cells@, i as int, q)
                    == if q == p {
                    Some(v)
                } else {
                    find_in(old(self).nodes@, old(self).cells@, i as int, q)
                },
            find_in(old(self).nodes@, old(self).cells@, i as int, p) == Some(v) ==> final(self).nodes@
                == old(self).nodes@ && final(self).cells@ == old(self).cells@,
        decreases c.size,
    {
        let ghost a = self.nodes@;
        let ghost ca = self.cells@;
        assert(node_ok(a, ca, i as int));
        proof {
            assert(self.nodes.len() == self.nodes@.len());
        }
        let first: Option<usize> = match &self.nodes[i] {
            Node::Split(f) => Some(*f),
            _ => None,
        };
        let empty: bool = match &self.nodes[i] {
            Node::Empty => true,
            _ => false,
        };
        if let Some(f) = first {
            let k = c.octant(&p);
            let sub = c.sub_cube(k);
            proof {
                lemma_octants_tile(c, p);
                assert(ca[f + k] == c.child(k as int));
                if 0 <= e@ {
                    let fe = a[e@]->Split_0;
                    assert(!(a[fe + (i - fe)] is Empty));
                }
                assert(forall|j: int| 0 <= j < a.len() ==> #[trigger] split_occupied(a, j));
            }
            self.insert_at(f + k, sub, p, v, Ghost(-1));
            proof {
                let b = self.nodes@;
                let cb = self.cells@;
                assert(!c.within(sub));
                assert(b[i as int] == a[i as int]);
                assert forall|q: Point| c.covers(q) implies #[trigger] find_in(b, cb, i as int, q)
                    == if q == p {
                    Some(v)
                } else {
                    find_in(a, ca, i as int, q)
                } by {
                    lemma_octants_tile(c, q);
                    let kq = c.octant_of(q);
                    assert(ca[f + kq] == c.child(kq));
                    if kq != k {
                        assert forall|j: int| 0 <= j < a.len() && ca[j].covers(q) implies b[j]
                            == a[j] by {
                            if ca[j].within(sub) {
                                lemma_octants_tile(c, q);
                                assert(sub.covers(q));
                            }
                        }
                        lemma_find_frame(a, ca, b, cb, f + kq, q);
                    }
                }
            }
        } else if empty && c.size > 1 {
            let f = self.nodes.len();
            let mut m: usize = 0;
            while m < 8
                invariant
                    0 <= m <= 8,
                    self.nodes@.len() == f + m,
                    self.cells@.len() == f + m,
                    self.bounds == old(self).bounds,
                    forall|j: int| 0 <= j < f ==> #[trigger] self.nodes@[j] == a[j],
                    forall|j: int| 0 <= j < f ==> #[trigger] self.cells@[j] == ca[j],
                    forall|j: int| f <= j < f + m ==> #[trigger] self.nodes@[j] is Empty,
                    forall|j: int| f <= j < f + m ==> #[trigger] self.cells@[j] == c.child(j - f),
                decreases 8 - m,
            {
                self.nodes.push(Node::Empty);
                proof {
                    self.cells@ = self.cells@.push(c.child(m as int));
                }
                m = m + 1;
            }
            let n = self.nodes.len();
            assert(n == f + 8);
            self.nodes.set(i, Node::Split(f));
            let k = c.octant(&p);
            let sub = c.sub_cube(k);
            proof {
                let a1 = self.nodes@;
                let c1 = self.cells@;
                assert forall|j: int| 0 <= j < a1.len() implies #[trigger] node_ok(a1, c1, j) by {
                    if j < f {
                        assert(node_ok(a, ca, j));
                        if j == i {
                            assert forall|kk: int| 0 <= kk < 8 implies c1[f + kk]
                                == #[trigger] c1[j].child(kk) by {
                                assert(c1[f + kk] == c.child(f + kk - f));
                            }
                        }
                    } else {
                        lemma_child(c, j - f);
                    }
                }
                assert forall|j: int| 0 <= j < c1.len() implies is_cell(self.bounds, #[trigger] c1[j]) by {
                    if j >= f {
                        assert(is_cell(self.bounds, ca[i as int]));
                        lemma_child_cell(self.bounds, c, j - f);
                    } else {
                        assert(is_cell(self.bounds, ca[j]));
                    }
                }
                assert forall|j: int| 0 <= j < a1.len() && j != i implies #[trigger] split_occupied(
                    a1,
                    j,
                ) by {
                    if j < f {
                        if j == e@ {
                            let fe = a[e@]->Split_0;
                            assert(!(a1[fe + (i - fe)] is Empty));
                        } else {
                            assert(split_occupied(a, j));
                            if let Node::Split(fj) = a[j] {
                                let kk = choose|kk: int| 0 <= kk < 8 && !(#[trigger] a[fj + kk] is Empty);
                                assert(node_ok(a, ca, j));
                                if fj + kk != i {
                                    assert(a1[fj + kk] == a[fj + kk]);
                                }
                                assert(!(a1[fj + kk] is Empty));
                            }
                        }
                    }
                }
                lemma_octants_tile(c, p);
                assert(c1[f + k] == c.child(k as int));
            }
            let ghost a1 = self.nodes@;
            let ghost c1 = self.cells@;
            self.insert_at(f + k, sub, p, v, Ghost(i as int));
            proof {
                let b = self.nodes@;
                let cb = self.cells@;
                assert(b[i as int] == Node::<T>::Split(f));
                assert forall|q: Point| c.covers(q) implies #[trigger] find_in(b, cb, i as int, q)
                    == if q == p {
                    Some(v)
                } else {
                    find_in(a, ca, i as int, q)
                } by {
                    lemma_octants_tile(c, q);
                    let kq = c.octant_of(q);
                    assert(cb[i as int] == c);
                    assert(cb[f + kq] == c.child(kq));
                    assert(a1[f + kq] is Empty);
                    assert(c1[f + kq] == c.child(kq));
                    assert(find_in(b, cb, i as int, q) == find_in(b, cb, f + kq, q));
                    assert(find_in(a, ca, i as int, q) is None);
                    if kq == k {
                        assert(find_in(a1, c1, f + k, q) is None);
                    } else {
                        assert(q != p);
                    }
                    if kq != k {
                        assert(b[f + kq] is Empty) by {
                            if c.child(kq).within(sub) {
                                assert(sub.covers(q));
                            }
                        }
                    }
                }
            }
        } else {
            proof {
                lemma_unit_cube(c, p);
            }
            self.nodes.set(i, Node::Leaf(v));
            proof {
                let b = self.nodes@;
                assert forall|q: Point| c.covers(q) implies #[trigger] find_in(b, self.cells@, i as int, q)
                    == if q == p {
                    Some(v)
                } else {
                    find_in(a, ca, i as int, q)
                } by {
                    lemma_unit_cube(c, q);
                }
                assert forall|j: int| 0 <= j < b.len() implies #[trigger] node_ok(b, self.cells@, j) by {
                    assert(node_ok(a, ca, j));
                }
                assert forall|j: int| 0 <= j < b.len() implies #[trigger] split_occupied(b, j) by {
                    if j == e@ {
                        let fe = a[e@]->Split_0;
                        assert(!(b[fe + (i - fe)] is Empty));
                    } else {
                        assert(split_occupied(a, j));
                        if let Node::Split(fj) = a[j] {
                            let kk = choose|kk: int| 0 <= kk < 8 && !(#[trigger] a[fj + kk] is Empty);
                            assert(node_ok(a, ca, j));
                            if fj + kk != i {
                                assert(b[fj + kk] == a[fj + kk]);
                            }
                            assert(!(b[fj + kk] is Empty));
                        }
                    }
                }
                if find_in(a, ca, i as int, p) == Some(v) {
                    assert(b =~= a);
                }
            }
        }
    }

    /// Descends to the node holding `p`. Returns the payload and its unit cube
    /// when `p` is occupied; otherwise no payload and the cube of the empty
    /// node that holds `p`, none of whose voxels is occupied, so that a ray
    /// may skip all of it.
    pub fn find_closest(&self, p: &Point) -> (r: (Option<&T>, Cube))
        requires
            self.wf(),
            self.bounds_spec().covers(*p),
        ensures
            r.1 == reached_cell(self.nodes_spec(), self.cells_spec(), 0, *p),
            r.1 == aligned_cube(self.bounds_spec(), *p, r.1.size as int),
            r.1.valid(),
            r.1.within(self.bounds_spec()),
            r.1.covers(*p),
            match r.0 {
                Some(v) => self@.contains_key(*p) && *v == self@[*p] && r.1.size == 1,
                None => {
                    &&& !self@.contains_key(*p)
                    &&& forall|q: Point| #[trigger] r.1.covers(q) ==> !self@.contains_key(q)
                    &&& (r.1 == self.bounds_spec() || exists|q: Point|
                        #[trigger] self@.contains_key(q) && aligned_cube(
                            self.bounds_spec(),
                            *p,
                            2 * r.1.size,
                        ).covers(q))
                },
            },
    {
        let mut i: usize = 0;
        let mut c = self.bounds;
        assert(node_ok(self.nodes@, self.cells@, 0));
        loop
            invariant
                self.wf(),
                i < self.nodes@.len(),
                self.cells@[i as int] == c,
                c.covers(*p),
                c.within(self.bounds),
                forall|q: Point|
                    c.covers(q) ==> #[trigger] find_in(self.nodes@, self.cells@, 0, q) == find_in(
                        self.nodes@,
                        self.cells@,
                        i as int,
                        q,
                    ),
                reached_cell(self.nodes@, self.cells@, 0, *p) == reached_cell(
                    self.nodes@,
                    self.cells@,
                    i as int,
                    *p,
                ),
                c == self.bounds || exists|q: Point|
                    #[trigger] self@.contains_key(q) && aligned_cube(self.bounds, *p, 2 * c.size).covers(q),
            decreases c.size,
        {
            assert(node_ok(self.nodes@, self.cells@, i as int));
            proof {
                assert(self.nodes.len() == self.nodes@.len());
                assert(is_cell(self.bounds, self.cells@[i as int]));
                lemma_cell_at(self.bounds, c, *p);
            }
            match &self.nodes[i] {
                Node::Empty => {
                    proof {
                        assert forall|q: Point| #[trigger] c.covers(q) implies !self@.contains_key(q) by {
                            assert(find_in(self.nodes@, self.cells@, i as int, q) is None);
                        }
                    }
                    return (None, c);
                },
                Node::Leaf(v) => {
                    return (Some(v), c);
                },
                Node::Split(f) => {
                    let k = c.octant(p);
                    let sub = c.sub_cube(k);
                    proof {
                        lemma_octants_tile(c, *p);
                        assert(self.cells@[*f + k] == c.child(k as int));
                        assert forall|q: Point| #[trigger] sub.covers(q) implies find_in(
                            self.nodes@,
                            self.cells@,
                            i as int,
                            q,
                        ) == find_in(self.nodes@, self.cells@, *f + k, q) by {
                            lemma_octants_tile(c, q);
                        }
                        lemma_child(c, k as int);
                        lemma_split_holds_voxel(self.nodes@, self.cells@, i as int);
                        let q = choose|q: Point|
                            c.covers(q) && #[trigger] find_in(self.nodes@, self.cells@, i as int, q) is Some;
                        assert(find_in(self.nodes@, self.cells@, 0, q) is Some);
                        assert(self@.contains_key(q));
                        assert(aligned_cube(self.bounds, *p, 2 * sub.size) == c);
                    }
                    i = *f + k;
                    c = sub;
                },
            }
        }
    }

    /// The occupied voxels whose cube comes within a radius of the voxel
    /// `at`: four times the squared distance from the center of `at` to the
    /// voxel's cube is at most `radius4`. Each is listed once, in no
    /// particular order.
    pub fn query(&self, at: &Point, radius4: u64) -> (r: Vec<Point>)
        requires
            self.wf(),
        ensures
            r@.no_duplicates(),
            forall|p: Point|
                #[trigger] r@.contains(p) <==> self@.contains_key(p) && near4(
                    Cube { pos: p, size: 1 },
                    *at,
                ) <= radius4,
    {
        let mut out: Vec<Point> = Vec::new();
        let c = self.bounds;
        self.collect(0, c, at, radius4, &mut out);
        proof {
            assert forall|p: Point|
                #[trigger] out@.contains(p) <==> self@.contains_key(p) && near4(
                    Cube { pos: p, size: 1 },
                    *at,
                ) <= radius4 by {
                if out@.contains(p) {
                    assert(c.covers(p));
                }
            }
        }
        out
    }

    /// Appends the occupied voxels below node `i`, whose cube is `c`, that
    /// are within the radius; prunes a cube that is farther than it.
    fn collect(&self, i: usize, c: Cube, at: &Point, radius4: u64, out: &mut Vec<Point>)
        requires
            self.wf(),
            i < self.nodes@.len(),
            self.cells@[i as int] == c,
            old(out)@.no_duplicates(),
            forall|p: Point| #[trigger] old(out)@.contains(p) ==> !c.covers(p),
        ensures
            final(out)@.no_duplicates(),
            forall|p: Point|
                #[trigger] final(out)@.contains(p) <==> old(out)@.contains(p) || (c.covers(p)
                    && find_in(self.nodes@, self.cells@, i as int, p) is Some && near4(
                    Cube { pos: p, size: 1 },
                    *at,
                ) <= radius4),
        decreases c.size,
    {
        assert(node_ok(self.nodes@, self.cells@, i as int));
        if !c.near4_within(at, radius4) {
            proof {
                assert forall|p: Point| c.covers(p) implies near4(Cube { pos: p, size: 1 }, *at)
                    > radius4 by {
                    lemma_near_within(Cube { pos: p, size: 1 }, c, *at);
                }
            }
            return;
        }
        let n = self.nodes.len();
        match &self.nodes[i] {
            Node::Empty => {},
            Node::Leaf(_) => {
                proof {
                    assert forall|p: Point| c.covers(p) implies p == c.pos by {
                        lemma_unit_cube(c, p);
                    }
                    assert(c.covers(c.pos));
                }
                out.push(c.pos);
                proof {
                    let o = old(out)@;
                    assert(out@ == o.push(c.pos));
                    assert(!o.contains(c.pos));
                    assert(c == Cube { pos: c.pos, size: 1 });
                    assert forall|a: int, b: int| 0 <= a < b < out@.len() implies out@[a] != out@[b] by {
                        if b == o.len() {
                            assert(o[a] == out@[a]);
                        } else {
                            assert(o[a] != o[b]);
                        }
                    }
                    assert forall|p: Point|
                        #[trigger] out@.contains(p) <==> old(out)@.contains(p) || (c.covers(p)
                            && find_in(self.nodes@, self.cells@, i as int, p) is Some && near4(
                            Cube { pos: p, size: 1 },
                            *at,
                        ) <= radius4) by {
                        if out@.contains(p) && !old(out)@.contains(p) {
                            let j = choose|j: int| 0 <= j < out@.len() && out@[j] == p;
                            if j < old(out)@.len() {
                                assert(old(out)@[j] == p);
                            }
                        }
                        if p == c.pos {
                            assert(out@[out@.len() - 1] == p);
                        }
                        if old(out)@.contains(p) {
                            let j = choose|j: int| 0 <= j < old(out)@.len() && old(out)@[j] == p;
                            assert(out@[j] == p);
                        }
                    }
                }
            },
            Node::Split(f) => {
                let f = *f;
                let mut k: usize = 0;
                while k < 8
                    invariant
                        self.wf(),
                        0 <= k <= 8,
                        n == self.nodes@.len(),
                        i < f,
                        f + 8 <= n,
                        c.valid(),
                        c.size > 1,
                        self.nodes@[i as int] == Node::<T>::Split(f),
                        self.cells@[i as int] == c,
                        forall|kk: int| 0 <= kk < 8 ==> self.cells@[f + kk] == #[trigger] c.child(kk),
                        out@.no_duplicates(),
                        forall|p: Point|
                            #[trigger] out@.contains(p) <==> old(out)@.contains(p) || (c.covers(p)
                                && c.octant_of(p) < k && find_in(
                                self.nodes@,
                                self.cells@,
                                i as int,
                                p,
                            ) is Some && near4(Cube { pos: p, size: 1 }, *at) <= radius4),
                        forall|p: Point| #[trigger] old(out)@.contains(p) ==> !c.covers(p),
                    decreases 8 - k,
                {
                    let sub = c.sub_cube(k);
                    proof {
                        assert forall|p: Point| #[trigger] out@.contains(p) implies !sub.covers(p) by {
                            lemma_octants_tile(c, p);
                        }
                    }
                    let ghost before = out@;
                    self.collect(f + k, sub, at, radius4, out);
                    proof {
                        assert forall|p: Point|
                            #[trigger] out@.contains(p) <==> old(out)@.contains(p) || (c.covers(p)
                                && c.octant_of(p) < k + 1 && find_in(
                                self.nodes@,
                                self.cells@,
                                i as int,
                                p,
                            ) is Some && near4(Cube { pos: p, size: 1 }, *at) <= radius4) by {
                            lemma_octants_tile(c, p);
                            if c.covers(p) {
                                assert(find_in(self.nodes@, self.cells@, i as int, p) == find_in(
                                    self.nodes@,
                                    self.cells@,
                                    f + c.octant_of(p),
                                    p,
                                ));
                            }
                        }
                    }
                    k = k + 1;
                }
            },
        }
    }

    pub fn bounds(&self) -> (r: Cube)
        ensures
            r == self.bounds_spec(),
    {
        self.bounds
    }
}

/// The voxel map obtained from `m` by storing each `(point, payload)` of
/// `ops` in order, ignoring points outside `bounds`.
pub open spec fn stored<T>(m: Map<Point, T>, bounds: Cube, ops: Seq<(Point, T)>) -> Map<Point, T>
    decreases ops.len(),
{
    if ops.len() == 0 {
        m
    } else {
        let rest = stored(m, bounds, ops.drop_last());
        let (p, v) = ops.last();
        if bounds.covers(p) {
            rest.insert(p, v)
        } else {
            rest
        }
    }
}

/// After any sequence of insertions, a point of the bounds that was inserted
/// holds the payload of its last insertion: a lookup there finds it.
pub proof fn lemma_inserted_points_found<T>(
    m: Map<Point, T>,
    bounds: Cube,
    ops: Seq<(Point, T)>,
    i: int,
)
    requires
        0 <= i < ops.len(),
        bounds.covers(ops[i].0),
        forall|j: int| i < j < ops.len() ==> (#[trigger] ops[j]).0 != ops[i].0,
    ensures
        stored(m, bounds, ops).contains_key(ops[i].0),
        stored(m, bounds, ops)[ops[i].0] == ops[i].1,
    decreases ops.len(),
{
    if i < ops.len() - 1 {
        let rest = ops.drop_last();
        assert forall|j: int| i < j < rest.len() implies (#[trigger] rest[j]).0 != rest[i].0 by {
            assert(rest[j] == ops[j]);
        }
        lemma_inserted_points_found(m, bounds, rest, i);
        assert(ops.last() == ops[ops.len() - 1]);
    }
}

/// Storing a payload at a point that already holds it changes nothing.
pub proof fn lemma_reinsert_same<T>(m: Map<Point, T>, p: Point, v: T)
    ensures
        m.insert(p, v).insert(p, v) == m.insert(p, v),
{
    assert(m.insert(p, v).insert(p, v) =~= m.insert(p, v));
}

/// The shape of a well-formed octree: every leaf is a unit voxel, the
/// eight children of a split node lie inside it and tile it, each point of
/// the parent lying in exactly one child, every node's cube is a cell of the
/// subdivision of the bounds, and the cube of every split node holds a
/// stored voxel, so that no node is split without need.
pub proof fn lemma_octree_shape<T>(t: &Octree<T>)
    requires
        t.wf(),
    ensures
        forall|i: int|
            0 <= i < t.nodes_spec().len() && (#[trigger] t.nodes_spec()[i]) is Leaf
                ==> t.cells_spec()[i].size == 1,
        forall|i: int, k: int|
            0 <= i < t.nodes_spec().len() && (#[trigger] t.nodes_spec()[i]) is Split && 0 <= k < 8
                ==> #[trigger] t.cells_spec()[t.nodes_spec()[i]->Split_0 + k].within(
                t.cells_spec()[i],
            ),
        forall|i: int, p: Point|
            0 <= i < t.nodes_spec().len() && (#[trigger] t.nodes_spec()[i]) is Split
                && #[trigger] t.cells_spec()[i].covers(p) ==> exists|k: int|
                0 <= k < 8 && #[trigger] t.cells_spec()[t.nodes_spec()[i]->Split_0 + k].covers(p)
                    && forall|k2: int|
                    0 <= k2 < 8 && #[trigger] t.cells_spec()[t.nodes_spec()[i]->Split_0
                        + k2].covers(p) ==> k2 == k,
        forall|i: int|
            0 <= i < t.cells_spec().len() ==> is_cell(t.bounds_spec(), #[trigger] t.cells_spec()[i]),
        forall|i: int|
            0 <= i < t.nodes_spec().len() && (#[trigger] t.nodes_spec()[i]) is Split ==> exists|q: Point|
                t.cells_spec()[i].covers(q) && #[trigger] find_in(
                    t.nodes_spec(),
                    t.cells_spec(),
                    i,
                    q,
                ) is Some,
{
    let nodes = t.nodes_spec();
    let cells = t.cells_spec();
    assert forall|i: int| 0 <= i < nodes.len() && (#[trigger] nodes[i]) is Split implies exists|q: Point|
        cells[i].covers(q) && #[trigger] find_in(nodes, cells, i, q) is Some by {
        lemma_split_holds_voxel(nodes, cells, i);
    }
    assert forall|i: int|
        0 <= i < nodes.len() && (#[trigger] nodes[i]) is Leaf implies cells[i].size == 1 by {
        assert(node_ok(nodes, cells, i));
    }
    assert forall|i: int, k: int|
        0 <= i < nodes.len() && (#[trigger] nodes[i]) is Split && 0 <= k < 8
            implies #[trigger] cells[nodes[i]->Split_0 + k].within(cells[i]) by {
        assert(node_ok(nodes, cells, i));
        let f = nodes[i]->Split_0;
        assert(cells[f + k] == cells[i].child(k));
        lemma_child(cells[i], k);
    }
    assert forall|i: int, p: Point|
        0 <= i < nodes.len() && (#[trigger] nodes[i]) is Split
            && #[trigger] cells[i].covers(p) implies exists|k: int|
        0 <= k < 8 && #[trigger] cells[nodes[i]->Split_0 + k].covers(p) && forall|k2: int|
            0 <= k2 < 8 && #[trigger] cells[nodes[i]->Split_0 + k2].covers(p) ==> k2 == k by {
        assert(node_ok(nodes, cells, i));
        let f = nodes[i]->Split_0;
        let c = cells[i];
        lemma_octants_tile(c, p);
        let k = c.octant_of(p);
        assert(cells[f + k] == c.child(k));
        assert forall|k2: int| 0 <= k2 < 8 && #[trigger] cells[f + k2].covers(p) implies k2 == k by {
            assert(cells[f + k2] == c.child(k2));
        }
    }
}

} // verus!

//! The light importance tree: an octree over light positions that records a
//! light at the coarsest cube where it surely matters, prunes it where it
//! surely does not, and splits in between.
//!
//! Distances are measured from a light's voxel center (see `near4`, `far4`).

use vstd::prelude::*;
use vstd::multiset::Multiset;
use vstd::seq_lib::lemma_multiset_commutative;
use crate::geometry::{Cube, Point, far4, lemma_child, lemma_near_below_far, lemma_octants_tile, near4};

verus! {

/// How far a light matters, as bounds on four times the squared distance
/// from its voxel center. The light surely matters everywhere in a cube
/// whose farthest corner is below `useful`, and may matter in a cube that
/// holds it or whose nearest point is below `relevant`.
#[derive(Clone, Copy, Debug, PartialEq, Eq, Structural)]
pub struct LightReach {
    pub useful: u64,
    pub relevant: u64,
}

/// The light surely matters at every point of `c`.
pub open spec fn surely_lit(c: Cube, l: Point, r: LightReach) -> bool {
    far4(c, l) < r.useful
}

/// The light may matter somewhere in `c`.
pub open spec fn maybe_lit(c: Cube, l: Point, r: LightReach) -> bool {
    c.covers(l) || near4(c, l) < r.relevant
}

/// A light that reaches `c` is recorded there: it surely matters, or it may
/// and `c` cannot be split further.
pub open spec fn records(c: Cube, l: Point, r: LightReach) -> bool {
    surely_lit(c, l, r) || (maybe_lit(c, l, r) && c.size == 1)
}

/// A light that reaches `c` is handed on to each of its octants.
pub open spec fn passes(c: Cube, l: Point, r: LightReach) -> bool {
    !surely_lit(c, l, r) && maybe_lit(c, l, r) && c.size > 1
}

/// A light inserted at cube `c` is recorded on the path from `c` towards `q`.
pub open spec fn visible(c: Cube, l: Point, r: LightReach, q: Point) -> bool
    decreases c.size,
{
    if records(c, l, r) {
        true
    } else if passes(c, l, r) {
        visible(c.child(c.octant_of(q)), l, r, q)
    } else {
        false
    }
}

/// One node of the arena: the lights recorded at its cube, and the index of
/// the first of its eight children if it is split.
pub struct LightNode {
    pub lights: Vec<Point>,
    pub split: Option<usize>,
}

pub open spec fn light_node_ok(nodes: Seq<LightNode>, cells: Seq<Cube>, i: int) -> bool {
    &&& cells[i].valid()
    &&& (nodes[i].split matches Some(f) ==> {
        &&& i < f
        &&& f + 8 <= nodes.len()
        &&& cells[i].size > 1
        &&& forall|k: int| 0 <= k < 8 ==> cells[f + k] == #[trigger] cells[i].child(k)
    })
}

pub open spec fn light_tree_ok(nodes: Seq<LightNode>, cells: Seq<Cube>) -> bool {
    &&& nodes.len() == cells.len()
    &&& forall|i: int| 0 <= i < nodes.len() ==> #[trigger] light_node_ok(nodes, cells, i)
}

/// The lights recorded on the path from node `i` towards `q`, node `i` first.
pub open spec fn lights_in(nodes: Seq<LightNode>, cells: Seq<Cube>, i: int, q: Point) -> Seq<Point>
    decreases nodes.len() - i,
{
    if 0 <= i < nodes.len() {
        nodes[i].lights@ + match nodes[i].split {
            Some(f) => if i < f && f + 8 <= nodes.len() {
                lights_in(nodes, cells, f + cells[i].octant_of(q), q)
            } else {
                Seq::empty()
            },
            None => Seq::empty(),
        }
    } else {
        Seq::empty()
    }
}

/// A path from node `i` only reads nodes inside the cube of `i`: if those
/// are the same in `b`, the path finds the same lights there.
proof fn lemma_lights_frame(
    a: Seq<LightNode>,
    ca: Seq<Cube>,
    b: Seq<LightNode>,
    cb: Seq<Cube>,
    i: int,
    q: Point,
)
    requires
        light_tree_ok(a, ca),
        a.len() <= b.len(),
        ca.len() <= cb.len(),
        forall|j: int| 0 <= j < ca.len() ==> cb[j] == ca[j],
        forall|j: int| 0 <= j < a.len() && ca[j].within(ca[i]) ==> b[j] == a[j],
        0 <= i < a.len(),
    ensures
        lights_in(b, cb, i, q) == lights_in(a, ca, i, q),
    decreases a.len() - i,
{
    assert(light_node_ok(a, ca, i));
    assert(b[i] == a[i]);
    if let Some(f) = a[i].split {
        let k = ca[i].octant_of(q);
        assert(ca[f + k] == ca[i].child(k));
        lemma_child(ca[i], k);
        lemma_lights_frame(a, ca, b, cb, f + k, q);
    }
}

/// Two distinct octants share no cube.
proof fn lemma_octants_apart(c: Cube, k1: int, k2: int, x: Cube)
    requires
        c.valid(),
        c.size > 1,
        0 <= k1 < 8,
        0 <= k2 < 8,
        k1 != k2,
        x.size >= 1,
        x.within(c.child(k1)),
    ensures
        !x.within(c.child(k2)),
{
    lemma_octants_tile(c, x.pos);
}

proof fn lemma_ms_push_inside(a: Seq<Point>, b: Seq<Point>, l: Point)
    ensures
        (a.push(l) + b).to_multiset() =~= (a + b).to_multiset().insert(l),
{
    broadcast use vstd::seq_lib::group_to_multiset_ensures;
    broadcast use vstd::multiset::group_multiset_axioms;

    lemma_multiset_commutative(a.push(l), b);
    lemma_multiset_commutative(a, b);
}

proof fn lemma_ms_insert_tail(a: Seq<Point>, b: Seq<Point>, b2: Seq<Point>, l: Point)
    requires
        b2.to_multiset() == b.to_multiset().insert(l),
    ensures
        (a + b2).to_multiset() =~= (a + b).to_multiset().insert(l),
{
    broadcast use vstd::multiset::group_multiset_axioms;

    lemma_multiset_commutative(a, b2);
    lemma_multiset_commutative(a, b);
}

/// Whether the light at `l` surely matters everywhere in `c`.
fn surely_lit_exec(c: &Cube, l: &Point, r: &LightReach) -> (b: bool)
    ensures
        b == surely_lit(*c, *l, *r),
{
    c.far4_below(l, r.useful)
}

/// Whether the light at `l` may matter somewhere in `c`.
fn maybe_lit_exec(c: &Cube, l: &Point, r: &LightReach) -> (b: bool)
    requires
        c.valid(),
    ensures
        b == maybe_lit(*c, *l, *r),
{
    if c.contains(l) {
        return true;
    }
    c.near4_below(l, r.relevant)
}

/// The light importance tree over the cube `bounds`.
pub struct LightingTree {
    nodes: Vec<LightNode>,
    bounds: Cube,
    cells: Ghost<Seq<Cube>>,
}

impl LightingTree {
    /// The arena, root first.
    pub closed spec fn nodes_spec(&self) -> Seq<LightNode> {
        self.nodes@
    }

    /// The cube of each node of the arena.
    pub closed spec fn cells_spec(&self) -> Seq<Cube> {
        self.cells@
    }

    pub closed spec fn bounds_spec(&self) -> Cube {
        self.bounds
    }

    pub open spec fn wf(&self) -> bool {
        &&& self.bounds_spec().valid()
        &&& light_tree_ok(self.nodes_spec(), self.cells_spec())
        &&& self.nodes_spec().len() >= 1
        &&& self.cells_spec()[0] == self.bounds_spec()
    }

    /// The lights that a query at `q` visits, with their multiplicity.
    pub open spec fn lit_at(&self, q: Point) -> Multiset<Point> {
        lights_in(self.nodes_spec(), self.cells_spec(), 0, q).to_multiset()
    }

    /// A tree over `bounds` without lights.
    pub fn new(bounds: Cube) -> (r: Self)
        requires
            bounds.valid(),
        ensures
            r.wf(),
            r.bounds_spec() == bounds,
            forall|q: Point| #[trigger] r.lit_at(q) == Multiset::<Point>::empty(),
    {
        let mut nodes: Vec<LightNode> = Vec::new();
        nodes.push(LightNode { lights: Vec::new(), split: None });
        let ghost cells = seq![bounds];
        let r = LightingTree { nodes, bounds, cells: Ghost(cells) };
        assert(light_node_ok(r.nodes@, r.cells@, 0));
        assert forall|q: Point| #[trigger] r.lit_at(q) == Multiset::<Point>::empty() by {
            broadcast use vstd::seq_lib::group_to_multiset_ensures;

            assert(lights_in(r.nodes@, r.cells@, 0, q) =~= Seq::<Point>::empty());
            assert(lights_in(r.nodes@, r.cells@, 0, q).to_multiset() =~= Multiset::<Point>::empty());
        }
        r
    }

    pub fn bounds(&self) -> (r: Cube)
        ensures
            r == self.bounds_spec(),
    {
        self.bounds
    }

    /// Inserts the light at `position` with the given reach: every query
    /// point on whose path the light is recorded (see `visible`) gains it
    /// once, the others are unchanged.
    pub fn insert(&mut self, position: Point, reach: LightReach)
        requires
            old(self).wf(),
        ensures
            final(self).wf(),
            final(self).bounds_spec() == old(self).bounds_spec(),
            forall|q: Point|
                #[trigger] final(self).lit_at(q) == if visible(
                    old(self).bounds_spec(),
                    position,
                    reach,
                    q,
                ) {
                    old(self).lit_at(q).insert(position)
                } else {
                    old(self).lit_at(q)
                },
    {
        let c = self.bounds;
        self.insert_at(0, c, position, reach);
    }

    /// Makes sure node `i`, whose cube is `c`, is split, and returns the index
    /// of its first child. What any path finds is unchanged.
    fn split(&mut self, i: usize, c: Cube) -> (f: usize)
        requires
            old(self).wf(),
            i < old(self).nodes@.len(),
            old(self).cells@[i as int] == c,
            c.size > 1,
        ensures
            final(self).wf(),
            final(self).bounds == old(self).bounds,
            final(self).nodes@.len() >= old(self).nodes@.len(),
            final(self).nodes@[i as int].split == Some(f),
            final(self).nodes@[i as int].lights == old(self).nodes@[i as int].lights,
            forall|j: int|
                0 <= j < old(self).cells@.len() ==> #[trigger] final(self).cells@[j]
                    == old(self).cells@[j],
            forall|j: int|
                0 <= j < old(self).nodes@.len() && j != i ==> #[trigger] final(self).nodes@[j]
                    == old(self).nodes@[j],
            forall|q: Point|
                #[trigger] lights_in(final(self).nodes@, final(self).cells@, i as int, q)
                    == lights_in(old(self).nodes@, old(self).cells@, i as int, q),
            old(self).nodes@[i as int].split is Some ==> Some(f) == old(self).nodes@[i as int].split
                && final(self).nodes@ == old(self).nodes@ && final(self).cells@ == old(
                self,
            ).cells@,
            old(self).nodes@[i as int].split is None ==> f == old(self).nodes@.len()
                && final(self).nodes@.len() == f + 8 && forall|k: int|
                0 <= k < 8 ==> (#[trigger] final(self).nodes@[f + k]).split is None
                    && final(self).nodes@[f + k].lights@.len() == 0,
    {
        let ghost a = self.nodes@;
        let ghost ca = self.cells@;
        assert(light_node_ok(a, ca, i as int));
        if let Some(f) = self.nodes[i].split {
            return f;
        }
        let f = self.nodes.len();
        let mut m: usize = 0;
        while m < 8
            invariant
                0 <= m <= 8,
                self.nodes@.len() == f + m,
                self.cells@.len() == f + m,
                self.bounds == old(self).bounds,
                forall|j: int| 0 <= j < f ==> #[trigger] self.nodes@[j] == a[j],
                forall|j: int| 0 <= j < f ==> #[trigger] self.cells@[j] == ca[j],
                forall|j: int|
                    f <= j < f + m ==> (#[trigger] self.nodes@[j]).split is None
                        && self.nodes@[j].lights@.len() == 0,
                forall|j: int| f <= j < f + m ==> #[trigger] self.cells@[j] == c.child(j - f),
            decreases 8 - m,
        {
            self.nodes.push(LightNode { lights: Vec::new(), split: None });
            proof {
                self.cells@ = self.cells@.push(c.child(m as int));
            }
            m = m + 1;
        }
        let n = self.nodes.len();
        assert(n == f + 8);
        self.nodes[i].split = Some(f);
        proof {
            let b = self.nodes@;
            let cb = self.cells@;
            assert forall|j: int| 0 <= j < b.len() implies #[trigger] light_node_ok(b, cb, j) by {
                if j < f {
                    assert(light_node_ok(a, ca, j));
                    if j == i {
                        assert forall|kk: int| 0 <= kk < 8 implies cb[f + kk]
                            == #[trigger] cb[j].child(kk) by {
                            assert(cb[f + kk] == c.child(f + kk - f));
                        }
                    }
                } else {
                    lemma_child(c, j - f);
                }
            }
            assert forall|q: Point|
                #[trigger] lights_in(b, cb, i as int, q) == lights_in(a, ca, i as int, q) by {
                let k = c.octant_of(q);
                assert(b[f + k].split is None);
                assert(b[f + k].lights@ =~= Seq::<Point>::empty());
                assert(lights_in(b, cb, f + k, q) =~= Seq::<Point>::empty());
                assert(lights_in(b, cb, i as int, q) =~= a[i as int].lights@);
                assert(lights_in(a, ca, i as int, q) =~= a[i as int].lights@);
            }
        }
        f
    }

    /// Inserts the light below node `i`, whose cube is `c`.
    fn insert_at(&mut self, i: usize, c: Cube, l: Point, r: LightReach)
        requires
            old(self).wf(),
            i < old(self).nodes@.len(),
            old(self).cells@[i as int] == c,
        ensures
            final(self).wf(),
            final(self).bounds == old(self).bounds,
            final(self).nodes@.len() >= old(self).nodes@.len(),
            forall|j: int|
                0 <= j < old(self).cells@.len() ==> #[trigger] final(self).cells@[j]
                    == old(self).cells@[j],
            forall|j: int|
                0 <= j < old(self).nodes@.len() && !old(self).cells@[j].within(c)
                    ==> #[trigger] final(self).nodes@[j] == old(self).nodes@[j],
            forall|q: Point|
                #[trigger] lights_in(final(self).nodes@, final(self).cells@, i as int, q).to_multiset()
                    == if visible(c, l, r, q) {
                    lights_in(old(self).nodes@, old(self).cells@, i as int, q).to_multiset().insert(l)
                } else {
                    lights_in(old(self).nodes@, old(self).cells@, i as int, q).to_multiset()
                },
        decreases c.size,
    {
        let ghost a = self.nodes@;
        let ghost ca = self.cells@;
        assert(light_node_ok(a, ca, i as int));
        let sure = surely_lit_exec(&c, &l, &r);
        let maybe = maybe_lit_exec(&c, &l, &r);
        if !sure && !maybe {
            return;
        }
        if sure || c.size == 1 {
            self.nodes[i].lights.push(l);
            proof {
                let b = self.nodes@;
                let cb = self.cells@;
                assert forall|j: int| 0 <= j < b.len() implies #[trigger] light_node_ok(b, cb, j) by {
                    assert(light_node_ok(a, ca, j));
                }
                assert forall|q: Point|
                    #[trigger] lights_in(b, cb, i as int, q).to_multiset() == lights_in(
                        a,
                        ca,
                        i as int,
                        q,
                    ).to_multiset().insert(l) by {
                    let tail = match a[i as int].split {
                        Some(f) => lights_in(a, ca, f + c.octant_of(q), q),
                        None => Seq::<Point>::empty(),
                    };
                    if let Some(f) = a[i as int].split {
                        let k = c.octant_of(q);
                        assert(ca[f + k] == c.child(k));
                        lemma_child(c, k);
                        assert forall|j: int| 0 <= j < a.len() && ca[j].within(ca[f + k]) implies b[j]
                            == a[j] by {
                            if j == i {
                                assert(c.size > c.child(k).size);
                            }
                        }
                        lemma_lights_frame(a, ca, b, cb, f + k, q);
                    }
                    assert(lights_in(b, cb, i as int, q) == a[i as int].lights@.push(l) + tail);
                    assert(lights_in(a, ca, i as int, q) == a[i as int].lights@ + tail);
                    lemma_ms_push_inside(a[i as int].lights@, tail, l);
                }
            }
            return;
        }
        let f = self.split(i, c);
        let ghost s0 = self.nodes@;
        let ghost c0 = self.cells@;
        assert(light_node_ok(s0, c0, i as int));
        let mut k: usize = 0;
        while k < 8
            invariant
                0 <= k <= 8,
                light_tree_ok(s0, c0),
                s0.len() == c0.len(),
                i < f,
                f + 8 <= s0.len(),
                s0[i as int].split == Some(f),
                c0[i as int] == c,
                c.valid(),
                c.size > 1,
                forall|kk: int| 0 <= kk < 8 ==> c0[f + kk] == #[trigger] c.child(kk),
                self.wf(),
                self.bounds == old(self).bounds,
                self.nodes@.len() >= s0.len(),
                forall|j: int| 0 <= j < c0.len() ==> #[trigger] self.cells@[j] == c0[j],
                forall|j: int|
                    0 <= j < s0.len() && (j == i || !c0[j].within(c) || c.octant_of(c0[j].pos)
                        >= k) ==> #[trigger] self.nodes@[j] == s0[j],
                forall|q: Point|
                    c.octant_of(q) < k ==> #[trigger] lights_in(
                        self.nodes@,
                        self.cells@,
                        f + c.octant_of(q),
                        q,
                    ).to_multiset() == if visible(c.child(c.octant_of(q)), l, r, q) {
                        lights_in(s0, c0, f + c.octant_of(q), q).to_multiset().insert(l)
                    } else {
                        lights_in(s0, c0, f + c.octant_of(q), q).to_multiset()
                    },
            decreases 8 - k,
        {
            let sub = c.sub_cube(k);
            proof {
                assert(self.nodes.len() == self.nodes@.len());
            }
            let ghost mid = self.nodes@;
            let ghost cmid = self.cells@;
            proof {
                assert(c0[f + k] == c.child(k as int));
                assert forall|j: int| 0 <= j < s0.len() && c0[j].within(c0[f + k]) implies mid[j]
                    == s0[j] by {
                    assert(light_node_ok(s0, c0, j));
                    lemma_octants_tile(c, c0[j].pos);
                    lemma_child(c, k as int);
                    if j == i {
                        assert(c.size > sub.size);
                    }
                }
            }
            self.insert_at(f + k, sub, l, r);
            proof {
                let b = self.nodes@;
                let cb = self.cells@;
                lemma_lights_frame(s0, c0, mid, cmid, (f + k) as int, l);
                assert forall|j: int|
                    0 <= j < s0.len() && (j == i || !c0[j].within(c) || c.octant_of(c0[j].pos)
                        >= k + 1) implies #[trigger] b[j] == s0[j] by {
                    assert(light_node_ok(s0, c0, j));
                    lemma_child(c, k as int);
                    lemma_octants_tile(c, c0[j].pos);
                    if j == i {
                        assert(c.size > sub.size);
                    }
                }
                assert forall|q: Point| c.octant_of(q) < k + 1 implies #[trigger] lights_in(
                    b,
                    cb,
                    f + c.octant_of(q),
                    q,
                ).to_multiset() == if visible(c.child(c.octant_of(q)), l, r, q) {
                    lights_in(s0, c0, f + c.octant_of(q), q).to_multiset().insert(l)
                } else {
                    lights_in(s0, c0, f + c.octant_of(q), q).to_multiset()
                } by {
                    let kq = c.octant_of(q);
                    lemma_child(c, kq);
                    if kq == k {
                        assert forall|j: int| 0 <= j < s0.len() && c0[j].within(c0[f + kq]) implies mid[j]
                            == s0[j] by {
                            assert(light_node_ok(s0, c0, j));
                            lemma_octants_tile(c, c0[j].pos);
                            if j == i {
                                assert(c.size > sub.size);
                            }
                        }
                        lemma_lights_frame(s0, c0, mid, cmid, f + kq, q);
                    } else {
                        assert forall|j: int| 0 <= j < mid.len() && cmid[j].within(cmid[f + kq]) implies b[j]
                            == mid[j] by {
                            assert(light_node_ok(mid, cmid, j));
                            if cmid[j].within(sub) {
                                lemma_octants_apart(c, kq, k as int, cmid[j]);
                            }
                        }
                        lemma_lights_frame(mid, cmid, b, cb, f + kq, q);
                    }
                }
            }
            k = k + 1;
        }
        proof {
            let b = self.nodes@;
            let cb = self.cells@;
            assert forall|j: int| 0 <= j < a.len() && !ca[j].within(c) implies #[trigger] b[j]
                == a[j] by {
                assert(c0[j] == ca[j]);
            }
            assert forall|q: Point|
                #[trigger] lights_in(b, cb, i as int, q).to_multiset() == if visible(c, l, r, q) {
                    lights_in(a, ca, i as int, q).to_multiset().insert(l)
                } else {
                    lights_in(a, ca, i as int, q).to_multiset()
                } by {
                let kq = c.octant_of(q);
                assert(b[i as int] == s0[i as int]);
                assert(lights_in(b, cb, i as int, q) == s0[i as int].lights@ + lights_in(b, cb, f + kq, q));
                assert(lights_in(s0, c0, i as int, q) == s0[i as int].lights@ + lights_in(s0, c0, f + kq, q));
                assert(lights_in(s0, c0, i as int, q) == lights_in(a, ca, i as int, q));
                if visible(c, l, r, q) {
                    lemma_ms_insert_tail(s0[i as int].lights@, lights_in(s0, c0, f + kq, q), lights_in(b, cb, f + kq, q), l);
                } else {
                    lemma_multiset_commutative(s0[i as int].lights@, lights_in(s0, c0, f + kq, q));
                    lemma_multiset_commutative(s0[i as int].lights@, lights_in(b, cb, f + kq, q));
                }
            }
        }
    }

    /// The lights recorded on the path from the root towards `q`: the coarse
    /// ones met on the way down and those of the last node reached.
    pub fn query(&self, q: &Point) -> (r: Vec<Point>)
        requires
            self.wf(),
        ensures
            r@.to_multiset() == self.lit_at(*q),
    {
        let mut out: Vec<Point> = Vec::new();
        let mut i: usize = 0;
        let mut c = self.bounds;
        assert(light_node_ok(self.nodes@, self.cells@, 0));
        assert(out@ + lights_in(self.nodes@, self.cells@, 0, *q) =~= lights_in(self.nodes@, self.cells@, 0, *q));
        loop
            invariant
                self.wf(),
                i < self.nodes@.len(),
                self.cells@[i as int] == c,
                out@ + lights_in(self.nodes@, self.cells@, i as int, *q) == lights_in(
                    self.nodes@,
                    self.cells@,
                    0,
                    *q,
                ),
            decreases self.nodes@.len() - i,
        {
            assert(light_node_ok(self.nodes@, self.cells@, i as int));
            proof {
                assert(self.nodes.len() == self.nodes@.len());
            }
            let node = &self.nodes[i];
            let ghost out0 = out@;
            let mut m: usize = 0;
            while m < node.lights.len()
                invariant
                    m <= node.lights@.len(),
                    out@ == out0 + node.lights@.subrange(0, m as int),
                decreases node.lights@.len() - m,
            {
                out.push(node.lights[m]);
                m = m + 1;
                assert(out@ =~= out0 + node.lights@.subrange(0, m as int));
            }
            assert(node.lights@.subrange(0, m as int) =~= node.lights@);
            match node.split {
                Some(f) => {
                    let k = c.octant(q);
                    let sub = c.sub_cube(k);
                    proof {
                        assert(self.cells@[f + k] == c.child(k as int));
                        let tail = lights_in(self.nodes@, self.cells@, f + k, *q);
                        assert(lights_in(self.nodes@, self.cells@, i as int, *q) == node.lights@ + tail);
                        assert(out@ + tail =~= out0 + (node.lights@ + tail));
                    }
                    i = f + k;
                    c = sub;
                },
                None => {
                    proof {
                        assert(lights_in(self.nodes@, self.cells@, i as int, *q) =~= node.lights@);
                        assert(out@ =~= out0 + node.lights@);
                    }
                    return out;
                },
            }
        }
    }
}

/// Completeness: when the relevant bound is no tighter than the useful one,
/// a light that surely matters at the voxel `q` is recorded on the path
/// towards `q` from every cube that holds `q`, so a query at `q` returns it.
pub proof fn lemma_useful_light_found(c: Cube, l: Point, r: LightReach, q: Point)
    requires
        c.valid(),
        c.covers(q),
        r.useful <= r.relevant,
        surely_lit(Cube { pos: q, size: 1 }, l, r),
    ensures
        visible(c, l, r, q),
    decreases c.size,
{
    if !surely_lit(c, l, r) {
        lemma_near_below_far(c, l, q);
        assert(maybe_lit(c, l, r));
        if c.size > 1 {
            lemma_octants_tile(c, q);
            lemma_child(c, c.octant_of(q));
            lemma_useful_light_found(c.child(c.octant_of(q)), l, r, q);
        }
    }
}

/// The cube reached from `c` after `d` steps towards `q`.
pub open spec fn path_cube(c: Cube, q: Point, d: nat) -> Cube
    decreases d,
{
    if d == 0 {
        c
    } else {
        path_cube(c.child(c.octant_of(q)), q, (d - 1) as nat)
    }
}

/// The light is handed on at each of the first `d` cubes from `c` towards `q`.
pub open spec fn handed_down(c: Cube, l: Point, r: LightReach, q: Point, d: nat) -> bool
    decreases d,
{
    d == 0 || (passes(c, l, r) && handed_down(c.child(c.octant_of(q)), l, r, q, (d - 1) as nat))
}

/// Pruning: a light that reaches a cube on the path towards `q` where it
/// neither surely nor possibly matters is not recorded anywhere on that
/// path, so a query at `q` does not return it.
pub proof fn lemma_pruned_light_absent(c: Cube, l: Point, r: LightReach, q: Point, d: nat)
    requires
        handed_down(c, l, r, q, d),
        !surely_lit(path_cube(c, q, d), l, r),
        !maybe_lit(path_cube(c, q, d), l, r),
    ensures
        !visible(c, l, r, q),
    decreases d,
{
    if d > 0 {
        lemma_pruned_light_absent(c.child(c.octant_of(q)), l, r, q, (d - 1) as nat);
    }
}

} // verus!

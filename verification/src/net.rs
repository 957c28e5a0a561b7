//! The circuit a board makes: which wire and pin cells share a node, and
//! the nodes each part's pins sit on.
//!
//! Joined wires and pins share a node. Two wires that cross straight over
//! each other keep apart: a crossing cell carries its north-south wire on
//! one point and its east-west wire on another.

use vstd::prelude::*;
use std::collections::BTreeMap;
use vstd::std_specs::iter::IteratorSpec;
use crate::geom::{crossing, offset, opposite, joins, is_side, lemma_side_bits, spec_crossing, spec_opposite, step, E, S, W, N};
use crate::kind::Kind;
use crate::part::{pin_cells, lemma_pins_shape};
use crate::board::{Board, Cell, swap, mask_of, mask_in, can_step, joined};
use crate::forest::Forest;

verus! {

/// A point of the board: a wire or pin cell, and whether it is the
/// east-west wire of a crossing.
pub type Point = ((i32, i32), bool);

/// A board turned into something the solver takes.
pub struct Net {
    /// How many nodes there are; at least one.
    pub nodes: usize,
    /// The first battery's − node, or 0 when there is no battery.
    pub ground: usize,
    /// The first battery's part index.
    pub battery: Option<usize>,
    /// Device number to part index, and back.
    pub dev_part: Vec<usize>,
    pub part_dev: Vec<Option<usize>>,
    /// Per device: the node of each pin, in pin order.
    pub dev_pins: Vec<Vec<usize>>,
    /// Which node each wire and pin cell belongs to; at a crossing, the
    /// node of its north-south wire.
    pub node_of: BTreeMap<(i32, i32), usize>,
    /// At a crossing, the node of its east-west wire.
    pub across: BTreeMap<(i32, i32), usize>,
}

/// The node of point `p`: from `across` for a crossing's east-west wire,
/// from `node_of` otherwise.
pub open spec fn node_in(node_of: Map<(i32, i32), usize>, across: Map<(i32, i32), usize>, p: Point) -> usize {
    if p.1 {
        across[p.0]
    } else {
        node_of[p.0]
    }
}

impl Net {
    /// The node of a point.
    pub open spec fn node(&self, p: Point) -> usize {
        node_in(self.node_of@, self.across@, p)
    }
}

impl Board {
    /// A wire or pin cell is in use at `at`.
    pub open spec fn wire_like(&self, at: (i32, i32)) -> bool {
        self.holds(at) && mask_of(self.cell_at(at)) is Some
    }

    /// The sides the wire or pin at `at` joins.
    pub open spec fn mask_at(&self, at: (i32, i32)) -> u8 {
        mask_in(self.cells@, at)
    }

    /// The point of cell `at` that a wire on side `d` reaches: a crossing's
    /// east-west wire for sides E and W, otherwise the cell's own point.
    pub open spec fn side_point(&self, at: (i32, i32), d: u8) -> Point {
        (at, spec_crossing(self.mask_at(at)) && (d == E || d == W))
    }

    /// `p` is a point of this board.
    pub open spec fn is_point(&self, p: Point) -> bool {
        self.wire_like(p.0) && (p.1 ==> spec_crossing(self.mask_at(p.0)))
    }

    /// The cell at `at` and its neighbour across side `d` (east or south)
    /// point at each other.
    pub open spec fn link(&self, at: (i32, i32), d: u8) -> bool {
        &&& d == E || d == S
        &&& self.wire_like(at)
        &&& joins(self.mask_at(at), d)
        &&& can_step(at, d)
        &&& self.wire_like(step(at, d))
        &&& joins(self.mask_at(step(at, d)), spec_opposite(d))
    }

    /// `lab` gives both ends of every link the same label.
    pub open spec fn respects(&self, lab: spec_fn(Point) -> int) -> bool {
        forall|at: (i32, i32), d: u8| #[trigger] self.link(at, d) ==> lab(self.side_point(at, d)) == lab(self.side_point(step(at, d), spec_opposite(d)))
    }

    /// No wire or pin joins east off the last column or south off the
    /// last row that an `i32` can number.
    pub open spec fn steps_fit(&self) -> bool {
        forall|at: (i32, i32)| #[trigger] self.wire_like(at) ==> {
            &&& joins(self.mask_at(at), E) ==> at.0 < i32::MAX
            &&& joins(self.mask_at(at), S) ==> at.1 < i32::MAX
        }
    }

    /// Some point of the board sits on node `v`.
    pub open spec fn reaches(&self, node_of: Map<(i32, i32), usize>, across: Map<(i32, i32), usize>, v: usize) -> bool {
        exists|p: Point| #[trigger] self.is_point(p) && node_in(node_of, across, p) == v
    }

    /// Points `p` and `q` are joined through wires and pins: every
    /// labelling that gives both ends of each link the same label gives
    /// them the same label.
    pub open spec fn connected(&self, p: Point, q: Point) -> bool {
        forall|lab: spec_fn(Point) -> int| #[trigger] self.respects(lab) ==> lab(p) == lab(q)
    }

    /// `dev_part` lists the parts on the board in index order, and
    /// `part_dev` gives each part's place in that list.
    pub open spec fn lists_parts(&self, dev_part: Seq<usize>, part_dev: Seq<Option<usize>>) -> bool {
        &&& forall|d: int| 0 <= d < dev_part.len() ==> self.is_part(#[trigger] dev_part[d] as int)
        &&& forall|d1: int, d2: int| 0 <= d1 < d2 < dev_part.len() ==> #[trigger] dev_part[d1] < #[trigger] dev_part[d2]
        &&& part_dev.len() == self.parts@.len()
        &&& forall|i: int| 0 <= i < part_dev.len() ==> ((#[trigger] part_dev[i]) is Some <==> self.is_part(i))
        &&& forall|i: int| 0 <= i < part_dev.len() && (#[trigger] part_dev[i]) is Some ==>
            part_dev[i].unwrap() < dev_part.len() && dev_part[part_dev[i].unwrap() as int] == i
    }

    /// The nodes of the pins of part `i`, in pin order.
    pub open spec fn pin_nodes(&self, node_of: Map<(i32, i32), usize>, i: int) -> Seq<usize> {
        pin_cells(self.part_ref(i)).map_values(|c: (i32, i32)| node_of[c])
    }

    /// No part on the board is a battery.
    pub open spec fn no_battery(&self) -> bool {
        forall|i: int| #[trigger] self.is_part(i) ==> self.part_ref(i).kind != Kind::Battery
    }

    /// Part `i` is the first battery on the board.
    pub open spec fn first_battery(&self, i: int) -> bool {
        &&& self.is_part(i)
        &&& self.part_ref(i).kind == Kind::Battery
        &&& forall|j: int| 0 <= j < i ==> !(#[trigger] self.is_part(j) && self.part_ref(j).kind == Kind::Battery)
    }
}

/// The element of the forest that stands for point `p`.
spec fn elem(index: Map<(i32, i32), usize>, p: Point) -> int {
    2 * index[p.0] + if p.1 { 1int } else { 0int }
}

/// A labelling of elements gives both ends of every link the same label.
spec fn respects_elems(b: Board, index: Map<(i32, i32), usize>, lab: spec_fn(nat) -> int) -> bool {
    forall|at: (i32, i32), d: u8| #[trigger] b.link(at, d) ==> lab(elem(index, b.side_point(at, d)) as nat) == lab(elem(index, b.side_point(step(at, d), spec_opposite(d))) as nat)
}

/// Element `x` carries the same label as its root.
spec fn agrees(lab: spec_fn(nat) -> int, roots: Seq<nat>, x: int) -> bool {
    lab(x as nat) == lab(roots[x])
}

impl Board {
    /// The wire and pin cells, each once, with their masks.
    fn wire_cells(&self) -> (r: (Vec<(i32, i32)>, Vec<u8>))
        ensures
            r.0@.no_duplicates(),
            r.0@.len() == r.1@.len(),
            r.0@.len() <= self.cells@.len(),
            forall|at: (i32, i32)| #[trigger] r.0@.contains(at) <==> self.wire_like(at),
            forall|i: int| 0 <= i < r.0@.len() ==> #[trigger] r.1@[i] == self.mask_at(r.0@[i]),
    {
        let mut ks: Vec<(i32, i32)> = Vec::new();
        let mut ms: Vec<u8> = Vec::new();
        let ghost mut pos: Seq<int> = Seq::empty();
        let ghost all = self.cells.iter().remaining();
        proof {
            assert(all.len() == self.cells@.dom().len());
        }
        for kv in it: self.cells.iter()
            invariant
                all == self.cells.iter().remaining(),
                it.seq() == all,
                all.len() == self.cells@.dom().len(),
                all.no_duplicates(),
                forall|t: int| 0 <= t < all.len() ==> #[trigger] self.cells@.contains_key(*all[t].0) && self.cells@[*all[t].0] == *all[t].1,
                ks@.len() == ms@.len(),
                ks@.len() == pos.len(),
                ks@.len() <= it.index(),
                forall|j: int| 0 <= j < ks@.len() ==> 0 <= #[trigger] pos[j] < it.index() && ks@[j] == swap(*all[pos[j]].0),
                forall|j1: int, j2: int| 0 <= j1 < j2 < ks@.len() ==> pos[j1] < pos[j2],
                forall|j: int| 0 <= j < ks@.len() ==> self.wire_like(#[trigger] ks@[j]) && ms@[j] == self.mask_at(ks@[j]),
                forall|t: int| 0 <= t < it.index() && mask_of(*all[t].1) is Some ==> ks@.contains(swap(*#[trigger] all[t].0)),
        {
            let (k, c) = kv;
            let m = match c {
                Cell::Wire(m) => Some(*m),
                Cell::Pin(_, _, m) => Some(*m),
                Cell::Body(_) => None,
            };
            let ghost ks0 = ks@;
            if let Some(m) = m {
                proof {
                    pos = pos.push(it.index() as int);
                }
                ks.push((k.1, k.0));
                ms.push(m);
                proof {
                    assert forall|x: (i32, i32)| ks0.contains(x) implies ks@.contains(x) by {
                        let j = choose|j: int| 0 <= j < ks0.len() && ks0[j] == x;
                        assert(ks@[j] == x);
                    }
                    assert(ks@[ks@.len() - 1] == swap(*k));
                }
            }
        }
        proof {
            assert forall|j1: int, j2: int| 0 <= j1 < ks@.len() && 0 <= j2 < ks@.len() && j1 != j2 implies ks@[j1] != ks@[j2] by {
                let t1 = pos[j1];
                let t2 = pos[j2];
                assert(t1 != t2);
                if ks@[j1] == ks@[j2] {
                    assert(*all[t1].0 == *all[t2].0);
                    assert(*all[t1].1 == *all[t2].1);
                    assert(all[t1] == all[t2]);
                }
            }
            assert forall|at: (i32, i32)| #[trigger] ks@.contains(at) <==> self.wire_like(at) by {
                if self.wire_like(at) {
                    let key = swap(at);
                    assert(self.cells@.contains_key(key));
                    assert(all.contains((&key, &self.cells@[key])));
                    let t = choose|t: int| 0 <= t < all.len() && all[t] == (&key, &self.cells@[key]);
                    assert(mask_of(*all[t].1) is Some);
                    assert(swap(*all[t].0) == at);
                }
            }
            assert(ks@.len() <= self.cells@.len());
        }
        (ks, ms)
    }
}

/// Position of each cell in `ks`.
fn index_of_cells(ks: &Vec<(i32, i32)>) -> (r: BTreeMap<(i32, i32), usize>)
    requires
        ks@.no_duplicates(),
    ensures
        forall|at: (i32, i32)| #[trigger] r@.contains_key(at) <==> ks@.contains(at),
        forall|at: (i32, i32)| #[trigger] r@.contains_key(at) ==> r@[at] < ks@.len() && ks@[r@[at] as int] == at,
        forall|i: int| 0 <= i < ks@.len() ==> r@.contains_key(#[trigger] ks@[i]) && r@[ks@[i]] == i,
{
    let mut m: BTreeMap<(i32, i32), usize> = BTreeMap::new();
    let mut i: usize = 0;
    while i < ks.len()
        invariant
            ks@.no_duplicates(),
            i <= ks@.len(),
            forall|j: int| 0 <= j < i ==> m@.contains_key(#[trigger] ks@[j]) && m@[ks@[j]] == j,
            forall|at: (i32, i32)| #[trigger] m@.contains_key(at) ==> m@[at] < i && ks@[m@[at] as int] == at,
        decreases ks@.len() - i,
    {
        m.insert(ks[i], i);
        proof {
            assert forall|j: int| 0 <= j < i + 1 implies m@.contains_key(#[trigger] ks@[j]) && m@[ks@[j]] == j by {
                if j < i {
                    assert(ks@[j] != ks@[i as int]);
                }
            }
        }
        i = i + 1;
    }
    proof {
        assert forall|at: (i32, i32)| #[trigger] m@.contains_key(at) <==> ks@.contains(at) by {
            if m@.contains_key(at) {
                assert(ks@[m@[at] as int] == at);
            }
        }
    }
    m
}

/// `ks` lists the wire and pin cells, `ms` their masks, and `index` the
/// position of each in `ks`.
spec fn indexed(b: Board, ks: Seq<(i32, i32)>, ms: Seq<u8>, index: Map<(i32, i32), usize>) -> bool {
    &&& ms.len() == ks.len()
    &&& forall|at: (i32, i32)| #[trigger] index.contains_key(at) <==> b.wire_like(at)
    &&& forall|at: (i32, i32)| #[trigger] index.contains_key(at) ==> index[at] < ks.len() && ks[index[at] as int] == at
    &&& forall|i: int| 0 <= i < ks.len() ==> index.contains_key(#[trigger] ks[i]) && index[ks[i]] == i
    &&& forall|i: int| 0 <= i < ks.len() ==> #[trigger] ms[i] == b.mask_at(ks[i])
}

/// Every pair of elements in one set under `a` is in one set under `b`.
spec fn keeps_ties(a: Seq<nat>, b: Seq<nat>) -> bool {
    &&& a.len() == b.len()
    &&& forall|x: int, y: int| #![trigger b[x], b[y]] 0 <= x < a.len() && 0 <= y < a.len() && a[x] == a[y] ==> b[x] == b[y]
}

/// Any labelling that agrees across every link agrees between each
/// element and its root.
spec fn faithful(b: Board, index: Map<(i32, i32), usize>, rs: Seq<nat>) -> bool {
    forall|lab: spec_fn(nat) -> int| #[trigger] respects_elems(b, index, lab) ==> forall|x: int| 0 <= x < rs.len() ==> #[trigger] agrees(lab, rs, x)
}

impl Board {
    /// Join the two ends of the link from cell `ks[i]` across side `d`,
    /// if there is one.
    fn tie_side(&self, f: &mut Forest, ks: &Vec<(i32, i32)>, ms: &Vec<u8>, index: &BTreeMap<(i32, i32), usize>, i: usize, d: u8)
        requires
            indexed(*self, ks@, ms@, index@),
            self.steps_fit(),
            old(f).wf(),
            old(f).size() == 2 * ks@.len(),
            old(f).roots().len() == old(f).size(),
            i < ks@.len(),
            2 * ks@.len() <= usize::MAX,
            d == E || d == S,
            faithful(*self, index@, old(f).roots()),
        ensures
            final(f).wf(),
            final(f).size() == old(f).size(),
            final(f).roots().len() == final(f).size(),
            keeps_ties(old(f).roots(), final(f).roots()),
            faithful(*self, index@, final(f).roots()),
            self.link(ks@[i as int], d) ==> final(f).roots()[elem(index@, self.side_point(ks@[i as int], d))]
                == final(f).roots()[elem(index@, self.side_point(step(ks@[i as int], d), spec_opposite(d)))],
    {
        let ghost r0 = f.roots();
        let at = ks[i];
        let m = ms[i];
        proof {
            assert(index@.contains_key(at));
            assert(self.wire_like(at));
        }
        if m & d == 0 {
            assert(keeps_ties(r0, f.roots()));
            return;
        }
        let (dx, dy) = offset(d);
        let nb = (at.0 + dx, at.1 + dy);
        proof {
            assert(can_step(at, d));
            assert(nb == step(at, d));
        }
        let j = match index.get(&nb) {
            Some(j) => *j,
            None => {
                assert(keeps_ties(r0, f.roots()));
                return;
            },
        };
        let od = opposite(d);
        let mj = ms[j];
        proof {
            assert(ks@[j as int] == nb);
            assert(self.wire_like(nb));
        }
        if mj & od == 0 {
            assert(keeps_ties(r0, f.roots()));
            return;
        }
        let ca = crossing(m);
        let cb = crossing(mj);
        let a0: usize = if ca && (d == E || d == W) { 2 * i + 1 } else { 2 * i };
        let b0: usize = if cb && (od == E || od == W) { 2 * j + 1 } else { 2 * j };
        proof {
            assert(self.link(at, d));
            assert(a0 == elem(index@, self.side_point(at, d)));
            assert(b0 == elem(index@, self.side_point(nb, od)));
        }
        let a = f.find(a0);
        let b = f.find(b0);
        f.merge(a, b);
        proof {
            let r1 = f.roots();
            assert(keeps_ties(r0, r1));
            assert forall|lab: spec_fn(nat) -> int| #[trigger] respects_elems(*self, index@, lab) implies forall|x: int| 0 <= x < r1.len() ==> #[trigger] agrees(lab, r1, x) by {
                assert(agrees(lab, r0, a0 as int));
                assert(agrees(lab, r0, b0 as int));
                assert(lab(a0 as nat) == lab(b0 as nat));
                assert forall|x: int| 0 <= x < r1.len() implies #[trigger] agrees(lab, r1, x) by {
                    assert(agrees(lab, r0, x));
                }
            }
        }
    }

    /// Join the two ends of every link; the sets that result are exactly
    /// what the links connect.
    fn join_links(&self, ks: &Vec<(i32, i32)>, ms: &Vec<u8>, index: &BTreeMap<(i32, i32), usize>) -> (f: Forest)
        requires
            indexed(*self, ks@, ms@, index@),
            self.steps_fit(),
            2 * ks@.len() <= usize::MAX,
        ensures
            f.wf(),
            f.size() == 2 * ks@.len(),
            f.roots().len() == f.size(),
            faithful(*self, index@, f.roots()),
            forall|at: (i32, i32), d: u8| #[trigger] self.link(at, d) ==> f.roots()[elem(index@, self.side_point(at, d))]
                == f.roots()[elem(index@, self.side_point(step(at, d), spec_opposite(d)))],
    {
        let mut f = Forest::new(2 * ks.len());
        proof {
            let r = f.roots();
            assert forall|lab: spec_fn(nat) -> int| #[trigger] respects_elems(*self, index@, lab) implies forall|x: int| 0 <= x < r.len() ==> #[trigger] agrees(lab, r, x) by {
                assert forall|x: int| 0 <= x < r.len() implies #[trigger] agrees(lab, r, x) by {
                    assert(r[x] == x);
                }
            }
        }
        let mut i: usize = 0;
        while i < ks.len()
            invariant
                indexed(*self, ks@, ms@, index@),
                self.steps_fit(),
                2 * ks@.len() <= usize::MAX,
                i <= ks@.len(),
                f.wf(),
                f.size() == 2 * ks@.len(),
                f.roots().len() == f.size(),
                faithful(*self, index@, f.roots()),
                forall|at: (i32, i32), d: u8| #[trigger] self.link(at, d) && index@[at] < i ==> f.roots()[elem(index@, self.side_point(at, d))]
                    == f.roots()[elem(index@, self.side_point(step(at, d), spec_opposite(d)))],
            decreases ks@.len() - i,
        {
            let ghost r0 = f.roots();
            self.tie_side(&mut f, ks, ms, index, i, E);
            let ghost r1 = f.roots();
            self.tie_side(&mut f, ks, ms, index, i, S);
            proof {
                let r2 = f.roots();
                assert forall|at: (i32, i32), d: u8| #[trigger] self.link(at, d) && index@[at] < i + 1 implies r2[elem(index@, self.side_point(at, d))]
                    == r2[elem(index@, self.side_point(step(at, d), spec_opposite(d)))] by {
                    let x = elem(index@, self.side_point(at, d));
                    let y = elem(index@, self.side_point(step(at, d), spec_opposite(d)));
                    assert(index@.contains_key(at));
                    assert(index@.contains_key(step(at, d)));
                    assert(0 <= x < r0.len() && 0 <= y < r0.len());
                    if index@[at] < i {
                        assert(r0[x] == r0[y]);
                        assert(r1[x] == r1[y]);
                    } else {
                        assert(ks@[i as int] == at);
                        if d == E {
                            assert(r1[x] == r1[y]);
                        }
                    }
                }
            }
            i = i + 1;
        }
        proof {
            assert forall|at: (i32, i32), d: u8| #[trigger] self.link(at, d) implies f.roots()[elem(index@, self.side_point(at, d))]
                == f.roots()[elem(index@, self.side_point(step(at, d), spec_opposite(d)))] by {
                assert(index@.contains_key(at));
            }
        }
        f
    }
}

/// The number of the set rooted at `r`, handing out the next number if it
/// has none yet.
fn number_of(number: &mut Vec<Option<usize>>, count: &mut usize, r: usize) -> (v: usize)
    requires
        r < old(number)@.len(),
        *old(count) < usize::MAX,
    ensures
        final(number)@[r as int] == Some(v),
        old(number)@[r as int] is Some ==> *final(number) == *old(number) && *final(count) == *old(count),
        old(number)@[r as int] is None ==> v == *old(count) && *final(count) == *old(count) + 1
            && final(number)@ == old(number)@.update(r as int, Some(v)),
{
    match number[r] {
        Some(v) => v,
        None => {
            let v = *count;
            number.set(r, Some(v));
            *count = v + 1;
            v
        },
    }
}

/// Numbers handed out so far: each below `count`, no two sets sharing one.
spec fn numbering(number: Seq<Option<usize>>, count: nat) -> bool {
    &&& forall|r: int| 0 <= r < number.len() && (#[trigger] number[r]) is Some ==> number[r].unwrap() < count
    &&& forall|r1: int, r2: int| #![trigger number[r1], number[r2]] 0 <= r1 < number.len() && 0 <= r2 < number.len()
        && number[r1] is Some && number[r1] == number[r2] ==> r1 == r2
}

impl Board {
    /// Number the sets of the forest's points from 0, in the order their
    /// first cell comes in `ks`.
    fn number_nodes(&self, ks: &Vec<(i32, i32)>, ms: &Vec<u8>, index: &BTreeMap<(i32, i32), usize>, f: &mut Forest)
        -> (r: (usize, BTreeMap<(i32, i32), usize>, BTreeMap<(i32, i32), usize>))
        requires
            indexed(*self, ks@, ms@, index@),
            old(f).wf(),
            old(f).size() == 2 * ks@.len(),
            2 * ks@.len() <= usize::MAX,
        ensures
            final(f).wf(),
            final(f).roots() == old(f).roots(),
            forall|at: (i32, i32)| #[trigger] r.1@.contains_key(at) <==> self.wire_like(at),
            forall|at: (i32, i32)| #[trigger] r.2@.contains_key(at) <==> self.wire_like(at) && spec_crossing(self.mask_at(at)),
            r.0 >= 1,
            forall|p: Point| #[trigger] self.is_point(p) ==> node_in(r.1@, r.2@, p) < r.0,
            forall|p: Point, q: Point| #![trigger self.is_point(p), self.is_point(q)] self.is_point(p) && self.is_point(q) ==>
                (node_in(r.1@, r.2@, p) == node_in(r.1@, r.2@, q) <==> old(f).roots()[elem(index@, p)] == old(f).roots()[elem(index@, q)]),
            (exists|p: Point| self.is_point(p)) ==> forall|v: usize| v < r.0 ==> #[trigger] self.reaches(r.1@, r.2@, v),
            !(exists|p: Point| self.is_point(p)) ==> r.0 == 1,
    {
        let ghost rs = f.roots();
        proof {
            f.lemma_roots();
        }
        let n2 = 2 * ks.len();
        let mut number: Vec<Option<usize>> = Vec::new();
        while number.len() < n2
            invariant
                number@.len() <= n2,
                forall|r: int| 0 <= r < number@.len() ==> #[trigger] number@[r] is None,
            decreases n2 - number@.len(),
        {
            number.push(None);
        }
        let mut count: usize = 0;
        let ghost mut wit: Seq<Point> = Seq::empty();
        let mut node_of: BTreeMap<(i32, i32), usize> = BTreeMap::new();
        let mut across: BTreeMap<(i32, i32), usize> = BTreeMap::new();
        let mut i: usize = 0;
        while i < ks.len()
            invariant
                indexed(*self, ks@, ms@, index@),
                f.wf(),
                f.roots() == rs,
                f.size() == n2,
                n2 == 2 * ks@.len(),
                n2 <= usize::MAX,
                rs.len() == n2,
                forall|x: int| 0 <= x < n2 ==> #[trigger] rs[x] < n2,
                i <= ks@.len(),
                number@.len() == n2,
                count <= 2 * i,
                numbering(number@, count as nat),
                wit.len() == count,
                forall|v: int| 0 <= v < count ==> self.is_point(#[trigger] wit[v]) && index@[wit[v].0] < i
                    && number@[rs[elem(index@, wit[v])] as int] == Some(v as usize),
                forall|at: (i32, i32)| #[trigger] node_of@.contains_key(at) <==> index@.contains_key(at) && index@[at] < i,
                forall|at: (i32, i32)| #[trigger] across@.contains_key(at) <==> index@.contains_key(at) && index@[at] < i
                    && spec_crossing(self.mask_at(at)),
                forall|p: Point| #[trigger] self.is_point(p) && index@[p.0] < i ==>
                    number@[rs[elem(index@, p)] as int] == Some(node_in(node_of@, across@, p)),
            decreases ks@.len() - i,
        {
            let at = ks[i];
            let ghost no0 = node_of@;
            let ghost ac0 = across@;
            let ghost p0: Point = (at, false);
            proof {
                assert(index@.contains_key(at));
                assert(self.is_point(p0));
                assert(elem(index@, p0) == 2 * i);
            }
            let r0 = f.find(2 * i);
            let ghost num0 = number@;
            let ghost c0 = count;
            let v0 = number_of(&mut number, &mut count, r0);
            proof {
                if c0 < count {
                    wit = wit.push(p0);
                }
            }
            node_of.insert(at, v0);
            let ghost num1 = number@;
            let ghost c1 = count;
            let ghost wit1 = wit;
            proof {
                assert(numbering(number@, count as nat));
                assert forall|v: int| 0 <= v < count implies self.is_point(#[trigger] wit[v]) && index@[wit[v].0] <= i
                    && number@[rs[elem(index@, wit[v])] as int] == Some(v as usize) by {
                    if v < c0 {
                        assert(num0[rs[elem(index@, wit[v])] as int] == Some(v as usize));
                    }
                }
            }
            if crossing(ms[i]) {
                let ghost p1: Point = (at, true);
                proof {
                    assert(self.is_point(p1));
                    assert(elem(index@, p1) == 2 * i + 1);
                }
                let r1 = f.find(2 * i + 1);
                let v1 = number_of(&mut number, &mut count, r1);
                proof {
                    if c1 < count {
                        wit = wit.push(p1);
                    }
                }
                across.insert(at, v1);
                proof {
                    assert(numbering(number@, count as nat));
                    assert forall|v: int| 0 <= v < count implies self.is_point(#[trigger] wit[v]) && index@[wit[v].0] <= i
                        && number@[rs[elem(index@, wit[v])] as int] == Some(v as usize) by {
                        if v < c1 {
                            assert(num1[rs[elem(index@, wit1[v])] as int] == Some(v as usize));
                        }
                    }
                }
            }
            proof {
                assert forall|p: Point| #[trigger] self.is_point(p) && index@[p.0] < i + 1 implies
                    number@[rs[elem(index@, p)] as int] == Some(node_in(node_of@, across@, p)) by {
                    assert(index@.contains_key(p.0));
                    if index@[p.0] < i {
                        assert(p.0 != at);
                        assert(num0[rs[elem(index@, p)] as int] == Some(node_in(no0, ac0, p)));
                    }
                }
            }
            i = i + 1;
        }
        let nodes = if count == 0 { 1 } else { count };
        proof {
            assert forall|at: (i32, i32)| #[trigger] node_of@.contains_key(at) <==> self.wire_like(at) by {
                if index@.contains_key(at) {
                    assert(index@[at] < ks@.len());
                }
            }
            assert forall|at: (i32, i32)| #[trigger] across@.contains_key(at) <==> self.wire_like(at) && spec_crossing(self.mask_at(at)) by {
                if index@.contains_key(at) {
                    assert(index@[at] < ks@.len());
                }
            }
            assert forall|p: Point| #[trigger] self.is_point(p) implies number@[rs[elem(index@, p)] as int] == Some(node_in(node_of@, across@, p))
                && 0 <= elem(index@, p) < n2 && rs[elem(index@, p)] < n2 by {
                assert(index@.contains_key(p.0));
                assert(index@[p.0] < ks@.len());
            }
            assert forall|p: Point| #[trigger] self.is_point(p) implies node_in(node_of@, across@, p) < nodes by {
                assert(number@[rs[elem(index@, p)] as int] is Some);
            }
            assert forall|p: Point, q: Point| #![trigger self.is_point(p), self.is_point(q)] self.is_point(p) && self.is_point(q) implies
                (node_in(node_of@, across@, p) == node_in(node_of@, across@, q) <==> rs[elem(index@, p)] == rs[elem(index@, q)]) by {
                let rp = rs[elem(index@, p)] as int;
                let rq = rs[elem(index@, q)] as int;
                assert(number@[rp] == Some(node_in(node_of@, across@, p)));
                assert(number@[rq] == Some(node_in(node_of@, across@, q)));
            }
            if exists|p: Point| self.is_point(p) {
                let p = choose|p: Point| self.is_point(p);
                assert(number@[rs[elem(index@, p)] as int] is Some);
                assert(count > 0);
                assert forall|v: usize| v < nodes implies #[trigger] self.reaches(node_of@, across@, v) by {
                    let w = wit[v as int];
                    assert(self.is_point(w));
                    assert(number@[rs[elem(index@, w)] as int] == Some(node_in(node_of@, across@, w)));
                }
            } else {
                if count > 0 {
                    assert(self.is_point(wit[0]));
                }
            }
        }
        (nodes, node_of, across)
    }
}

/// The nodes of the cells in `pins`.
fn nodes_of_pins(pins: &Vec<(i32, i32)>, node_of: &BTreeMap<(i32, i32), usize>) -> (r: Vec<usize>)
    requires
        forall|k: int| 0 <= k < pins@.len() ==> node_of@.contains_key(#[trigger] pins@[k]),
    ensures
        r@ == pins@.map_values(|c: (i32, i32)| node_of@[c]),
{
    let mut r: Vec<usize> = Vec::new();
    let mut k: usize = 0;
    while k < pins.len()
        invariant
            k <= pins@.len(),
            forall|j: int| 0 <= j < pins@.len() ==> node_of@.contains_key(#[trigger] pins@[j]),
            r@ == pins@.take(k as int).map_values(|c: (i32, i32)| node_of@[c]),
        decreases pins@.len() - k,
    {
        let n = *node_of.get(&pins[k]).unwrap();
        r.push(n);
        proof {
            assert(pins@.take(k + 1).map_values(|c: (i32, i32)| node_of@[c]) =~= pins@.take(k as int).map_values(|c: (i32, i32)| node_of@[c]).push(n));
        }
        k = k + 1;
    }
    proof {
        assert(pins@.take(pins@.len() as int) =~= pins@);
    }
    r
}

impl Board {
    /// The parts on the board as devices: which part each device is, and
    /// back; the nodes of each device's pins; the first battery and the
    /// node of its − pin.
    fn devices(&self, node_of: &BTreeMap<(i32, i32), usize>) -> (r: (Vec<usize>, Vec<Option<usize>>, Vec<Vec<usize>>, Option<usize>, usize))
        requires
            self.wf(),
            forall|at: (i32, i32)| #[trigger] self.wire_like(at) ==> node_of@.contains_key(at),
        ensures
            self.lists_parts(r.0@, r.1@),
            r.2@.len() == r.0@.len(),
            forall|d: int| 0 <= d < r.0@.len() ==> (#[trigger] r.2@[d])@ == self.pin_nodes(node_of@, r.0@[d] as int),
            match r.3 {
                Some(i) => self.first_battery(i as int) && r.4 == node_of@[pin_cells(self.part_ref(i as int))[1]],
                None => self.no_battery() && r.4 == 0,
            },
    {
        let mut dev_part: Vec<usize> = Vec::new();
        let mut part_dev: Vec<Option<usize>> = Vec::new();
        let mut dev_pins: Vec<Vec<usize>> = Vec::new();
        let mut battery: Option<usize> = None;
        let mut ground: usize = 0;
        let mut i: usize = 0;
        while i < self.parts.len()
            invariant
                self.wf(),
                forall|at: (i32, i32)| #[trigger] self.wire_like(at) ==> node_of@.contains_key(at),
                i <= self.parts@.len(),
                part_dev@.len() == i,
                dev_pins@.len() == dev_part@.len(),
                forall|d: int| 0 <= d < dev_part@.len() ==> self.is_part(#[trigger] dev_part@[d] as int) && dev_part@[d] < i,
                forall|d1: int, d2: int| 0 <= d1 < d2 < dev_part@.len() ==> #[trigger] dev_part@[d1] < #[trigger] dev_part@[d2],
                forall|j: int| 0 <= j < i ==> ((#[trigger] part_dev@[j]) is Some <==> self.is_part(j)),
                forall|j: int| 0 <= j < i && (#[trigger] part_dev@[j]) is Some ==>
                    part_dev@[j].unwrap() < dev_part@.len() && dev_part@[part_dev@[j].unwrap() as int] == j,
                forall|d: int| 0 <= d < dev_part@.len() ==> (#[trigger] dev_pins@[d])@ == self.pin_nodes(node_of@, dev_part@[d] as int),
                match battery {
                    Some(b) => self.first_battery(b as int) && b < i && ground == node_of@[pin_cells(self.part_ref(b as int))[1]],
                    None => forall|j: int| 0 <= j < i ==> !(#[trigger] self.is_part(j) && self.part_ref(j).kind == Kind::Battery),
                },
                battery is None ==> ground == 0,
            decreases self.parts@.len() - i,
        {
            match self.part(i) {
                Some(p) => {
                    proof {
                        assert(self.is_part(i as int));
                        assert(self.placed(i as int));
                        lemma_pins_shape(*p);
                        assert forall|k: int| 0 <= k < pin_cells(*p).len() implies node_of@.contains_key(#[trigger] pin_cells(*p)[k]) by {
                            assert(self.holds(pin_cells(*p)[k]));
                            assert(self.wire_like(pin_cells(*p)[k]));
                        }
                    }
                    let pins = p.pins();
                    let nodes = nodes_of_pins(&pins, node_of);
                    if battery.is_none() && p.kind == Kind::Battery {
                        battery = Some(i);
                        ground = nodes[1];
                    }
                    part_dev.push(Some(dev_part.len()));
                    dev_part.push(i);
                    dev_pins.push(nodes);
                },
                None => {
                    part_dev.push(None);
                },
            }
            i = i + 1;
        }
        proof {
            if battery is None {
                assert forall|j: int| #[trigger] self.is_part(j) implies self.part_ref(j).kind != Kind::Battery by {
                    assert(!(self.is_part(j) && self.part_ref(j).kind == Kind::Battery));
                }
            }
        }
        (dev_part, part_dev, dev_pins, battery, ground)
    }
}

/// The point that element `x` of the forest stands for.
spec fn point_of(ks: Seq<(i32, i32)>, x: int) -> Point {
    (ks[x / 2], x % 2 == 1)
}

/// The element of a point stands for that point.
proof fn lemma_point_of_elem(b: Board, ks: Seq<(i32, i32)>, ms: Seq<u8>, index: Map<(i32, i32), usize>, p: Point)
    requires
        indexed(b, ks, ms, index),
        b.wire_like(p.0),
    ensures
        point_of(ks, elem(index, p)) == p,
        0 <= elem(index, p) < 2 * ks.len(),
{
    assert(index.contains_key(p.0));
    let i = index[p.0] as int;
    let x = elem(index, p);
    assert(x / 2 == i && (x % 2 == 1) == p.1) by (nonlinear_arith)
        requires x == 2 * i + if p.1 { 1int } else { 0int }, i >= 0;
}

impl Board {
    /// No wire or pin joins east off the last column or south off the last
    /// row that an `i32` can number.
    pub fn steps_fit_grid(&self) -> (r: bool)
        ensures
            r == self.steps_fit(),
    {
        let (ks, ms) = self.wire_cells();
        let mut k: usize = 0;
        while k < ks.len()
            invariant
                ks@.len() == ms@.len(),
                forall|at: (i32, i32)| #[trigger] ks@.contains(at) <==> self.wire_like(at),
                forall|i: int| 0 <= i < ks@.len() ==> #[trigger] ms@[i] == self.mask_at(ks@[i]),
                k <= ks@.len(),
                forall|j: int| 0 <= j < k ==> {
                    &&& joins(self.mask_at(#[trigger] ks@[j]), E) ==> ks@[j].0 < i32::MAX
                    &&& joins(self.mask_at(ks@[j]), S) ==> ks@[j].1 < i32::MAX
                },
            decreases ks@.len() - k,
        {
            let at = ks[k];
            let m = ms[k];
            if (m & E != 0 && at.0 == i32::MAX) || (m & S != 0 && at.1 == i32::MAX) {
                proof {
                    assert(ks@.contains(ks@[k as int]));
                    assert(self.wire_like(at));
                }
                return false;
            }
            k = k + 1;
        }
        proof {
            assert forall|at: (i32, i32)| #[trigger] self.wire_like(at) implies {
                &&& joins(self.mask_at(at), E) ==> at.0 < i32::MAX
                &&& joins(self.mask_at(at), S) ==> at.1 < i32::MAX
            } by {
                assert(ks@.contains(at));
                let j = choose|j: int| 0 <= j < ks@.len() && ks@[j] == at;
            }
        }
        true
    }

    /// The circuit this board makes. Joined wires and pins share a node,
    /// and points share a node only when wires and pins join them; the
    /// first battery's − side is ground.
    pub fn net(&self) -> (net: Net)
        requires
            self.wf(),
            self.steps_fit(),
            2 * self.cells@.len() <= usize::MAX,
        ensures
            forall|at: (i32, i32)| #[trigger] net.node_of@.contains_key(at) <==> self.wire_like(at),
            forall|at: (i32, i32)| #[trigger] net.across@.contains_key(at) <==> self.wire_like(at) && spec_crossing(self.mask_at(at)),
            net.nodes >= 1,
            forall|p: Point| #[trigger] self.is_point(p) ==> net.node(p) < net.nodes,
            forall|v: usize| v < net.nodes && (exists|p: Point| self.is_point(p)) ==> #[trigger] self.reaches(net.node_of@, net.across@, v),
            !(exists|p: Point| self.is_point(p)) ==> net.nodes == 1,
            forall|at: (i32, i32), d: u8| #[trigger] self.link(at, d) ==> net.node(self.side_point(at, d)) == net.node(self.side_point(step(at, d), spec_opposite(d))),
            forall|p: Point, q: Point| #![trigger self.is_point(p), self.is_point(q)] self.is_point(p) && self.is_point(q) ==>
                (net.node(p) == net.node(q) <==> self.connected(p, q)),
            self.lists_parts(net.dev_part@, net.part_dev@),
            net.dev_pins@.len() == net.dev_part@.len(),
            forall|d: int| 0 <= d < net.dev_part@.len() ==> (#[trigger] net.dev_pins@[d])@ == self.pin_nodes(net.node_of@, net.dev_part@[d] as int),
            match net.battery {
                Some(i) => self.first_battery(i as int) && net.ground == net.node_of@[pin_cells(self.part_ref(i as int))[1]],
                None => self.no_battery() && net.ground == 0,
            },
    {
        let (ks, ms) = self.wire_cells();
        let index = index_of_cells(&ks);
        proof {
            assert(indexed(*self, ks@, ms@, index@));
        }
        let mut f = self.join_links(&ks, &ms, &index);
        let ghost rs = f.roots();
        let (nodes, node_of, across) = self.number_nodes(&ks, &ms, &index, &mut f);
        let (dev_part, part_dev, dev_pins, battery, ground) = self.devices(&node_of);
        let net = Net { nodes, ground, battery, dev_part, part_dev, dev_pins, node_of, across };
        proof {
            assert forall|at: (i32, i32), d: u8| #[trigger] self.link(at, d) implies net.node(self.side_point(at, d)) == net.node(self.side_point(step(at, d), spec_opposite(d))) by {
                assert(self.is_point(self.side_point(at, d)));
                assert(self.is_point(self.side_point(step(at, d), spec_opposite(d))));
            }
            assert forall|p: Point, q: Point| #![trigger self.is_point(p), self.is_point(q)] self.is_point(p) && self.is_point(q) implies
                (net.node(p) == net.node(q) <==> self.connected(p, q)) by {
                if net.node(p) == net.node(q) {
                    assert(rs[elem(index@, p)] == rs[elem(index@, q)]);
                    assert forall|lab: spec_fn(Point) -> int| #[trigger] self.respects(lab) implies lab(p) == lab(q) by {
                        let labe = |x: nat| lab(point_of(ks@, x as int));
                        assert forall|at: (i32, i32), d: u8| #[trigger] self.link(at, d) implies
                            labe(elem(index@, self.side_point(at, d)) as nat) == labe(elem(index@, self.side_point(step(at, d), spec_opposite(d))) as nat) by {
                            lemma_point_of_elem(*self, ks@, ms@, index@, self.side_point(at, d));
                            lemma_point_of_elem(*self, ks@, ms@, index@, self.side_point(step(at, d), spec_opposite(d)));
                        }
                        assert(respects_elems(*self, index@, labe));
                        lemma_point_of_elem(*self, ks@, ms@, index@, p);
                        lemma_point_of_elem(*self, ks@, ms@, index@, q);
                        assert(agrees(labe, rs, elem(index@, p)));
                        assert(agrees(labe, rs, elem(index@, q)));
                    }
                }
                if self.connected(p, q) {
                    let lab0 = |x: Point| net.node(x) as int;
                    assert forall|at: (i32, i32), d: u8| #[trigger] self.link(at, d) implies lab0(self.side_point(at, d)) == lab0(self.side_point(step(at, d), spec_opposite(d))) by {
                        assert(self.is_point(self.side_point(at, d)));
                        assert(self.is_point(self.side_point(step(at, d), spec_opposite(d))));
                    }
                    assert(self.respects(lab0));
                }
            }
        }
        net
    }
}

/// A wire laid from `at` across side `dir` joins the two cells: each
/// points at the other, so they are linked and share a node.
pub proof fn lemma_wire_links(a: Board, b: Board, at: (i32, i32), dir: u8)
    requires
        is_side(dir),
        can_step(at, dir),
        a.open_at(at, dir),
        a.open_at(step(at, dir), spec_opposite(dir)),
        b.cells@ == a.cells@.insert(swap(at), joined(a.cells@, at, dir)).insert(
            swap(step(at, dir)),
            joined(a.cells@, step(at, dir), spec_opposite(dir)),
        ),
    ensures
        dir == E || dir == S ==> b.link(at, dir),
        dir == W || dir == N ==> b.link(step(at, dir), spec_opposite(dir)),
{
    let to = step(at, dir);
    let od = spec_opposite(dir);
    assert(swap(at) != swap(to));
    lemma_side_bits(a.mask_at(at), dir);
    lemma_side_bits(a.mask_at(to), od);
    assert(is_side(od));
    assert(b.wire_like(at) && joins(b.mask_at(at), dir)) by {
        if a.holds(at) {
            assert(!(a.cell_at(at) is Body));
            lemma_side_bits(mask_in(a.cells@, at), dir);
        } else {
            assert(joins(dir, dir)) by {
                lemma_side_bits(0, dir);
                assert(0u8 | dir == dir) by (bit_vector);
            }
        }
    }
    assert(b.wire_like(to) && joins(b.mask_at(to), od)) by {
        if a.holds(to) {
            assert(!(a.cell_at(to) is Body));
            lemma_side_bits(mask_in(a.cells@, to), od);
        } else {
            assert(joins(od, od)) by {
                lemma_side_bits(0, od);
                assert(0u8 | od == od) by (bit_vector);
            }
        }
    }
    if dir == W || dir == N {
        assert(can_step(to, od));
        assert(step(to, od) == at);
    }
}

} // verus!

//! Which cells carry power: those joined to the center of the board by a
//! chain of mutual connections.
use crate::cell::CellOrientation;
use crate::grid::{flat, lemma_flat_bounds, lemma_flat_injective, Game};
use vstd::prelude::*;

verus! {

/// The cell at `(x, y)` and its neighbor toward `d` connect to each other.
pub open spec fn joined(g: &Game, x: int, y: int, d: CellOrientation) -> bool {
    &&& g.in_bounds(x, y)
    &&& g.cell(x, y).connects_to(d)
    &&& match g.neighbor(x, y, d) {
        Some(nb) => nb.connects_to(d.reversed()),
        None => false,
    }
}

pub open spec fn next(p: (usize, usize), d: CellOrientation) -> (usize, usize) {
    ((p.0 + d.dx()) as usize, (p.1 + d.dy()) as usize)
}

/// The number of `false` entries of a sequence.
pub open spec fn count_false(s: Seq<bool>) -> nat
    decreases s.len(),
{
    if s.len() == 0 {
        0
    } else {
        count_false(s.drop_last()) + if s.last() {
            0nat
        } else {
            1nat
        }
    }
}

proof fn lemma_count_false_set(s: Seq<bool>, i: int)
    requires
        0 <= i < s.len(),
        !s[i],
    ensures
        count_false(s.update(i, true)) + 1 == count_false(s),
    decreases s.len(),
{
    let t = s.update(i, true);
    if i < s.len() - 1 {
        assert(t.drop_last() == s.drop_last().update(i, true));
        lemma_count_false_set(s.drop_last(), i);
    } else {
        assert(t.drop_last() == s.drop_last());
    }
}

/// The position at `k` is joined, toward `d`, to the one at `j`, listed
/// before it.
pub open spec fn link(g: &Game, r: Seq<(usize, usize)>, k: int, j: int, d: CellOrientation) -> bool {
    &&& 0 <= j < k
    &&& joined(g, r[j].0 as int, r[j].1 as int, d)
    &&& r[k] == next(r[j], d)
}

/// The position at `k` is joined to one listed before it.
pub open spec fn linked_back(g: &Game, r: Seq<(usize, usize)>, k: int) -> bool {
    exists|j: int, d: CellOrientation| #[trigger] link(g, r, k, j, d)
}

/// Each position after the first is joined to one listed before it.
pub open spec fn chained(g: &Game, r: Seq<(usize, usize)>) -> bool {
    forall|k: int| 0 < k < r.len() ==> #[trigger] linked_back(g, r, k)
}

proof fn lemma_contains_push(s: Seq<(usize, usize)>, q: (usize, usize), p: (usize, usize))
    ensures
        s.push(q).contains(p) <==> s.contains(p) || p == q,
{
    if s.contains(p) {
        let k = choose|k: int| 0 <= k < s.len() && s[k] == p;
        assert(s.push(q)[k] == p);
    }
    if p == q {
        assert(s.push(q)[s.len() as int] == q);
    }
    if s.push(q).contains(p) {
        let k = choose|k: int| 0 <= k < s.push(q).len() && s.push(q)[k] == p;
        if k < s.len() {
            assert(s[k] == p);
        }
    }
}

/// A list either unchanged or grown by one keeps what it held.
proof fn lemma_contains_push_any(s: Seq<(usize, usize)>, t: Seq<(usize, usize)>, p: (usize, usize))
    requires
        s.contains(p),
        t == s || t == s.push(t.last()),
    ensures
        t.contains(p),
{
    if t != s {
        lemma_contains_push(s, t.last(), p);
    }
}

/// Appending a position joined to an earlier one keeps the list chained.
proof fn lemma_push_keeps(g: &Game, s: Seq<(usize, usize)>, q: (usize, usize), j: int, d: CellOrientation)
    requires
        chained(g, s),
        0 <= j < s.len(),
        joined(g, s[j].0 as int, s[j].1 as int, d),
        q == next(s[j], d),
    ensures
        chained(g, s.push(q)),
{
    let t = s.push(q);
    assert forall|k: int| 0 < k < t.len() implies #[trigger] linked_back(g, t, k) by {
        if k < s.len() {
            assert(t[k] == s[k]);
            assert(linked_back(g, s, k));
            let (i, e) = choose|i: int, e: CellOrientation| #[trigger] link(g, s, k, i, e);
            assert(t[i] == s[i]);
            assert(link(g, t, k, i, e));
        } else {
            assert(t[j] == s[j]);
            assert(link(g, t, k, j, d));
        }
    }

}

/// The bookkeeping of the search over board `g`: `order` lists distinct
/// positions on the board, chained from the first, and `visited` marks
/// exactly the listed ones.
pub open spec fn searched(g: &Game, visited: Seq<bool>, order: Seq<(usize, usize)>) -> bool {
    &&& visited.len() == g.width * g.height
    &&& order.no_duplicates()
    &&& forall|k: int|
        0 <= k < order.len() ==> g.in_bounds((#[trigger] order[k]).0 as int, order[k].1 as int)
    &&& forall|x: int, y: int|
        g.in_bounds(x, y) ==> (#[trigger] visited[flat(g.width as int, x, y)] <==> order.contains(
            (x as usize, y as usize),
        ))
    &&& chained(g, order)
}

/// Visiting a position joined to a listed one keeps the bookkeeping, and
/// leaves one unvisited position fewer.
proof fn lemma_visit(
    g: &Game,
    visited: Seq<bool>,
    order: Seq<(usize, usize)>,
    q: (usize, usize),
    j: int,
    d: CellOrientation,
)
    requires
        g.wf(),
        searched(g, visited, order),
        0 <= j < order.len(),
        joined(g, order[j].0 as int, order[j].1 as int, d),
        q == next(order[j], d),
        g.in_bounds(q.0 as int, q.1 as int),
        !visited[flat(g.width as int, q.0 as int, q.1 as int)],
    ensures
        searched(
            g,
            visited.update(flat(g.width as int, q.0 as int, q.1 as int), true),
            order.push(q),
        ),
        count_false(visited.update(flat(g.width as int, q.0 as int, q.1 as int), true)) + 1
            == count_false(visited),
{
    let w = g.width as int;
    let h = g.height as int;
    let idx = flat(w, q.0 as int, q.1 as int);
    lemma_flat_bounds(w, h, q.0 as int, q.1 as int);
    let v2 = visited.update(idx, true);
    let o2 = order.push(q);
    lemma_count_false_set(visited, idx);
    lemma_push_keeps(g, order, q, j, d);
    assert(!order.contains(q));
    assert forall|x: int, y: int| g.in_bounds(x, y) implies (#[trigger] v2[flat(w, x, y)]
        <==> o2.contains((x as usize, y as usize))) by {
        lemma_flat_bounds(w, h, x, y);
        lemma_contains_push(order, q, (x as usize, y as usize));
        if flat(w, x, y) == idx {
            lemma_flat_injective(w, x, y, q.0 as int, q.1 as int);
        }
    }
    assert forall|a: int, b: int|
        0 <= a < o2.len() && 0 <= b < o2.len() && a != b implies #[trigger] o2[a]
        != #[trigger] o2[b] by {
        if a < order.len() && b < order.len() {
            assert(o2[a] == order[a]);
            assert(o2[b] == order[b]);
        } else if a < order.len() {
            assert(order.contains(o2[a]));
        } else if b < order.len() {
            assert(order.contains(o2[b]));
        }
    }
    assert forall|k: int| 0 <= k < o2.len() implies g.in_bounds(
        (#[trigger] o2[k]).0 as int,
        o2[k].1 as int,
    ) by {
        if k < order.len() {
            assert(o2[k] == order[k]);
        }
    }
}

/// Visiting the first position starts the bookkeeping.
proof fn lemma_visit_first(g: &Game, visited: Seq<bool>, q: (usize, usize))
    requires
        g.wf(),
        visited.len() == g.width * g.height,
        forall|k: int| 0 <= k < visited.len() ==> !(#[trigger] visited[k]),
        g.in_bounds(q.0 as int, q.1 as int),
    ensures
        searched(g, visited.update(flat(g.width as int, q.0 as int, q.1 as int), true), seq![q]),
        count_false(visited.update(flat(g.width as int, q.0 as int, q.1 as int), true)) + 1
            == count_false(visited),
{
    let w = g.width as int;
    let h = g.height as int;
    let idx = flat(w, q.0 as int, q.1 as int);
    lemma_flat_bounds(w, h, q.0 as int, q.1 as int);
    let v2 = visited.update(idx, true);
    lemma_count_false_set(visited, idx);
    assert(seq![q] == Seq::<(usize, usize)>::empty().push(q));
    assert forall|x: int, y: int| g.in_bounds(x, y) implies (#[trigger] v2[flat(w, x, y)]
        <==> seq![q].contains((x as usize, y as usize))) by {
        lemma_flat_bounds(w, h, x, y);
        lemma_contains_push(Seq::empty(), q, (x as usize, y as usize));
        if flat(w, x, y) == idx {
            lemma_flat_injective(w, x, y, q.0 as int, q.1 as int);
        }
    }
    assert forall|k: int| 0 <= k < seq![q].len() implies g.in_bounds(
        (#[trigger] seq![q][k]).0 as int,
        seq![q][k].1 as int,
    ) by {}
}

impl Game {
    /// The cells reachable from the center of the board through mutual
    /// connections, the center first, each listed once: every one after the
    /// first is joined to one listed earlier, and every cell joined to a
    /// listed one is listed.
    pub fn powered_cells(&self) -> (r: Vec<(usize, usize)>)
        requires
            self.wf(),
            self.width >= 1,
            self.height >= 1,
        ensures
            r@.len() > 0,
            r@[0] == (self.width / 2, self.height / 2),
            r@.no_duplicates(),
            forall|k: int|
                0 <= k < r@.len() ==> self.in_bounds((#[trigger] r@[k]).0 as int, r@[k].1 as int),
            chained(self, r@),
            forall|k: int, d: CellOrientation|
                0 <= k < r@.len() && #[trigger] joined(self, r@[k].0 as int, r@[k].1 as int, d)
                    ==> r@.contains(next(r@[k], d)),
    {
        let w = self.width;
        let h = self.height;
        let n: usize = self.grid.len();
        let mut visited: Vec<bool> = Vec::new();
        let mut i: usize = 0;
        while i < n
            invariant
                i <= n,
                visited@.len() == i,
                forall|k: int| 0 <= k < i ==> !(#[trigger] visited@[k]),
            decreases n - i,
        {
            visited.push(false);
            i = i + 1;
        }
        let source = (w / 2, h / 2);
        proof {
            lemma_flat_bounds(w as int, h as int, source.0 as int, source.1 as int);
            lemma_visit_first(self, visited@, source);
        }
        visited.set(source.0 + w * source.1, true);
        let mut order: Vec<(usize, usize)> = Vec::new();
        order.push(source);
        let mut head: usize = 0;
        while head < order.len()
            invariant
                self.wf(),
                w == self.width,
                h == self.height,
                n == w * h,
                head <= order@.len(),
                order@.len() > 0,
                order@[0] == source,
                source == (w / 2, h / 2),
                searched(self, visited@, order@),
                forall|k: int, d: CellOrientation|
                    0 <= k < head && #[trigger] joined(
                        self,
                        order@[k].0 as int,
                        order@[k].1 as int,
                        d,
                    ) ==> order@.contains(next(order@[k], d)),
            decreases 2 * count_false(visited@) + order@.len() - head,
        {
            let p = order[head];
            let ghost cf0 = count_false(visited@);
            let ghost len0 = order@.len();
            let mut i: usize = 0;
            while i < 4
                invariant
                    self.wf(),
                    w == self.width,
                    h == self.height,
                    n == w * h,
                    head < order@.len(),
                    order@[head as int] == p,
                    self.in_bounds(p.0 as int, p.1 as int),
                    2 * count_false(visited@) + order@.len() <= 2 * cf0 + len0,
                    i <= 4,
                    order@.len() > 0,
                    order@[0] == source,
                    searched(self, visited@, order@),
                    forall|k: int, d: CellOrientation|
                        0 <= k < head && #[trigger] joined(
                            self,
                            order@[k].0 as int,
                            order@[k].1 as int,
                            d,
                        ) ==> order@.contains(next(order@[k], d)),
                    forall|j: nat|
                        j < i && joined(
                            self,
                            p.0 as int,
                            p.1 as int,
                            #[trigger] CellOrientation::from_ord(j),
                        ) ==> order@.contains(next(p, CellOrientation::from_ord(j))),
                decreases 4 - i,
            {
                let d = CellOrientation::from_index(i);
                let ghost vis_before = visited@;
                let ghost ord_before = order@;
                let ghost mut reached = !joined(self, p.0 as int, p.1 as int, d);
                let c = self.get_cell(p.0, p.1).unwrap();
                if c.connects_toward(d) {
                    match self.get_neighbor_at_direction(p.0, p.1, d) {
                        Some(nb) => {
                            if nb.connects_toward(d.reverse()) {
                                let q = d.step_from(p.0, p.1).unwrap();
                                proof {
                                    lemma_flat_bounds(w as int, h as int, q.0 as int, q.1 as int);
                                }
                                let idx = q.0 + w * q.1;
                                if !visited[idx] {
                                    proof {
                                        lemma_visit(self, vis_before, ord_before, q, head as int, d);
                                    }
                                    visited.set(idx, true);
                                    order.push(q);
                                    proof {
                                        assert(order@[ord_before.len() as int] == q);
                                        reached = true;
                                    }
                                } else {
                                    proof {
                                        assert(order@.contains(q));
                                        reached = true;
                                    }
                                }
                            }
                        },
                        None => {},
                    }
                }
                proof {
                    assert(reached);
                    assert(reached ==> !joined(self, p.0 as int, p.1 as int, d) || order@.contains(
                        next(p, d),
                    ));
                    assert(order@ == ord_before || order@ == ord_before.push(order@.last()));
                    assert forall|j: nat|
                        j < i + 1 && joined(
                            self,
                            p.0 as int,
                            p.1 as int,
                            #[trigger] CellOrientation::from_ord(j),
                        ) implies order@.contains(next(p, CellOrientation::from_ord(j))) by {
                        if j < i {
                            lemma_contains_push_any(
                                ord_before,
                                order@,
                                next(p, CellOrientation::from_ord(j)),
                            );
                        }
                    }
                    assert forall|k: int, e: CellOrientation|
                        0 <= k < head && #[trigger] joined(
                            self,
                            order@[k].0 as int,
                            order@[k].1 as int,
                            e,
                        ) implies order@.contains(next(order@[k], e)) by {
                        assert(order@[k] == ord_before[k]);
                        lemma_contains_push_any(ord_before, order@, next(order@[k], e));
                    }
                }
                i = i + 1;
            }
            proof {
                assert forall|k: int, d: CellOrientation|
                    0 <= k < head + 1 && #[trigger] joined(
                        self,
                        order@[k].0 as int,
                        order@[k].1 as int,
                        d,
                    ) implies order@.contains(next(order@[k], d)) by {
                    if k == head {
                        assert(d == CellOrientation::from_ord(d.ord()));
                    }
                }
            }
            head = head + 1;
        }
        order
    }
}

} // verus!

//! Generation of a connected board: cells are placed outward from the
//! center, each one drawn among the configurations that agree with its
//! placed neighbors, and regions left out are joined by reopening a
//! neighbor.
use crate::cell::{
    config, lemma_config_for, lemma_connections_contains, lemma_matching_prefix, matching,
    flagged, Cell, CellOrientation, CellVersion, GameError,
};
use crate::grid::{flat, lemma_flat_bounds, lemma_flat_injective, Game};
use crate::random::random_below;
use std::collections::VecDeque;
use vstd::prelude::*;

verus! {

/// The position one step from `(x, y)` toward `d`, as machine integers.
pub open spec fn step(x: int, y: int, d: CellOrientation) -> (usize, usize) {
    ((x + d.dx()) as usize, (y + d.dy()) as usize)
}

/// The neighbor toward `d` is placed and connects back toward `(x, y)`.
pub open spec fn feeds(g: &Game, x: int, y: int, d: CellOrientation) -> bool {
    match g.neighbor(x, y, d) {
        Some(c) => c.locked && c.connects_to(d.reversed()),
        None => false,
    }
}

/// Every placed cell connects only toward cells on the board; toward a
/// placed cell that connects back, or toward an unplaced one that waits in
/// `q`.
#[verifier::opaque]
pub open spec fn linked(g: &Game, q: Seq<(usize, usize)>) -> bool {
    forall|x: int, y: int, d: CellOrientation|
        g.in_bounds(x, y) && g.cell(x, y).locked && #[trigger] g.cell(x, y).connects_to(d) ==> {
            let nx = x + d.dx();
            let ny = y + d.dy();
            &&& g.in_bounds(nx, ny)
            &&& g.cell(nx, ny).locked ==> g.cell(nx, ny).connects_to(d.reversed())
            &&& !g.cell(nx, ny).locked ==> q.contains((nx as usize, ny as usize))
        }
}

/// The waiting positions are distinct, on the board and unplaced.
#[verifier::opaque]
pub open spec fn queue_ok(g: &Game, q: Seq<(usize, usize)>) -> bool {
    &&& q.no_duplicates()
    &&& forall|i: int|
        0 <= i < q.len() ==> g.in_bounds(#[trigger] q[i].0 as int, q[i].1 as int) && !g.cell(
            q[i].0 as int,
            q[i].1 as int,
        ).locked
}

/// The position `p` is fed by exactly one placed neighbor.
#[verifier::opaque]
pub open spec fn fed_at(g: &Game, p: (usize, usize)) -> bool {
    &&& exists|d: CellOrientation| feeds(g, p.0 as int, p.1 as int, d)
    &&& forall|d1: CellOrientation, d2: CellOrientation|
        feeds(g, p.0 as int, p.1 as int, d1) && feeds(g, p.0 as int, p.1 as int, d2) ==> d1 == d2
}

/// Each waiting position is fed by exactly one placed neighbor.
pub open spec fn fed(g: &Game, q: Seq<(usize, usize)>) -> bool {
    forall|i: int| 0 <= i < q.len() ==> fed_at(g, #[trigger] q[i])
}

#[verifier::opaque]
pub open spec fn all_unlocked(g: &Game) -> bool {
    forall|x: int, y: int| g.in_bounds(x, y) ==> !(#[trigger] g.cell(x, y)).locked
}

/// The number of unlocked cells of a sequence.
pub open spec fn count_unlocked(s: Seq<Cell>) -> nat
    decreases s.len(),
{
    if s.len() == 0 {
        0
    } else {
        count_unlocked(s.drop_last()) + if s.last().locked {
            0nat
        } else {
            1nat
        }
    }
}

/// What holds of the board and the frontier between two placements.
pub open spec fn growing(g: &Game, q: Seq<(usize, usize)>) -> bool {
    &&& g.wf()
    &&& g.width * g.height >= 2
    &&& linked(g, q)
    &&& queue_ok(g, q)
    &&& fed(g, q) || (all_unlocked(g) && q.len() == 1)
}

/// What placing the head of the frontier relies on: as between two
/// placements, but with the head not necessarily fed.
pub open spec fn prior(g: &Game, q: Seq<(usize, usize)>) -> bool {
    &&& g.wf()
    &&& g.width * g.height >= 2
    &&& linked(g, q)
    &&& queue_ok(g, q)
    &&& q.len() > 1 ==> fed(g, q)
}

/// A position to repair: `(x, y)` is unplaced and its neighbor toward `d`
/// is placed and has a free side.
pub open spec fn repairable(g: &Game, x: int, y: int, d: CellOrientation) -> bool {
    &&& g.in_bounds(x, y)
    &&& !g.cell(x, y).locked
    &&& match g.neighbor(x, y, d) {
        Some(c) => c.locked && c.version != CellVersion::Triple,
        None => false,
    }
}

proof fn lemma_reverse(d: CellOrientation)
    ensures
        d.reversed().dx() == -d.dx(),
        d.reversed().dy() == -d.dy(),
        d.reversed().reversed() == d,
        d.reversed() != d,
{
}

proof fn lemma_count_update(s: Seq<Cell>, i: int, c: Cell)
    requires
        0 <= i < s.len(),
    ensures
        count_unlocked(s.update(i, c)) + (if s[i].locked {
            0int
        } else {
            1int
        }) == count_unlocked(s) + (if c.locked {
            0int
        } else {
            1int
        }),
    decreases s.len(),
{
    let t = s.update(i, c);
    if i < s.len() - 1 {
        assert(t.drop_last() == s.drop_last().update(i, c));
        lemma_count_update(s.drop_last(), i, c);
    } else {
        assert(t.drop_last() == s.drop_last());
    }
}

/// After one cell of a board is replaced, the others are where they were.
proof fn lemma_replaced(g: &Game, g2: &Game, cx: int, cy: int, c: Cell)
    requires
        g.wf(),
        g.in_bounds(cx, cy),
        g.replaced(g2, cx, cy, c),
    ensures
        g2.wf(),
        g2.cell(cx, cy) == c,
        forall|x: int, y: int|
            g.in_bounds(x, y) && !(x == cx && y == cy) ==> #[trigger] g2.cell(x, y) == g.cell(
                x,
                y,
            ),
        count_unlocked(g2.cells_view()) + (if g.cell(cx, cy).locked {
            0int
        } else {
            1int
        }) == count_unlocked(g.cells_view()) + (if c.locked {
            0int
        } else {
            1int
        }),
{
    let w = g.width as int;
    lemma_flat_bounds(w, g.height as int, cx, cy);
    assert forall|x: int, y: int|
        g.in_bounds(x, y) && !(x == cx && y == cy) implies #[trigger] g2.cell(x, y) == g.cell(
        x,
        y,
    ) by {
        lemma_flat_bounds(w, g.height as int, x, y);
        if flat(w, x, y) == flat(w, cx, cy) {
            lemma_flat_injective(w, x, y, cx, cy);
        }
    }
    lemma_count_update(g.cells_view(), flat(w, cx, cy), c);
}

proof fn lemma_satisfies_concat(c: Cell, a: Seq<(CellOrientation, bool)>, b: Seq<(CellOrientation, bool)>)
    ensures
        c.satisfies(a + b) <==> c.satisfies(a) && c.satisfies(b),
{
    if c.satisfies(a + b) {
        assert forall|i: int| 0 <= i < a.len() implies c.meets(#[trigger] a[i]) by {
            assert((a + b)[i] == a[i]);
        }
        assert forall|i: int| 0 <= i < b.len() implies c.meets(#[trigger] b[i]) by {
            assert((a + b)[a.len() + i] == b[i]);
        }
    }
    if c.satisfies(a) && c.satisfies(b) {
        assert forall|i: int| 0 <= i < (a + b).len() implies c.meets(#[trigger] (a + b)[i]) by {
            if i < a.len() {
                assert((a + b)[i] == a[i]);
            } else {
                assert((a + b)[i] == b[i - a.len()]);
            }
        }
    }
}

/// One hard constraint: it asks for a connection exactly where a placed
/// neighbor connects back, and stands for a wall or a placed neighbor.
#[verifier::opaque]
pub open spec fn hard_entry(g: &Game, x: int, y: int, e: (CellOrientation, bool)) -> bool {
    &&& e.1 == feeds(g, x, y, e.0)
    &&& g.neighbor(x, y, e.0) matches Some(nb) ==> nb.locked
}

/// The cell `c` placed at `(x, y)` keeps off the wall toward `d` and
/// agrees with a placed neighbor there.
#[verifier::opaque]
pub open spec fn agrees(g: &Game, x: int, y: int, c: Cell, d: CellOrientation) -> bool {
    match g.neighbor(x, y, d) {
        None => !c.connects_to(d),
        Some(nb) => nb.locked ==> (c.connects_to(d) == nb.connects_to(d.reversed())),
    }
}

proof fn lemma_hard_entry(g: &Game, x: int, y: int, d: CellOrientation, c: Cell)
    ensures
        forall|k: int|
            0 <= k < g.constraint_entry(x, y, d).len() ==> hard_entry(
                g,
                x,
                y,
                #[trigger] g.constraint_entry(x, y, d)[k],
            ),
        c.satisfies(g.constraint_entry(x, y, d)) ==> agrees(g, x, y, c, d),
{
    reveal(hard_entry);
    reveal(agrees);
    let b = g.constraint_entry(x, y, d);
    if b.len() > 0 {
        assert(c.satisfies(b) ==> c.meets(b[0]));
    }
}

/// What the hard constraints say: each entry is a hard constraint as
/// above, and a cell that meets them all keeps off the walls and agrees
/// with every placed neighbor.
proof fn lemma_hard(g: &Game, x: int, y: int, n: nat, c: Cell)
    requires
        n <= 4,
    ensures
        forall|k: int|
            0 <= k < g.constraints_upto(x, y, n).len() ==> hard_entry(
                g,
                x,
                y,
                #[trigger] g.constraints_upto(x, y, n)[k],
            ),
        c.satisfies(g.constraints_upto(x, y, n)) ==> forall|j: nat|
            j < n ==> agrees(g, x, y, c, #[trigger] CellOrientation::from_ord(j)),
    decreases n,
{
    if n > 0 {
        let m = (n - 1) as nat;
        lemma_hard(g, x, y, m, c);
        let d = CellOrientation::from_ord(m);
        let a = g.constraints_upto(x, y, m);
        let b = g.constraint_entry(x, y, d);
        lemma_hard_entry(g, x, y, d, c);
        lemma_satisfies_concat(c, a, b);
        assert forall|k: int| 0 <= k < (a + b).len() implies hard_entry(
            g,
            x,
            y,
            #[trigger] (a + b)[k],
        ) by {
            if k < a.len() {
                assert((a + b)[k] == a[k]);
            } else {
                assert((a + b)[k] == b[k - a.len()]);
            }
        }
    }
}

/// The positions that a cell opens toward: each one unlocked, one step
/// away in a direction the cell connects to, each at most once; and every
/// such position is among them.
#[verifier::spinoff_prover]
proof fn lemma_open_ends(g: &Game, x: int, y: int, n: nat)
    requires
        g.wf(),
        g.in_bounds(x, y),
        n <= g.cell(x, y).connections().len(),
    ensures
        ({
            let r = g.open_ends_upto(x, y, g.cell(x, y).connections(), n);
            &&& r.no_duplicates()
            &&& forall|k: int|
                #![trigger r[k]]
                0 <= k < r.len() ==> exists|j: int|
                    0 <= j < n && {
                        let d = #[trigger] g.cell(x, y).connections()[j];
                        &&& g.neighbor(x, y, d) matches Some(nb) && !nb.locked
                        &&& r[k] == step(x, y, d)
                    }
            &&& forall|j: int|
                0 <= j < n ==> {
                    let d = #[trigger] g.cell(x, y).connections()[j];
                    g.neighbor(x, y, d) matches Some(nb) && !nb.locked ==> r.contains(step(x, y, d))
                }
        }),
    decreases n,
{
    let conns = g.cell(x, y).connections();
    if n > 0 {
        let m = (n - 1) as nat;
        lemma_open_ends(g, x, y, m);
        let a = g.open_ends_upto(x, y, conns, m);
        let b = g.open_end(x, y, conns[m as int]);
        let r = a + b;
        assert(r == g.open_ends_upto(x, y, conns, n));
        crate::cell::lemma_degree(g.cell(x, y));
        assert forall|k: int| #![trigger r[k]] 0 <= k < r.len() implies exists|j: int|
            0 <= j < n && {
                let d = #[trigger] conns[j];
                &&& g.neighbor(x, y, d) matches Some(nb) && !nb.locked
                &&& r[k] == step(x, y, d)
            } by {
            if k < a.len() {
                assert(r[k] == a[k]);
            } else {
                assert(r[k] == b[k - a.len()]);
                assert(conns[m as int] == conns[m as int]);
            }
        }
        assert forall|j: int| 0 <= j < n implies {
            let d = #[trigger] conns[j];
            g.neighbor(x, y, d) matches Some(nb) && !nb.locked ==> r.contains(step(x, y, d))
        } by {
            let d = conns[j];
            if g.neighbor(x, y, d) matches Some(nb) && !nb.locked {
                if j < m {
                    let k = choose|k: int| 0 <= k < a.len() && a[k] == step(x, y, d);
                    assert(r[k] == a[k]);
                } else {
                    assert(r[a.len() as int] == b[0]);
                }
            }
        }
        if b.len() > 0 {
            let p = b[0];
            assert forall|k: int| 0 <= k < a.len() implies a[k] != p by {
                let j = choose|j: int|
                    0 <= j < m && {
                        let d = #[trigger] conns[j];
                        &&& g.neighbor(x, y, d) matches Some(nb) && !nb.locked
                        &&& a[k] == step(x, y, d)
                    };
                assert(conns[j] != conns[m as int]);
            }
            assert forall|i: int, k: int|
                0 <= i < r.len() && 0 <= k < r.len() && i != k implies #[trigger] r[i]
                != #[trigger] r[k] by {
                if i < a.len() && k < a.len() {
                    assert(r[i] == a[i] && r[k] == a[k]);
                } else if i < a.len() {
                    assert(r[i] == a[i] && r[k] == p);
                } else if k < a.len() {
                    assert(r[k] == a[k] && r[i] == p);
                }
            }
        } else {
            assert(r == a);
        }
    }
}

/// A piece other than a Triple that is closed toward `o` is closed toward
/// some other direction too.
proof fn lemma_second_free_side(c: Cell, o: CellOrientation) -> (d: CellOrientation)
    requires
        c.version != CellVersion::Triple,
        !c.connects_to(o),
    ensures
        d != o,
        !c.connects_to(d),
{
    if o != CellOrientation::North && !c.connects_to(CellOrientation::North) {
        CellOrientation::North
    } else if o != CellOrientation::East && !c.connects_to(CellOrientation::East) {
        CellOrientation::East
    } else if o != CellOrientation::South && !c.connects_to(CellOrientation::South) {
        CellOrientation::South
    } else {
        CellOrientation::West
    }
}

/// On a board of two cells or more, every cell has a neighbor.
proof fn lemma_some_neighbor(g: &Game, x: int, y: int) -> (d: CellOrientation)
    requires
        g.width * g.height >= 2,
        g.in_bounds(x, y),
    ensures
        g.in_bounds(x + d.dx(), y + d.dy()),
{
    if g.width >= 2 {
        if x + 1 < g.width {
            CellOrientation::East
        } else {
            CellOrientation::West
        }
    } else {
        assert(g.height >= 2) by (nonlinear_arith)
            requires
                g.width * g.height >= 2,
                g.width < 2,
        ;
        if y + 1 < g.height {
            CellOrientation::North
        } else {
            CellOrientation::South
        }
    }
}

/// Constraints that each ask for exactly the flagged directions are met by
/// some configuration of the pool, when one to three directions are flagged.
proof fn lemma_satisfiable(cs: Seq<(CellOrientation, bool)>, n: bool, e: bool, s: bool, w: bool)
    requires
        n || e || s || w,
        !(n && e && s && w),
        forall|k: int| 0 <= k < cs.len() ==> (#[trigger] cs[k]).1 == flagged(n, e, s, w, cs[k].0),
    ensures
        matching(cs).len() > 0,
{
    let i = lemma_config_for(n, e, s, w);
    assert(config(i).satisfies(cs));
    lemma_matching_prefix(cs, 16);
}

/// A cell that meets the hard constraints of `(x, y)` agrees with every
/// side of it.
proof fn lemma_meets_hard(g: &Game, x: int, y: int, c: Cell)
    requires
        c.satisfies(g.constraints(x, y)),
    ensures
        forall|d: CellOrientation| #[trigger] agrees(g, x, y, c, d),
{
    lemma_hard(g, x, y, 4, c);
    assert(agrees(g, x, y, c, CellOrientation::from_ord(0)));
    assert(agrees(g, x, y, c, CellOrientation::from_ord(1)));
    assert(agrees(g, x, y, c, CellOrientation::from_ord(2)));
    assert(agrees(g, x, y, c, CellOrientation::from_ord(3)));
    assert forall|d: CellOrientation| #[trigger] agrees(g, x, y, c, d) by {
        assert(d == CellOrientation::from_ord(d.ord()));
    }
}

/// Stepping toward `d` and back toward its reverse returns to the start;
/// two different directions lead to different positions.
proof fn lemma_steps(x: int, y: int, d: CellOrientation, e: CellOrientation)
    ensures
        (x + d.dx()) + d.reversed().dx() == x,
        (y + d.dy()) + d.reversed().dy() == y,
        d != e ==> (x + d.dx() != x + e.dx() || y + d.dy() != y + e.dy()),
        !(d.dx() == 0 && d.dy() == 0),
{
    lemma_reverse(d);
}

/// The cell `c` at `(x, y)` connects toward `d`, where an unplaced cell
/// lies.
pub open spec fn opens(g: &Game, x: int, y: int, c: Cell, d: CellOrientation) -> bool {
    &&& c.connects_to(d)
    &&& match g.neighbor(x, y, d) {
        Some(nb) => !nb.locked,
        None => false,
    }
}

/// The cell at `(x, y)`, which waited at the head of the frontier, has
/// been drawn as `c` under its hard constraints and kept closed toward the
/// positions still waiting in `rest`, then locked; `pushes` are the
/// positions it opens toward.
pub open spec fn placed(
    g0: &Game,
    g1: &Game,
    rest: Seq<(usize, usize)>,
    x: usize,
    y: usize,
    c: Cell,
    pushes: Seq<(usize, usize)>,
) -> bool {
    &&& prior(g0, seq![(x, y)] + rest)
    &&& c.satisfies(g0.constraints(x as int, y as int))
    &&& forall|d: CellOrientation|
        (g0.neighbor(x as int, y as int, d) matches Some(nb) && !nb.locked && rest.contains(
            #[trigger] step(x as int, y as int, d),
        )) ==> !c.connects_to(d)
    &&& g0.replaced(g1, x as int, y as int, Cell { locked: true, ..c })
    &&& pushes == g1.open_ends(x as int, y as int)
}

proof fn lemma_placed_basics(
    g0: &Game,
    g1: &Game,
    rest: Seq<(usize, usize)>,
    x: usize,
    y: usize,
    c: Cell,
    pushes: Seq<(usize, usize)>,
)
    requires
        placed(g0, g1, rest, x, y, c, pushes),
    ensures
        g0.in_bounds(x as int, y as int),
        !g0.cell(x as int, y as int).locked,
        !rest.contains((x, y)),
        g1.wf(),
        g1.width == g0.width,
        g1.height == g0.height,
        g1.cell(x as int, y as int) == (Cell { locked: true, ..c }),
        forall|px: int, py: int|
            g0.in_bounds(px, py) && !(px == x && py == y) ==> #[trigger] g1.cell(px, py)
                == g0.cell(px, py),
        count_unlocked(g1.cells_view()) + 1 == count_unlocked(g0.cells_view()),
        forall|d: CellOrientation| #[trigger] agrees(g0, x as int, y as int, c, d),
        forall|k: int|
            0 <= k < pushes.len() ==> !rest.contains(#[trigger] pushes[k]),
        forall|d: CellOrientation|
            opens(g1, x as int, y as int, c, d) ==> pushes.contains(#[trigger] step(x as int, y as int, d)),
        pushes.no_duplicates(),
{
    reveal(queue_ok);
    let q0 = seq![(x, y)] + rest;
    assert(q0[0] == (x, y));
    assert(g0.in_bounds(q0[0].0 as int, q0[0].1 as int));
    assert forall|k: int| 0 <= k < rest.len() implies rest[k] != (x, y) by {
        assert(q0[k + 1] == rest[k]);
    }
    let c1 = Cell { locked: true, ..c };
    lemma_replaced(g0, g1, x as int, y as int, c1);
    lemma_meets_hard(g0, x as int, y as int, c);
    let conns = c1.connections();
    lemma_open_ends(g1, x as int, y as int, conns.len());
    lemma_connections_contains(c1);
    assert(g1.cell(x as int, y as int).connections() == conns);
    assert(pushes == g1.open_ends_upto(x as int, y as int, conns, conns.len()));
    assert forall|d: CellOrientation|
        opens(g1, x as int, y as int, c, d) implies pushes.contains(#[trigger] step(x as int, y as int, d)) by {
        assert(c1.connects_to(d));
        let j = choose|j: int| 0 <= j < conns.len() && conns[j] == d;
        assert(d == g1.cell(x as int, y as int).connections()[j]);
    }
    assert forall|k: int| 0 <= k < pushes.len() implies !rest.contains(#[trigger] pushes[k]) by {
        let d = lemma_push_dir(g0, g1, rest, x, y, c, pushes, k);
        lemma_steps(x as int, y as int, d, d);
        let nx = x + d.dx();
        let ny = y + d.dy();
        assert(g1.cell(nx, ny) == g0.cell(nx, ny));
    }
}

/// Each position that a placed cell opens toward lies one step away in a
/// direction it connects to, toward an unplaced cell.
proof fn lemma_push_dir(
    g0: &Game,
    g1: &Game,
    rest: Seq<(usize, usize)>,
    x: usize,
    y: usize,
    c: Cell,
    pushes: Seq<(usize, usize)>,
    k: int,
) -> (d: CellOrientation)
    requires
        g0.wf(),
        g0.in_bounds(x as int, y as int),
        g0.replaced(g1, x as int, y as int, Cell { locked: true, ..c }),
        pushes == g1.open_ends(x as int, y as int),
        0 <= k < pushes.len(),
    ensures
        opens(g1, x as int, y as int, c, d),
        pushes[k] == step(x as int, y as int, d),
{
    let c1 = Cell { locked: true, ..c };
    lemma_replaced(g0, g1, x as int, y as int, c1);
    let conns = c1.connections();
    lemma_open_ends(g1, x as int, y as int, conns.len());
    lemma_connections_contains(c1);
    let j = choose|j: int|
        0 <= j < conns.len() && {
            let d = #[trigger] g1.cell(x as int, y as int).connections()[j];
            &&& g1.neighbor(x as int, y as int, d) matches Some(nb) && !nb.locked
            &&& pushes[k] == step(x as int, y as int, d)
        };
    let d = conns[j];
    assert(conns.contains(d));
    d
}

proof fn lemma_contains_concat(a: Seq<(usize, usize)>, b: Seq<(usize, usize)>, p: (usize, usize))
    ensures
        (a + b).contains(p) <==> a.contains(p) || b.contains(p),
{
    if a.contains(p) {
        let k = choose|k: int| 0 <= k < a.len() && a[k] == p;
        assert((a + b)[k] == p);
    }
    if b.contains(p) {
        let k = choose|k: int| 0 <= k < b.len() && b[k] == p;
        assert((a + b)[a.len() + k] == p);
    }
    if (a + b).contains(p) {
        let k = choose|k: int| 0 <= k < (a + b).len() && (a + b)[k] == p;
        if k < a.len() {
            assert(a[k] == p);
        } else {
            assert(b[k - a.len()] == p);
        }
    }
}

/// A waiting position other than the head stays waiting once the head is
/// taken off.
proof fn lemma_in_rest(x: usize, y: usize, rest: Seq<(usize, usize)>, p: (usize, usize))
    requires
        (seq![(x, y)] + rest).contains(p),
        p != (x, y),
    ensures
        rest.contains(p),
{
    lemma_contains_concat(seq![(x, y)], rest, p);
    if seq![(x, y)].contains(p) {
        let k = choose|k: int| 0 <= k < 1 && seq![(x, y)][k] == p;
    }
}

proof fn lemma_placed_linked(
    g0: &Game,
    g1: &Game,
    rest: Seq<(usize, usize)>,
    x: usize,
    y: usize,
    c: Cell,
    pushes: Seq<(usize, usize)>,
)
    requires
        placed(g0, g1, rest, x, y, c, pushes),
    ensures
        linked(g1, rest + pushes),
{
    lemma_placed_basics(g0, g1, rest, x, y, c, pushes);
    let q0 = seq![(x, y)] + rest;
    let q1 = rest + pushes;
    assert(linked(g0, q0));
    reveal(linked);
    let xi = x as int;
    let yi = y as int;
    assert forall|px: int, py: int, d: CellOrientation|
        g1.in_bounds(px, py) && g1.cell(px, py).locked && #[trigger] g1.cell(px, py).connects_to(
            d,
        ) implies {
        let nx = px + d.dx();
        let ny = py + d.dy();
        &&& g1.in_bounds(nx, ny)
        &&& g1.cell(nx, ny).locked ==> g1.cell(nx, ny).connects_to(d.reversed())
        &&& !g1.cell(nx, ny).locked ==> q1.contains((nx as usize, ny as usize))
    } by {
        lemma_steps(px, py, d, d);
        lemma_reverse(d);
        let nx = px + d.dx();
        let ny = py + d.dy();
        if px == xi && py == yi {
            assert(agrees(g0, xi, yi, c, d));
            reveal(agrees);
            assert(c.connects_to(d));
            assert(g0.in_bounds(nx, ny));
            assert(g1.cell(nx, ny) == g0.cell(nx, ny));
            if !g0.cell(nx, ny).locked {
                assert(opens(g1, xi, yi, c, d));
                assert(pushes.contains(step(xi, yi, d)));
                lemma_contains_concat(rest, pushes, step(xi, yi, d));
            }
        } else {
            assert(g1.cell(px, py) == g0.cell(px, py));
            assert(g0.cell(px, py).connects_to(d));
            if nx == xi && ny == yi {
                let r = d.reversed();
                assert(agrees(g0, xi, yi, c, r));
                reveal(agrees);
                assert(xi + r.dx() == px && yi + r.dy() == py);
                assert(c.connects_to(r));
            } else {
                assert(g1.cell(nx, ny) == g0.cell(nx, ny));
                if !g0.cell(nx, ny).locked {
                    lemma_in_rest(x, y, rest, (nx as usize, ny as usize));
                    lemma_contains_concat(rest, pushes, (nx as usize, ny as usize));
                }
            }
        }
    }
}

proof fn lemma_placed_queue_ok(
    g0: &Game,
    g1: &Game,
    rest: Seq<(usize, usize)>,
    x: usize,
    y: usize,
    c: Cell,
    pushes: Seq<(usize, usize)>,
)
    requires
        placed(g0, g1, rest, x, y, c, pushes),
    ensures
        queue_ok(g1, rest + pushes),
{
    lemma_placed_basics(g0, g1, rest, x, y, c, pushes);
    let q0 = seq![(x, y)] + rest;
    let q1 = rest + pushes;
    assert(queue_ok(g0, q0));
    reveal(queue_ok);
    assert forall|i: int| 0 <= i < q1.len() implies g1.in_bounds(#[trigger] q1[i].0 as int, q1[i].1 as int)
        && !g1.cell(q1[i].0 as int, q1[i].1 as int).locked by {
        if i < rest.len() {
            assert(q1[i] == rest[i]);
            assert(q0[i + 1] == rest[i]);
            assert(g0.in_bounds(q0[i + 1].0 as int, q0[i + 1].1 as int));
            assert(rest.contains(rest[i]));
        } else {
            let k = i - rest.len();
            assert(q1[i] == pushes[k]);
            let d = lemma_push_dir(g0, g1, rest, x, y, c, pushes, k);
        }
    }
    assert forall|i: int, j: int|
        0 <= i < q1.len() && 0 <= j < q1.len() && i != j implies #[trigger] q1[i] != #[trigger] q1[j] by {
        if i < rest.len() && j < rest.len() {
            assert(q0[i + 1] == q1[i] && q0[j + 1] == q1[j]);
        } else if i >= rest.len() && j >= rest.len() {
            assert(q1[i] == pushes[i - rest.len()] && q1[j] == pushes[j - rest.len()]);
        } else if i < rest.len() {
            assert(rest.contains(q1[i]));
            assert(q1[j] == pushes[j - rest.len()]);
        } else {
            assert(rest.contains(q1[j]));
            assert(q1[i] == pushes[i - rest.len()]);
        }
    }
}

proof fn lemma_fed_rest(
    g0: &Game,
    g1: &Game,
    rest: Seq<(usize, usize)>,
    x: usize,
    y: usize,
    c: Cell,
    pushes: Seq<(usize, usize)>,
    i: int,
)
    requires
        placed(g0, g1, rest, x, y, c, pushes),
        0 <= i < rest.len(),
    ensures
        fed_at(g1, rest[i]),
{
    lemma_placed_basics(g0, g1, rest, x, y, c, pushes);
    let q0 = seq![(x, y)] + rest;
    let xi = x as int;
    let yi = y as int;
    assert(queue_ok(g0, q0));
    reveal(queue_ok);
    let r = rest[i];
    assert(q0[i + 1] == r);
    assert(rest.contains(r));
    let rx = r.0 as int;
    let ry = r.1 as int;
    assert(g0.in_bounds(q0[i + 1].0 as int, q0[i + 1].1 as int));
    assert(fed(g0, q0));
    assert(fed_at(g0, q0[i + 1]));
    reveal(fed_at);
    assert forall|d: CellOrientation| feeds(g1, rx, ry, d) == feeds(g0, rx, ry, d) by {
        lemma_steps(rx, ry, d, d);
        lemma_reverse(d);
        let nx = rx + d.dx();
        let ny = ry + d.dy();
        if nx == xi && ny == yi {
            let rd = d.reversed();
            assert(xi + rd.dx() == rx && yi + rd.dy() == ry);
            assert(step(xi, yi, rd) == r);
            assert(g0.cell(rx, ry) == g1.cell(rx, ry));
            assert(!c.connects_to(rd));
        } else if g0.in_bounds(nx, ny) {
            assert(g1.cell(nx, ny) == g0.cell(nx, ny));
        }
    }
    let d0 = choose|d: CellOrientation| feeds(g0, rx, ry, d);
    assert(feeds(g1, rx, ry, d0));
}

proof fn lemma_fed_push(
    g0: &Game,
    g1: &Game,
    rest: Seq<(usize, usize)>,
    x: usize,
    y: usize,
    c: Cell,
    pushes: Seq<(usize, usize)>,
    k: int,
)
    requires
        placed(g0, g1, rest, x, y, c, pushes),
        0 <= k < pushes.len(),
    ensures
        fed_at(g1, pushes[k]),
{
    lemma_placed_basics(g0, g1, rest, x, y, c, pushes);
    let q0 = seq![(x, y)] + rest;
    let xi = x as int;
    let yi = y as int;
    assert(linked(g0, q0));
    reveal(linked);
    reveal(fed_at);
    let p = pushes[k];
    let d0 = lemma_push_dir(g0, g1, rest, x, y, c, pushes, k);
    let px = p.0 as int;
    let py = p.1 as int;
    let back = d0.reversed();
    lemma_steps(xi, yi, d0, d0);
    lemma_reverse(d0);
    assert(px + back.dx() == xi && py + back.dy() == yi);
    assert(feeds(g1, px, py, back));
    assert(!rest.contains(p));
    assert forall|d1: CellOrientation| feeds(g1, px, py, d1) implies d1 == back by {
        if d1 != back {
            lemma_steps(px, py, d1, back);
            lemma_reverse(d1);
            let nx = px + d1.dx();
            let ny = py + d1.dy();
            assert(g1.cell(nx, ny) == g0.cell(nx, ny));
            let r1 = d1.reversed();
            assert(g0.cell(nx, ny).connects_to(r1));
            assert(nx + r1.dx() == px && ny + r1.dy() == py);
            assert(g0.cell(px, py) == g1.cell(px, py));
            assert(q0.contains((px as usize, py as usize)));
            lemma_in_rest(x, y, rest, p);
        }
    }
}

proof fn lemma_placed_fed(
    g0: &Game,
    g1: &Game,
    rest: Seq<(usize, usize)>,
    x: usize,
    y: usize,
    c: Cell,
    pushes: Seq<(usize, usize)>,
)
    requires
        placed(g0, g1, rest, x, y, c, pushes),
    ensures
        fed(g1, rest + pushes),
{
    let q1 = rest + pushes;
    assert forall|i: int| 0 <= i < q1.len() implies fed_at(g1, #[trigger] q1[i]) by {
        if i < rest.len() {
            assert(q1[i] == rest[i]);
            lemma_fed_rest(g0, g1, rest, x, y, c, pushes, i);
        } else {
            assert(q1[i] == pushes[i - rest.len()]);
            lemma_fed_push(g0, g1, rest, x, y, c, pushes, i - rest.len());
        }
    }
}

/// A constraint added at `(x, y)` toward an unplaced neighbor that waits in
/// `rest`: no connection toward it yet.
pub open spec fn soft_entry(
    g: &Game,
    rest: Seq<(usize, usize)>,
    x: int,
    y: int,
    e: (CellOrientation, bool),
) -> bool {
    &&& !e.1
    &&& g.neighbor(x, y, e.0) matches Some(nb) && !nb.locked
    &&& rest.contains(step(x, y, e.0))
}

/// Whether `p` waits in the frontier.
fn queue_contains(queue: &VecDeque<(usize, usize)>, p: (usize, usize)) -> (r: bool)
    ensures
        r == queue@.contains(p),
{
    let mut i: usize = 0;
    while i < queue.len()
        invariant
            i <= queue@.len(),
            forall|k: int| 0 <= k < i ==> queue@[k] != p,
        decreases queue@.len() - i,
    {
        if queue[i].0 == p.0 && queue[i].1 == p.1 {
            assert(queue@[i as int] == p);
            return true;
        }
        i = i + 1;
    }
    false
}

impl Game {
    /// Places the cell at `(x, y)`, just taken off the head of the frontier:
    /// draws it among the configurations that meet its hard constraints and
    /// stay closed toward neighbors still waiting, locks it, and queues the
    /// unplaced neighbors it opens toward.
    #[verifier::rlimit(50)]
    fn place(
        &mut self,
        queue: &mut VecDeque<(usize, usize)>,
        x: usize,
        y: usize,
        rng: &mut rand::rngs::StdRng,
    )
        requires
            growing(old(self), seq![(x, y)] + old(queue)@),
        ensures
            growing(final(self), final(queue)@),
            final(self).width == old(self).width,
            final(self).height == old(self).height,
            count_unlocked(final(self).cells_view()) + 1 == count_unlocked(old(self).cells_view()),
            final(self).cell(x as int, y as int).locked,
            forall|px: int, py: int|
                old(self).in_bounds(px, py) && old(self).cell(px, py).locked
                    ==> #[trigger] final(self).cell(px, py).locked,
    {
        let ghost g0 = *self;
        let ghost rest = queue@;
        let ghost q0 = seq![(x, y)] + rest;
        proof {
            reveal(queue_ok);
            assert(q0[0] == (x, y));
            assert(g0.in_bounds(q0[0].0 as int, q0[0].1 as int));
        }
        let mut constraints = self.get_cell_constraints(x, y);
        let ghost hard = constraints@;
        let mut i: usize = 0;
        while i < 4
            invariant
                i <= 4,
                *self == g0,
                queue@ == rest,
                g0.wf(),
                g0.in_bounds(x as int, y as int),
                hard == g0.constraints(x as int, y as int),
                constraints@.len() >= hard.len(),
                constraints@.subrange(0, hard.len() as int) == hard,
                forall|k: int|
                    hard.len() <= k < constraints@.len() ==> soft_entry(
                        &g0,
                        rest,
                        x as int,
                        y as int,
                        #[trigger] constraints@[k],
                    ),
                forall|j: nat|
                    j < i ==> {
                        let d = #[trigger] CellOrientation::from_ord(j);
                        (g0.neighbor(x as int, y as int, d) matches Some(nb) && !nb.locked
                            && rest.contains(step(x as int, y as int, d))) ==> constraints@.contains(
                            (d, false),
                        )
                    },
            decreases 4 - i,
        {
            let dir = CellOrientation::from_index(i);
            let ghost before = constraints@;
            match self.get_neighbor_at_direction(x, y, dir) {
                Some(c) => {
                    if !c.locked {
                        let p = dir.step_from(x, y).unwrap();
                        if queue_contains(queue, p) {
                            constraints.push((dir, false));
                            proof {
                                assert(constraints@[before.len() as int] == (dir, false));
                            }
                        }
                    }
                },
                None => {},
            }
            proof {
                assert(constraints@.subrange(0, hard.len() as int) == hard) by {
                    assert(constraints@.subrange(0, hard.len() as int) =~= before.subrange(
                        0,
                        hard.len() as int,
                    ));
                }
                assert forall|j: nat| j < i + 1 implies {
                    let d = #[trigger] CellOrientation::from_ord(j);
                    (g0.neighbor(x as int, y as int, d) matches Some(nb) && !nb.locked
                        && rest.contains(step(x as int, y as int, d))) ==> constraints@.contains(
                        (d, false),
                    )
                } by {
                    if j < i {
                        let d = CellOrientation::from_ord(j);
                        if before.contains((d, false)) {
                            let k = choose|k: int| 0 <= k < before.len() && before[k] == (d, false);
                            assert(constraints@[k] == before[k]);
                        }
                    } else {
                        if constraints@.len() > before.len() {
                            assert(constraints@[before.len() as int] == (dir, false));
                        }
                    }
                }
            }
            i = i + 1;
        }
        let ghost cs = constraints@;
        proof {
            self.lemma_placeable(rest, x, y, cs);
        }
        let cell = Cell::random_that_matches_constraints(constraints, rng).unwrap();
        proof {
            assert(cs == hard + cs.subrange(hard.len() as int, cs.len() as int));
            lemma_satisfies_concat(cell, hard, cs.subrange(hard.len() as int, cs.len() as int));
            assert forall|d: CellOrientation|
                (g0.neighbor(x as int, y as int, d) matches Some(nb) && !nb.locked && rest.contains(
                    #[trigger] step(x as int, y as int, d),
                )) implies !cell.connects_to(d) by {
                assert(d == CellOrientation::from_ord(d.ord()));
                let k = choose|k: int| 0 <= k < cs.len() && cs[k] == (d, false);
                assert(cell.meets(cs[k]));
            }
        }
        self.set_cell(x, y, cell).unwrap();
        self.set_lock(x, y, true).unwrap();
        let ghost g1 = *self;
        proof {
            lemma_flat_bounds(g0.width as int, g0.height as int, x as int, y as int);
            assert(g1.cells_view() =~= g0.cells_view().update(
                flat(g0.width as int, x as int, y as int),
                Cell { locked: true, ..cell },
            ));
            assert(g0.replaced(&g1, x as int, y as int, Cell { locked: true, ..cell }));
        }
        let pushes = self.get_non_locked_connections(x, y);
        proof {
            lemma_placed_basics(&g0, &g1, rest, x, y, cell, pushes@);
            lemma_placed_linked(&g0, &g1, rest, x, y, cell, pushes@);
            lemma_placed_queue_ok(&g0, &g1, rest, x, y, cell, pushes@);
            lemma_placed_fed(&g0, &g1, rest, x, y, cell, pushes@);
        }
        let mut k: usize = 0;
        while k < pushes.len()
            invariant
                k <= pushes@.len(),
                queue@ == rest + pushes@.subrange(0, k as int),
            decreases pushes@.len() - k,
        {
            queue.push_back(pushes[k]);
            proof {
                assert(queue@ =~= rest + pushes@.subrange(0, k + 1));
            }
            k = k + 1;
        }
        proof {
            assert(pushes@.subrange(0, pushes@.len() as int) =~= pushes@);
        }
    }

    /// The constraints gathered for the head of the frontier can be met.
    proof fn lemma_placeable(
        &self,
        rest: Seq<(usize, usize)>,
        x: usize,
        y: usize,
        cs: Seq<(CellOrientation, bool)>,
    )
        requires
            growing(self, seq![(x, y)] + rest),
            self.in_bounds(x as int, y as int),
            cs.len() >= self.constraints(x as int, y as int).len(),
            cs.subrange(0, self.constraints(x as int, y as int).len() as int) == self.constraints(
                x as int,
                y as int,
            ),
            forall|k: int|
                self.constraints(x as int, y as int).len() <= k < cs.len() ==> soft_entry(
                    self,
                    rest,
                    x as int,
                    y as int,
                    #[trigger] cs[k],
                ),
        ensures
            matching(cs).len() > 0,
    {
        let g = self;
        let xi = x as int;
        let yi = y as int;
        let hard = g.constraints(xi, yi);
        let q0 = seq![(x, y)] + rest;
        lemma_hard(g, xi, yi, 4, blank_cell());
        reveal(hard_entry);
        if fed(g, q0) {
            assert(q0[0] == (x, y));
            assert(fed_at(g, q0[0]));
            reveal(fed_at);
            let n = feeds(g, xi, yi, CellOrientation::North);
            let e = feeds(g, xi, yi, CellOrientation::East);
            let s = feeds(g, xi, yi, CellOrientation::South);
            let w = feeds(g, xi, yi, CellOrientation::West);
            let d0 = choose|d: CellOrientation| feeds(g, xi, yi, d);
            assert(n || e || s || w);
            assert(!(n && e));
            assert forall|k: int| 0 <= k < cs.len() implies (#[trigger] cs[k]).1 == flagged(
                n,
                e,
                s,
                w,
                cs[k].0,
            ) by {
                if k < hard.len() {
                    assert(cs[k] == cs.subrange(0, hard.len() as int)[k]);
                    assert(hard_entry(g, xi, yi, hard[k]));
                }
            }
            lemma_satisfiable(cs, n, e, s, w);
        } else {
            reveal(all_unlocked);
            assert(rest.len() == 0);
            let d0 = lemma_some_neighbor(g, xi, yi);
            let n = d0 == CellOrientation::North;
            let e = d0 == CellOrientation::East;
            let s = d0 == CellOrientation::South;
            let w = d0 == CellOrientation::West;
            assert forall|k: int| 0 <= k < cs.len() implies (#[trigger] cs[k]).1 == flagged(
                n,
                e,
                s,
                w,
                cs[k].0,
            ) by {
                assert(k < hard.len());
                assert(cs[k] == cs.subrange(0, hard.len() as int)[k]);
                assert(hard_entry(g, xi, yi, hard[k]));
                let dk = cs[k].0;
                if dk == d0 {
                    assert(g.cell(xi + d0.dx(), yi + d0.dy()) == g.cell(
                        xi + d0.dx(),
                        yi + d0.dy(),
                    ));
                }
            }
            lemma_satisfiable(cs, n, e, s, w);
        }
    }
}

/// Any cell, to instantiate lemmas whose statements about a drawn cell are
/// not needed.
pub open spec fn blank_cell() -> Cell {
    crate::grid::blank()
}

impl Game {
    /// Joins the unplaced cell at `(x, y)` to the network: reopens its
    /// placed neighbor toward `dir`, draws that neighbor again with a
    /// connection toward `(x, y)` added to its hard constraints, locks it,
    /// and queues the unplaced neighbors it now opens toward.
    #[verifier::rlimit(50)]
    fn repair(
        &mut self,
        queue: &mut VecDeque<(usize, usize)>,
        x: usize,
        y: usize,
        dir: CellOrientation,
        rng: &mut rand::rngs::StdRng,
    )
        requires
            old(queue)@.len() == 0,
            growing(old(self), old(queue)@),
            repairable(old(self), x as int, y as int, dir),
        ensures
            growing(final(self), final(queue)@),
            final(queue)@.len() > 0,
            final(self).width == old(self).width,
            final(self).height == old(self).height,
            count_unlocked(final(self).cells_view()) == count_unlocked(old(self).cells_view()),
            forall|px: int, py: int|
                old(self).in_bounds(px, py) && old(self).cell(px, py).locked
                    ==> #[trigger] final(self).cell(px, py).locked,
    {
        let ghost g0 = *self;
        proof {
            assert(queue@ =~= Seq::<(usize, usize)>::empty());
            assert(g0.in_bounds(x as int + dir.dx(), y as int + dir.dy()));
        }
        let (lx, ly) = dir.step_from(x, y).unwrap();
        let o = dir.reverse();
        proof {
            lemma_steps(x as int, y as int, dir, dir);
            lemma_reverse(dir);
            lemma_flat_bounds(g0.width as int, g0.height as int, lx as int, ly as int);
        }
        self.set_lock(lx, ly, false).unwrap();
        let ghost gu = *self;
        let mut constraints = self.get_cell_constraints(lx, ly);
        let ghost hard = constraints@;
        constraints.push((o, true));
        let ghost cs = constraints@;
        proof {
            assert(cs == hard + seq![(o, true)]);
            lemma_unlocked_prior(&g0, &gu, lx, ly);
            lemma_repair_placeable(&g0, &gu, x, y, dir, cs);
        }
        let cell = Cell::random_that_matches_constraints(constraints, rng).unwrap();
        proof {
            lemma_satisfies_concat(cell, hard, seq![(o, true)]);
            assert(cell.meets(seq![(o, true)][0]));
        }
        self.set_cell(lx, ly, cell).unwrap();
        self.set_lock(lx, ly, true).unwrap();
        let ghost g1 = *self;
        proof {
            assert(g1.cells_view() =~= gu.cells_view().update(
                flat(gu.width as int, lx as int, ly as int),
                Cell { locked: true, ..cell },
            ));
            assert(gu.replaced(&g1, lx as int, ly as int, Cell { locked: true, ..cell }));
        }
        let pushes = self.get_non_locked_connections(lx, ly);
        proof {
            let rest = Seq::<(usize, usize)>::empty();
            assert(seq![(lx, ly)] + rest =~= seq![(lx, ly)]);
            lemma_placed_basics(&gu, &g1, rest, lx, ly, cell, pushes@);
            lemma_placed_linked(&gu, &g1, rest, lx, ly, cell, pushes@);
            lemma_placed_queue_ok(&gu, &g1, rest, lx, ly, cell, pushes@);
            lemma_placed_fed(&gu, &g1, rest, lx, ly, cell, pushes@);
            assert(rest + pushes@ =~= pushes@);
            lemma_replaced(&g0, &gu, lx as int, ly as int, Cell { locked: false, ..g0.cell(lx as int, ly as int) });
            assert(g1.cell(x as int, y as int) == gu.cell(x as int, y as int));
            assert(gu.cell(x as int, y as int) == g0.cell(x as int, y as int));
            assert(lx as int + o.dx() == x && ly as int + o.dy() == y);
            assert(opens(&g1, lx as int, ly as int, cell, o));
            assert(pushes@.contains(step(lx as int, ly as int, o)));
            assert forall|px: int, py: int|
                g0.in_bounds(px, py) && g0.cell(px, py).locked implies #[trigger] g1.cell(
                px,
                py,
            ).locked by {
                if !(px == lx && py == ly) {
                    assert(g1.cell(px, py) == gu.cell(px, py));
                }
            }
        }
        let mut k: usize = 0;
        while k < pushes.len()
            invariant
                k <= pushes@.len(),
                queue@ == pushes@.subrange(0, k as int),
            decreases pushes@.len() - k,
        {
            queue.push_back(pushes[k]);
            proof {
                assert(queue@ =~= pushes@.subrange(0, k + 1));
            }
            k = k + 1;
        }
        proof {
            assert(pushes@.subrange(0, pushes@.len() as int) =~= pushes@);
        }
    }
}

/// Unlocking a placed cell of a settled board (one with nothing waiting)
/// leaves a board on which that cell can be placed again.
proof fn lemma_unlocked_prior(g0: &Game, gu: &Game, lx: usize, ly: usize)
    requires
        growing(g0, Seq::empty()),
        g0.in_bounds(lx as int, ly as int),
        g0.cell(lx as int, ly as int).locked,
        g0.replaced(gu, lx as int, ly as int, Cell { locked: false, ..g0.cell(lx as int, ly as int) }),
    ensures
        prior(gu, seq![(lx, ly)]),
{
    let lxi = lx as int;
    let lyi = ly as int;
    lemma_replaced(g0, gu, lxi, lyi, Cell { locked: false, ..g0.cell(lxi, lyi) });
    let q = seq![(lx, ly)];
    assert(q[0] == (lx, ly));
    reveal(linked);
    reveal(queue_ok);
    assert forall|px: int, py: int, d: CellOrientation|
        gu.in_bounds(px, py) && gu.cell(px, py).locked && #[trigger] gu.cell(px, py).connects_to(
            d,
        ) implies {
        let nx = px + d.dx();
        let ny = py + d.dy();
        &&& gu.in_bounds(nx, ny)
        &&& gu.cell(nx, ny).locked ==> gu.cell(nx, ny).connects_to(d.reversed())
        &&& !gu.cell(nx, ny).locked ==> q.contains((nx as usize, ny as usize))
    } by {
        assert(gu.cell(px, py) == g0.cell(px, py));
        assert(g0.cell(px, py).connects_to(d));
        let nx = px + d.dx();
        let ny = py + d.dy();
        if !(nx == lxi && ny == lyi) {
            assert(gu.cell(nx, ny) == g0.cell(nx, ny));
        }
    }
    assert forall|i: int| 0 <= i < q.len() implies gu.in_bounds(#[trigger] q[i].0 as int, q[i].1 as int)
        && !gu.cell(q[i].0 as int, q[i].1 as int).locked by {
    }
}

/// The constraints gathered for a reopened neighbor can be met: it keeps
/// its placed neighbors and opens toward the cell to join.
#[verifier::spinoff_prover]
#[verifier::rlimit(80)]
proof fn lemma_repair_placeable(
    g0: &Game,
    gu: &Game,
    x: usize,
    y: usize,
    dir: CellOrientation,
    cs: Seq<(CellOrientation, bool)>,
)
    requires
        growing(g0, Seq::empty()),
        repairable(g0, x as int, y as int, dir),
        g0.replaced(
            gu,
            x + dir.dx(),
            y + dir.dy(),
            Cell { locked: false, ..g0.cell(x + dir.dx(), y + dir.dy()) },
        ),
        cs == gu.constraints(x + dir.dx(), y + dir.dy()) + seq![(dir.reversed(), true)],
    ensures
        matching(cs).len() > 0,
{
    let lx = x + dir.dx();
    let ly = y + dir.dy();
    let o = dir.reversed();
    lemma_steps(x as int, y as int, dir, dir);
    lemma_reverse(dir);
    lemma_replaced(g0, gu, lx, ly, Cell { locked: false, ..g0.cell(lx, ly) });
    let hard = gu.constraints(lx, ly);
    lemma_hard(gu, lx, ly, 4, blank_cell());
    reveal(hard_entry);
    reveal(linked);
    let c0 = g0.cell(lx, ly);
    assert(lx + o.dx() == x && ly + o.dy() == y);
    assert(gu.cell(x as int, y as int) == g0.cell(x as int, y as int));
    // the reopened cell was closed toward the cell to join, which is unplaced
    assert(!c0.connects_to(o)) by {
        if c0.connects_to(o) {
            assert(Seq::<(usize, usize)>::empty().contains((x, y)));
        }
    }
    let d2 = lemma_second_free_side(c0, o);
    let n = feeds(gu, lx, ly, CellOrientation::North) || o == CellOrientation::North;
    let e = feeds(gu, lx, ly, CellOrientation::East) || o == CellOrientation::East;
    let s = feeds(gu, lx, ly, CellOrientation::South) || o == CellOrientation::South;
    let w = feeds(gu, lx, ly, CellOrientation::West) || o == CellOrientation::West;
    assert(!feeds(gu, lx, ly, d2)) by {
        if feeds(gu, lx, ly, d2) {
            lemma_steps(lx, ly, d2, d2);
            lemma_reverse(d2);
            let nx = lx + d2.dx();
            let ny = ly + d2.dy();
            assert(gu.cell(nx, ny) == g0.cell(nx, ny));
            assert(g0.cell(nx, ny).connects_to(d2.reversed()));
            assert(nx + d2.reversed().dx() == lx && ny + d2.reversed().dy() == ly);
        }
    }
    assert(!flagged(n, e, s, w, d2));
    assert(flagged(n, e, s, w, o));
    assert forall|k: int| 0 <= k < cs.len() implies (#[trigger] cs[k]).1 == flagged(
        n,
        e,
        s,
        w,
        cs[k].0,
    ) by {
        if k < hard.len() {
            assert(cs[k] == hard[k]);
            assert(hard_entry(gu, lx, ly, hard[k]));
        } else {
            assert(cs[k] == (o, true));
        }
    }
    lemma_satisfiable(cs, n, e, s, w);
}

impl Game {
    /// The unplaced cells next to a placed cell that has a free side, each
    /// with the direction of the first such neighbor in the order North,
    /// East, South, West; row after row.
    fn repair_candidates(&self) -> (r: Vec<(usize, usize, CellOrientation)>)
        requires
            self.wf(),
        ensures
            forall|k: int|
                0 <= k < r@.len() ==> repairable(
                    self,
                    (#[trigger] r@[k]).0 as int,
                    r@[k].1 as int,
                    r@[k].2,
                ),
            r@.len() == 0 ==> forall|x: int, y: int, d: CellOrientation|
                !(#[trigger] repairable(self, x, y, d)),
    {
        let mut r: Vec<(usize, usize, CellOrientation)> = Vec::new();
        let mut y: usize = 0;
        while y < self.height
            invariant
                self.wf(),
                y <= self.height,
                forall|k: int|
                    0 <= k < r@.len() ==> repairable(
                        self,
                        (#[trigger] r@[k]).0 as int,
                        r@[k].1 as int,
                        r@[k].2,
                    ),
                r@.len() == 0 ==> forall|px: int, py: int, d: CellOrientation|
                    py < y ==> !(#[trigger] repairable(self, px, py, d)),
            decreases self.height - y,
        {
            let mut x: usize = 0;
            while x < self.width
                invariant
                    self.wf(),
                    y < self.height,
                    x <= self.width,
                    forall|k: int|
                        0 <= k < r@.len() ==> repairable(
                            self,
                            (#[trigger] r@[k]).0 as int,
                            r@[k].1 as int,
                            r@[k].2,
                        ),
                    r@.len() == 0 ==> forall|px: int, py: int, d: CellOrientation|
                        (py < y || (py == y && px < x)) ==> !(#[trigger] repairable(
                            self,
                            px,
                            py,
                            d,
                        )),
                decreases self.width - x,
            {
                let c = self.get_cell(x, y).unwrap();
                if !c.locked {
                    let mut i: usize = 0;
                    let mut done = false;
                    while i < 4 && !done
                        invariant
                            self.wf(),
                            self.in_bounds(x as int, y as int),
                            !self.cell(x as int, y as int).locked,
                            i <= 4,
                            forall|k: int|
                                0 <= k < r@.len() ==> repairable(
                                    self,
                                    (#[trigger] r@[k]).0 as int,
                                    r@[k].1 as int,
                                    r@[k].2,
                                ),
                            done ==> r@.len() > 0,
                            !done ==> forall|j: nat|
                                j < i ==> !repairable(
                                    self,
                                    x as int,
                                    y as int,
                                    #[trigger] CellOrientation::from_ord(j),
                                ),
                            r@.len() == 0 ==> forall|px: int, py: int, d: CellOrientation|
                                (py < y || (py == y && px < x)) ==> !(#[trigger] repairable(
                                    self,
                                    px,
                                    py,
                                    d,
                                )),
                        decreases 4 - i,
                    {
                        let d = CellOrientation::from_index(i);
                        match self.get_neighbor_at_direction(x, y, d) {
                            Some(n) => {
                                if n.locked && n.version != CellVersion::Triple {
                                    r.push((x, y, d));
                                    done = true;
                                }
                            },
                            None => {},
                        }
                        i = i + 1;
                    }
                    proof {
                        if !done {
                            assert forall|d: CellOrientation|
                                !(#[trigger] repairable(self, x as int, y as int, d)) by {
                                assert(d == CellOrientation::from_ord(d.ord()));
                            }
                        }
                    }
                }
                x = x + 1;
            }
            y = y + 1;
        }
        proof {
            if r@.len() == 0 {
                assert forall|x: int, y: int, d: CellOrientation|
                    !(#[trigger] repairable(self, x, y, d)) by {
                    if self.in_bounds(x, y) {
                        assert(y < self.height);
                    }
                }
            }
        }
        r
    }

    /// A board of `width` by `height` on which every placed cell connects
    /// only toward placed neighbors that connect back, never off the
    /// board, and no unplaced cell is left next to a placed cell with a
    /// free side. A board of a single cell cannot be laid out, since every
    /// piece has at least one end.
    pub fn random_valid(width: usize, height: usize, rng: &mut rand::rngs::StdRng) -> (r: Game)
        requires
            width * height >= 2,
            width * height <= usize::MAX,
        ensures
            r.wf(),
            r.width == width,
            r.height == height,
            r.cell((width / 2) as int, (height / 2) as int).locked,
            forall|x: int, y: int, d: CellOrientation|
                r.in_bounds(x, y) && r.cell(x, y).locked && #[trigger] r.cell(x, y).connects_to(d)
                    ==> {
                    let nx = x + d.dx();
                    let ny = y + d.dy();
                    &&& r.in_bounds(nx, ny)
                    &&& r.cell(nx, ny).locked
                    &&& r.cell(nx, ny).connects_to(d.reversed())
                },
            forall|x: int, y: int, d: CellOrientation|
                r.in_bounds(x, y) && !r.cell(x, y).locked ==> match #[trigger] r.neighbor(
                    x,
                    y,
                    d,
                ) {
                    Some(nb) => !nb.locked || nb.version == CellVersion::Triple,
                    None => true,
                },
    {
        let mut game = Game::new(width, height);
        let mut queue: VecDeque<(usize, usize)> = VecDeque::new();
        queue.push_front((width / 2, height / 2));
        proof {
            reveal(linked);
            reveal(queue_ok);
            reveal(all_unlocked);
            assert(width >= 1 && height >= 1) by (nonlinear_arith)
                requires
                    width * height >= 2,
            ;
            assert(width / 2 < width && height / 2 < height);
            assert(queue@[0] == (width / 2, height / 2));
            assert forall|x: int, y: int| game.in_bounds(x, y) implies !(#[trigger] game.cell(
                x,
                y,
            )).locked by {
                lemma_flat_bounds(width as int, height as int, x, y);
            }
            assert(game.in_bounds(queue@[0].0 as int, queue@[0].1 as int));
            assert(queue@ =~= seq![(width / 2, height / 2)]);
        }
        loop
            invariant
                growing(&game, queue@),
                game.width == width,
                game.height == height,
                game.cell((width / 2) as int, (height / 2) as int).locked || queue@ == seq![
                    (width / 2, height / 2),
                ],
            ensures
                growing(&game, queue@),
                game.width == width,
                game.height == height,
                game.cell((width / 2) as int, (height / 2) as int).locked,
                queue@.len() == 0,
                forall|x: int, y: int, d: CellOrientation| !(#[trigger] repairable(&game, x, y, d)),
            decreases 2 * count_unlocked(game.cells_view()) + if queue@.len() == 0 {
                1int
            } else {
                0int
            },
        {
            let ghost before = queue@;
            match queue.pop_front() {
                Some((x, y)) => {
                    proof {
                        assert(seq![(x, y)] + queue@ =~= before);
                    }
                    game.place(&mut queue, x, y, rng);
                },
                None => {
                    let candidates = game.repair_candidates();
                    if candidates.len() == 0 {
                        break ;
                    }
                    let k: usize = random_below(rng, candidates.len());
                    let (x, y, dir) = candidates[k];
                    game.repair(&mut queue, x, y, dir, rng);
                },
            }
        }
        proof {
            reveal(linked);
            assert forall|x: int, y: int, d: CellOrientation|
                game.in_bounds(x, y) && !game.cell(x, y).locked implies match #[trigger] game.neighbor(
                x,
                y,
                d,
            ) {
                Some(nb) => !nb.locked || nb.version == CellVersion::Triple,
                None => true,
            } by {
                assert(!repairable(&game, x, y, d));
            }
        }
        game
    }
}

impl Game {
    /// A board of `width` by `height` unlocked, unpowered cells, each with a
    /// shape and an orientation drawn at random; nothing makes it solvable.
    pub fn random_invalid(width: usize, height: usize, rng: &mut rand::rngs::StdRng) -> (r: Game)
        requires
            width * height <= usize::MAX,
        ensures
            r.wf(),
            r.width == width,
            r.height == height,
            forall|i: int|
                0 <= i < r.cells_view().len() ==> !(#[trigger] r.cells_view()[i]).locked
                    && !r.cells_view()[i].powered,
    {
        let n: usize = width * height;
        let mut grid: Vec<Cell> = Vec::new();
        let mut i: usize = 0;
        while i < n
            invariant
                i <= n,
                grid@.len() == i,
                forall|k: int| 0 <= k < i ==> !(#[trigger] grid@[k]).locked && !grid@[k].powered,
            decreases n - i,
        {
            let v: usize = random_below(rng, 4);
            let o: usize = random_below(rng, 4);
            grid.push(
                Cell {
                    version: CellVersion::from_index(v),
                    orientation: CellOrientation::from_index(o),
                    locked: false,
                    powered: false,
                },
            );
            i = i + 1;
        }
        Game { width, height, grid }
    }
}

} // verus!

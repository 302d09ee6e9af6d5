//! Pipe pieces: their shapes, their orientations and the directions they
//! connect to.
use crate::random::random_below;
use vstd::prelude::*;

verus! {

/// What can go wrong when a board is read, changed or generated.
#[derive(Clone, Copy, Debug, PartialEq, Eq, Structural)]
pub enum GameError {
    CellIsLocked,
    InvalidCell,
    NoMatchingConfiguration,
}

/// The shape of a pipe piece.
#[derive(Clone, Copy, Debug, PartialEq, Eq, Structural)]
pub enum CellVersion {
    Single,
    Angle,
    Line,
    Triple,
}

/// One of the four directions, in clockwise order.
#[derive(Clone, Copy, Debug, PartialEq, Eq, Structural)]
pub enum CellOrientation {
    North,
    East,
    South,
    West,
}

impl CellVersion {
    /// Position of the shape in the order Single, Angle, Line, Triple.
    pub open spec fn ord(self) -> nat {
        match self {
            CellVersion::Single => 0,
            CellVersion::Angle => 1,
            CellVersion::Line => 2,
            CellVersion::Triple => 3,
        }
    }

    pub open spec fn from_ord(i: nat) -> CellVersion {
        if i % 4 == 0 {
            CellVersion::Single
        } else if i % 4 == 1 {
            CellVersion::Angle
        } else if i % 4 == 2 {
            CellVersion::Line
        } else {
            CellVersion::Triple
        }
    }

    /// The number of pipe ends of the shape.
    pub open spec fn degree(self) -> nat {
        match self {
            CellVersion::Single => 1,
            CellVersion::Angle => 2,
            CellVersion::Line => 2,
            CellVersion::Triple => 3,
        }
    }

    /// The shape at position `i` (taken modulo 4) of the order above.
    pub fn from_index(i: usize) -> (r: CellVersion)
        ensures
            r == CellVersion::from_ord(i as nat),
    {
        let k: usize = i % 4;
        if k == 0 {
            CellVersion::Single
        } else if k == 1 {
            CellVersion::Angle
        } else if k == 2 {
            CellVersion::Line
        } else {
            CellVersion::Triple
        }
    }
}

impl CellOrientation {
    /// Position of the direction in the cycle North, East, South, West.
    pub open spec fn ord(self) -> nat {
        match self {
            CellOrientation::North => 0,
            CellOrientation::East => 1,
            CellOrientation::South => 2,
            CellOrientation::West => 3,
        }
    }

    pub open spec fn from_ord(i: nat) -> CellOrientation {
        if i % 4 == 0 {
            CellOrientation::North
        } else if i % 4 == 1 {
            CellOrientation::East
        } else if i % 4 == 2 {
            CellOrientation::South
        } else {
            CellOrientation::West
        }
    }

    /// This direction turned clockwise by as many quarter turns as `by` is
    /// away from North.
    pub open spec fn rotated(self, by: CellOrientation) -> CellOrientation {
        CellOrientation::from_ord(self.ord() + by.ord())
    }

    pub open spec fn reversed(self) -> CellOrientation {
        self.rotated(CellOrientation::South)
    }

    pub open spec fn dx(self) -> int {
        match self {
            CellOrientation::East => 1,
            CellOrientation::West => -1,
            _ => 0,
        }
    }

    pub open spec fn dy(self) -> int {
        match self {
            CellOrientation::North => 1,
            CellOrientation::South => -1,
            _ => 0,
        }
    }

    /// The direction at position `i` (taken modulo 4) of the cycle.
    pub fn from_index(i: usize) -> (r: CellOrientation)
        ensures
            r == CellOrientation::from_ord(i as nat),
    {
        let k: usize = i % 4;
        if k == 0 {
            CellOrientation::North
        } else if k == 1 {
            CellOrientation::East
        } else if k == 2 {
            CellOrientation::South
        } else {
            CellOrientation::West
        }
    }

    pub fn index(&self) -> (r: usize)
        ensures
            r as nat == self.ord(),
    {
        match self {
            CellOrientation::North => 0,
            CellOrientation::East => 1,
            CellOrientation::South => 2,
            CellOrientation::West => 3,
        }
    }

    pub fn rotate(&self, direction: CellOrientation) -> (r: CellOrientation)
        ensures
            r == self.rotated(direction),
    {
        CellOrientation::from_index(self.index() + direction.index())
    }

    /// The unit step `(dx, dy)` taken when moving in this direction; North
    /// increases `y`.
    pub fn shift(&self) -> (r: (isize, isize))
        ensures
            r.0 == self.dx(),
            r.1 == self.dy(),
    {
        match self {
            CellOrientation::North => (0, 1),
            CellOrientation::East => (1, 0),
            CellOrientation::South => (0, -1),
            CellOrientation::West => (-1, 0),
        }
    }

    pub fn reverse(&self) -> (r: CellOrientation)
        ensures
            r == self.reversed(),
    {
        self.rotate(CellOrientation::South)
    }

    /// The position one step away from `(x, y)` in this direction, or `None`
    /// where a coordinate would be negative.
    pub fn step_from(&self, x: usize, y: usize) -> (r: Option<(usize, usize)>)
        requires
            x < usize::MAX,
            y < usize::MAX,
        ensures
            x + self.dx() >= 0 && y + self.dy() >= 0 ==> r == Some(
                ((x + self.dx()) as usize, (y + self.dy()) as usize),
            ),
            !(x + self.dx() >= 0 && y + self.dy() >= 0) ==> r.is_none(),
    {
        match self {
            CellOrientation::North => Some((x, y + 1)),
            CellOrientation::East => Some((x + 1, y)),
            CellOrientation::South => if y > 0 {
                Some((x, y - 1))
            } else {
                None
            },
            CellOrientation::West => if x > 0 {
                Some((x - 1, y))
            } else {
                None
            },
        }
    }
}

/// Rotating by North changes nothing, four quarter turns bring every
/// direction back to itself, and reversing twice is the identity.
pub proof fn lemma_rotation_group(d: CellOrientation)
    ensures
        d.rotated(CellOrientation::North) == d,
        d.rotated(CellOrientation::East).rotated(CellOrientation::East).rotated(
            CellOrientation::East,
        ).rotated(CellOrientation::East) == d,
        d.reversed().reversed() == d,
{
}

/// A pipe piece on the board.
#[derive(Clone, Copy, Debug, PartialEq, Eq, Structural)]
pub struct Cell {
    pub version: CellVersion,
    pub orientation: CellOrientation,
    pub locked: bool,
    pub powered: bool,
}

impl Cell {
    /// The directions the piece connects to: its shape's ends, rotated.
    pub open spec fn connections(self) -> Seq<CellOrientation> {
        let o = self.orientation;
        match self.version {
            CellVersion::Single => seq![CellOrientation::North.rotated(o)],
            CellVersion::Angle => seq![
                CellOrientation::North.rotated(o),
                CellOrientation::East.rotated(o),
            ],
            CellVersion::Line => seq![
                CellOrientation::North.rotated(o),
                CellOrientation::South.rotated(o),
            ],
            CellVersion::Triple => seq![
                CellOrientation::East.rotated(o),
                CellOrientation::South.rotated(o),
                CellOrientation::West.rotated(o),
            ],
        }
    }

    /// Whether the piece has an end facing `d`.
    pub open spec fn connects_to(self, d: CellOrientation) -> bool {
        let o = self.orientation;
        match self.version {
            CellVersion::Single => d == CellOrientation::North.rotated(o),
            CellVersion::Angle => d == CellOrientation::North.rotated(o) || d
                == CellOrientation::East.rotated(o),
            CellVersion::Line => d == CellOrientation::North.rotated(o) || d
                == CellOrientation::South.rotated(o),
            CellVersion::Triple => d != CellOrientation::North.rotated(o),
        }
    }

    /// Whether the piece meets one constraint: connect toward `c.0` exactly
    /// when `c.1` holds.
    pub open spec fn meets(self, c: (CellOrientation, bool)) -> bool {
        self.connects_to(c.0) == c.1
    }

    pub open spec fn satisfies(self, cs: Seq<(CellOrientation, bool)>) -> bool {
        forall|i: int| 0 <= i < cs.len() ==> self.meets(#[trigger] cs[i])
    }

    pub fn connects(&self) -> (r: Vec<CellOrientation>)
        ensures
            r@ == self.connections(),
    {
        let o = self.orientation;
        match self.version {
            CellVersion::Single => vec![CellOrientation::North.rotate(o)],
            CellVersion::Angle => vec![
                CellOrientation::North.rotate(o),
                CellOrientation::East.rotate(o),
            ],
            CellVersion::Line => vec![
                CellOrientation::North.rotate(o),
                CellOrientation::South.rotate(o),
            ],
            CellVersion::Triple => vec![
                CellOrientation::East.rotate(o),
                CellOrientation::South.rotate(o),
                CellOrientation::West.rotate(o),
            ],
        }
    }

    /// Whether the piece has an end facing `d`.
    pub fn connects_toward(&self, d: CellOrientation) -> (r: bool)
        ensures
            r == self.connects_to(d),
    {
        let conns = self.connects();
        proof {
            lemma_connections_contains(*self);
        }
        let mut found = false;
        let mut j: usize = 0;
        while j < conns.len()
            invariant
                j <= conns@.len(),
                found == (exists|k: int| 0 <= k < j && conns@[k] == d),
            decreases conns@.len() - j,
        {
            if conns[j] == d {
                found = true;
            }
            j = j + 1;
        }
        assert(found == conns@.contains(d));
        found
    }

    /// Whether the piece meets every constraint of the list.
    pub fn matches_constraints(&self, constraints: &Vec<(CellOrientation, bool)>) -> (r: bool)
        ensures
            r == self.satisfies(constraints@),
    {
        let conns = self.connects();
        proof {
            lemma_connections_contains(*self);
        }
        let mut i: usize = 0;
        while i < constraints.len()
            invariant
                i <= constraints@.len(),
                conns@ == self.connections(),
                forall|d: CellOrientation| conns@.contains(d) <==> self.connects_to(d),
                forall|k: int| 0 <= k < i ==> #[trigger] self.meets(constraints@[k]),
            decreases constraints@.len() - i,
        {
            let (dir, must) = constraints[i];
            let mut found = false;
            let mut j: usize = 0;
            while j < conns.len()
                invariant
                    j <= conns@.len(),
                    found == (exists|k: int| 0 <= k < j && conns@[k] == dir),
                decreases conns@.len() - j,
            {
                if conns[j] == dir {
                    found = true;
                }
                j = j + 1;
            }
            assert(found == conns@.contains(dir));
            assert(constraints@[i as int] == (dir, must));
            if found != must {
                assert(!self.meets(constraints@[i as int]));
                return false;
            }
            i = i + 1;
        }
        true
    }
}

/// The list of connections agrees with `connects_to`.
pub proof fn lemma_connections_contains(c: Cell)
    ensures
        forall|d: CellOrientation| c.connections().contains(d) <==> c.connects_to(d),
{
    assert forall|d: CellOrientation| c.connections().contains(d) <==> c.connects_to(d) by {
        if c.connects_to(d) {
            let o = c.orientation;
            let s = c.connections();
            if s[0] == d {
                assert(s.contains(d));
            } else if s.len() > 1 && s[1] == d {
                assert(s.contains(d));
            } else {
                assert(s[2] == d);
                assert(s.contains(d));
            }
        }
    }
}

/// Each piece connects to exactly as many directions as its shape has ends,
/// whatever its orientation: the list of connections has that length, no
/// direction twice, and as many distinct directions.
pub proof fn lemma_degree(c: Cell)
    ensures
        c.connections().len() == c.version.degree(),
        c.connections().no_duplicates(),
        c.connections().to_set().len() == c.version.degree(),
{
    c.connections().unique_seq_to_set();
}

/// The configuration at position `i` of the candidate pool: shapes in the
/// order Single, Angle, Line, Triple, each in the four orientations.
pub open spec fn config(i: nat) -> Cell {
    Cell {
        version: CellVersion::from_ord(i / 4),
        orientation: CellOrientation::from_ord(i),
        locked: false,
        powered: false,
    }
}

/// The configurations among the first `n` of the pool that satisfy `cs`,
/// in pool order.
pub open spec fn matching_prefix(cs: Seq<(CellOrientation, bool)>, n: nat) -> Seq<Cell>
    decreases n,
{
    if n == 0 {
        Seq::empty()
    } else {
        let rest = matching_prefix(cs, (n - 1) as nat);
        if config((n - 1) as nat).satisfies(cs) {
            rest.push(config((n - 1) as nat))
        } else {
            rest
        }
    }
}

/// The configurations of the whole pool that satisfy `cs`.
pub open spec fn matching(cs: Seq<(CellOrientation, bool)>) -> Seq<Cell> {
    matching_prefix(cs, 16)
}

/// Whether direction `d` is among the four flags `(n, e, s, w)`.
pub open spec fn flagged(n: bool, e: bool, s: bool, w: bool, d: CellOrientation) -> bool {
    match d {
        CellOrientation::North => n,
        CellOrientation::East => e,
        CellOrientation::South => s,
        CellOrientation::West => w,
    }
}

/// Every configuration that the prefix keeps satisfies the constraints and
/// is unlocked and unpowered; and the prefix is empty only if no
/// configuration before `n` satisfies them.
pub proof fn lemma_matching_prefix(cs: Seq<(CellOrientation, bool)>, n: nat)
    ensures
        forall|k: int|
            0 <= k < matching_prefix(cs, n).len() ==> {
                let c = #[trigger] matching_prefix(cs, n)[k];
                c.satisfies(cs) && !c.locked && !c.powered
            },
        forall|i: nat| i < n && #[trigger] config(i).satisfies(cs) ==> matching_prefix(cs, n).len() > 0,
    decreases n,
{
    if n > 0 {
        lemma_matching_prefix(cs, (n - 1) as nat);
    }
}

/// Any set of one to three directions is exactly what some configuration of
/// the pool connects to.
pub proof fn lemma_config_for(n: bool, e: bool, s: bool, w: bool) -> (i: nat)
    requires
        n || e || s || w,
        !(n && e && s && w),
    ensures
        i < 16,
        forall|d: CellOrientation| #[trigger] config(i).connects_to(d) == flagged(n, e, s, w, d),
{
    let i: nat = if !e && !s && !w {
        0
    } else if !n && !s && !w {
        1
    } else if !n && !e && !w {
        2
    } else if !n && !e && !s {
        3
    } else if !s && !w {
        4
    } else if !n && !w {
        5
    } else if !n && !e {
        6
    } else if !e && !s {
        7
    } else if !e && !w {
        8
    } else if !n && !s {
        9
    } else if !n {
        12
    } else if !e {
        13
    } else if !s {
        14
    } else {
        15
    };
    i
}

impl Cell {
    /// The whole candidate pool: every shape in every orientation, unlocked
    /// and unpowered.
    pub fn all_possible() -> (r: Vec<Cell>)
        ensures
            r@.len() == 16,
            forall|i: int| 0 <= i < 16 ==> r@[i] == config(i as nat),
    {
        let mut r: Vec<Cell> = Vec::new();
        let mut i: usize = 0;
        while i < 16
            invariant
                i <= 16,
                r@.len() == i,
                forall|k: int| 0 <= k < i ==> r@[k] == config(k as nat),
            decreases 16 - i,
        {
            r.push(
                Cell {
                    version: CellVersion::from_index(i / 4),
                    orientation: CellOrientation::from_index(i),
                    locked: false,
                    powered: false,
                },
            );
            i = i + 1;
        }
        r
    }

    /// The configurations of the pool that satisfy `constraints`, in pool
    /// order.
    pub fn matching_configurations(constraints: &Vec<(CellOrientation, bool)>) -> (r: Vec<Cell>)
        ensures
            r@ == matching(constraints@),
    {
        let all = Cell::all_possible();
        let mut r: Vec<Cell> = Vec::new();
        let mut i: usize = 0;
        while i < all.len()
            invariant
                i <= 16,
                all@.len() == 16,
                forall|k: int| 0 <= k < 16 ==> all@[k] == config(k as nat),
                r@ == matching_prefix(constraints@, i as nat),
            decreases 16 - i,
        {
            if all[i].matches_constraints(constraints) {
                r.push(all[i]);
            }
            i = i + 1;
        }
        r
    }

    /// A configuration drawn at random among those of the pool that satisfy
    /// `constraints`, or `NoMatchingConfiguration` where none does.
    pub fn random_that_matches_constraints(
        constraints: Vec<(CellOrientation, bool)>,
        rng: &mut rand::rngs::StdRng,
    ) -> (r: Result<Cell, GameError>)
        ensures
            matching(constraints@).len() > 0 <==> r is Ok,
            r is Err ==> r == Err::<Cell, GameError>(GameError::NoMatchingConfiguration),
            r is Ok ==> matching(constraints@).contains(r->Ok_0),
            r is Ok ==> r->Ok_0.satisfies(constraints@) && !r->Ok_0.locked
                && !r->Ok_0.powered,
    {
        let candidates = Cell::matching_configurations(&constraints);
        proof {
            lemma_matching_prefix(constraints@, 16);
        }
        if candidates.len() == 0 {
            Err(GameError::NoMatchingConfiguration)
        } else {
            let k: usize = random_below(rng, candidates.len());
            assert(candidates@.contains(candidates@[k as int]));
            Ok(candidates[k])
        }
    }
}

/// Every piece has at least one end, so no configuration keeps closed on
/// all four sides: a board of a single cell, walled in on every side,
/// cannot be laid out.
pub proof fn lemma_no_closed_piece(c: Cell)
    ensures
        !c.satisfies(
            seq![
                (CellOrientation::North, false),
                (CellOrientation::East, false),
                (CellOrientation::South, false),
                (CellOrientation::West, false),
            ],
        ),
{
    let walls = seq![
        (CellOrientation::North, false),
        (CellOrientation::East, false),
        (CellOrientation::South, false),
        (CellOrientation::West, false),
    ];
    let d = c.connections()[0];
    lemma_connections_contains(c);
    assert(c.connections().contains(d));
    let k = d.ord() as int;
    assert(walls[k].0 == d);
    assert(!c.meets(walls[k]));
}

} // verus!

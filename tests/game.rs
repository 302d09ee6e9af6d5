use pipe_puzzle::{Cell, CellOrientation, CellVersion, Game, GameError};
use rand::rngs::StdRng;
use rand::SeedableRng;

const DIRS: [CellOrientation; 4] = [
    CellOrientation::North,
    CellOrientation::East,
    CellOrientation::South,
    CellOrientation::West,
];

const SHAPES: [CellVersion; 4] = [
    CellVersion::Single,
    CellVersion::Angle,
    CellVersion::Line,
    CellVersion::Triple,
];

fn cell(version: CellVersion, orientation: CellOrientation) -> Cell {
    Cell { version, orientation, locked: false, powered: false }
}

fn degree(v: CellVersion) -> usize {
    match v {
        CellVersion::Single => 1,
        CellVersion::Angle => 2,
        CellVersion::Line => 2,
        CellVersion::Triple => 3,
    }
}

fn offset(d: CellOrientation) -> (i64, i64) {
    match d {
        CellOrientation::North => (0, 1),
        CellOrientation::East => (1, 0),
        CellOrientation::South => (0, -1),
        CellOrientation::West => (-1, 0),
    }
}

/// Checks that every connection of every cell stays on the board and is
/// answered by the neighbor it points at.
fn assert_mutual(game: &Game) {
    for y in 0..game.height {
        for x in 0..game.width {
            let c = game.get_cell(x, y).unwrap();
            for d in c.connects() {
                let (dx, dy) = offset(d);
                let nx = x as i64 + dx;
                let ny = y as i64 + dy;
                assert!(nx >= 0 && ny >= 0, "({}, {}) connects off the board", x, y);
                assert!((nx as usize) < game.width && (ny as usize) < game.height);
                let n = game.get_cell(nx as usize, ny as usize).unwrap();
                assert!(n.connects().contains(&d.reverse()));
            }
        }
    }
}

#[test]
fn rotate_adds_positions() {
    assert_eq!(CellOrientation::East.rotate(CellOrientation::South), CellOrientation::West);
    assert_eq!(CellOrientation::West.rotate(CellOrientation::East), CellOrientation::North);
    assert_eq!(CellOrientation::South.rotate(CellOrientation::North), CellOrientation::South);
}

#[test]
fn four_quarter_turns_and_double_reverse_are_identity() {
    for d in DIRS {
        let mut r = d;
        for _ in 0..4 {
            r = r.rotate(CellOrientation::East);
        }
        assert_eq!(r, d);
        assert_eq!(d.reverse().reverse(), d);
        assert_ne!(d.reverse(), d);
    }
    assert_eq!(CellOrientation::North.reverse(), CellOrientation::South);
    assert_eq!(CellOrientation::East.reverse(), CellOrientation::West);
}

#[test]
fn shift_and_step_from() {
    assert_eq!(CellOrientation::North.shift(), (0, 1));
    assert_eq!(CellOrientation::East.shift(), (1, 0));
    assert_eq!(CellOrientation::South.shift(), (0, -1));
    assert_eq!(CellOrientation::West.shift(), (-1, 0));
    assert_eq!(CellOrientation::North.step_from(0, 0), Some((0, 1)));
    assert_eq!(CellOrientation::East.step_from(0, 0), Some((1, 0)));
    assert_eq!(CellOrientation::South.step_from(0, 0), None);
    assert_eq!(CellOrientation::West.step_from(0, 0), None);
    assert_eq!(CellOrientation::South.step_from(3, 2), Some((3, 1)));
    assert_eq!(CellOrientation::West.step_from(3, 2), Some((2, 2)));
}

#[test]
fn connections_have_the_shape_degree_in_every_orientation() {
    for v in SHAPES {
        for o in DIRS {
            let conns = cell(v, o).connects();
            assert_eq!(conns.len(), degree(v));
            for i in 0..conns.len() {
                for j in 0..i {
                    assert_ne!(conns[i], conns[j]);
                }
            }
        }
    }
}

#[test]
fn connections_are_the_base_ends_rotated() {
    assert_eq!(cell(CellVersion::Single, CellOrientation::West).connects(), vec![CellOrientation::West]);
    assert_eq!(
        cell(CellVersion::Angle, CellOrientation::East).connects(),
        vec![CellOrientation::East, CellOrientation::South]
    );
    assert_eq!(
        cell(CellVersion::Line, CellOrientation::East).connects(),
        vec![CellOrientation::East, CellOrientation::West]
    );
    assert_eq!(
        cell(CellVersion::Triple, CellOrientation::South).connects(),
        vec![CellOrientation::West, CellOrientation::North, CellOrientation::East]
    );
}

#[test]
fn matches_constraints_checks_every_entry() {
    let c = cell(CellVersion::Angle, CellOrientation::North);
    assert!(c.matches_constraints(&vec![]));
    assert!(c.matches_constraints(&vec![(CellOrientation::North, true), (CellOrientation::South, false)]));
    assert!(!c.matches_constraints(&vec![(CellOrientation::North, true), (CellOrientation::East, false)]));
    assert!(!c.matches_constraints(&vec![(CellOrientation::West, true)]));
    // contradictory entries cannot be met
    assert!(!c.matches_constraints(&vec![(CellOrientation::North, true), (CellOrientation::North, false)]));
}

#[test]
fn all_possible_is_every_shape_in_every_orientation() {
    let all = Cell::all_possible();
    assert_eq!(all.len(), 16);
    let mut k = 0;
    for v in SHAPES {
        for o in DIRS {
            assert_eq!(all[k], cell(v, o));
            k += 1;
        }
    }
}

#[test]
fn no_configuration_is_closed_on_every_side() {
    let walls: Vec<(CellOrientation, bool)> = DIRS.iter().map(|d| (*d, false)).collect();
    assert!(Cell::matching_configurations(&walls).is_empty());
    let mut rng = StdRng::seed_from_u64(1);
    assert_eq!(
        Cell::random_that_matches_constraints(walls, &mut rng),
        Err(GameError::NoMatchingConfiguration)
    );
}

#[test]
fn random_cell_meets_the_constraints() {
    let cs = vec![
        (CellOrientation::North, true),
        (CellOrientation::East, true),
        (CellOrientation::South, true),
        (CellOrientation::West, false),
    ];
    assert_eq!(Cell::matching_configurations(&cs), vec![cell(CellVersion::Triple, CellOrientation::West)]);
    for seed in 0..10 {
        let mut rng = StdRng::seed_from_u64(seed);
        let c = Cell::random_that_matches_constraints(cs.clone(), &mut rng).unwrap();
        assert_eq!(c, cell(CellVersion::Triple, CellOrientation::West));
    }
    let open_north = vec![(CellOrientation::North, true)];
    assert_eq!(Cell::matching_configurations(&open_north).len(), 8);
    for seed in 0..20 {
        let mut rng = StdRng::seed_from_u64(seed);
        let c = Cell::random_that_matches_constraints(open_north.clone(), &mut rng).unwrap();
        assert!(c.matches_constraints(&open_north));
        assert!(!c.locked && !c.powered);
    }
}

#[test]
fn new_board_is_blank() {
    let game = Game::new(3, 2);
    assert_eq!(game.width, 3);
    assert_eq!(game.height, 2);
    assert_eq!(game.grid.len(), 6);
    for y in 0..2 {
        for x in 0..3 {
            assert_eq!(*game.get_cell(x, y).unwrap(), cell(CellVersion::Single, CellOrientation::North));
        }
    }
    assert!(game.get_cell(3, 0).is_none());
    assert!(game.get_cell(0, 2).is_none());
}

#[test]
fn set_cell_replaces_in_bounds_only() {
    let mut game = Game::new(3, 2);
    let c = Cell { version: CellVersion::Line, orientation: CellOrientation::East, locked: true, powered: true };
    assert_eq!(game.set_cell(2, 1, c), Ok(()));
    assert_eq!(*game.get_cell(2, 1).unwrap(), c);
    assert_eq!(game.grid[2 + 3 * 1], c);
    assert_eq!(game.set_cell(3, 1, c), Err(GameError::InvalidCell));
    assert_eq!(game.set_cell(0, 2, c), Err(GameError::InvalidCell));
}

#[test]
fn set_cell_orientation_respects_the_lock() {
    let mut game = Game::new(2, 2);
    assert_eq!(game.set_cell_orientation(1, 0, CellOrientation::South), Ok(()));
    let c = *game.get_cell(1, 0).unwrap();
    assert_eq!(c.orientation, CellOrientation::South);
    assert_eq!(c.version, CellVersion::Single);
    assert!(!c.locked && !c.powered);

    assert_eq!(game.set_lock(1, 0, true), Ok(()));
    assert_eq!(
        game.set_cell_orientation(1, 0, CellOrientation::West),
        Err(GameError::CellIsLocked)
    );
    assert_eq!(game.get_cell(1, 0).unwrap().orientation, CellOrientation::South);
    assert_eq!(
        game.set_cell_orientation(2, 0, CellOrientation::West),
        Err(GameError::InvalidCell)
    );
}

#[test]
fn lock_and_power_flags() {
    let mut game = Game::new(2, 2);
    assert_eq!(game.set_lock(0, 1, true), Ok(()));
    assert!(game.get_cell(0, 1).unwrap().locked);
    assert_eq!(game.set_lock(0, 1, false), Ok(()));
    assert!(!game.get_cell(0, 1).unwrap().locked);
    assert_eq!(game.power_cell(1, 1), Ok(()));
    assert!(game.get_cell(1, 1).unwrap().powered);
    assert!(!game.get_cell(0, 0).unwrap().powered);
    assert_eq!(game.set_lock(2, 0, true), Err(GameError::InvalidCell));
    assert_eq!(game.power_cell(0, 2), Err(GameError::InvalidCell));
}

#[test]
fn neighbors_in_direction_order() {
    let game = Game::new(3, 3);
    let corner = game.get_neighbors(0, 0);
    let dirs: Vec<CellOrientation> = corner.iter().map(|(d, _)| *d).collect();
    assert_eq!(dirs, vec![CellOrientation::North, CellOrientation::East]);
    let center = game.get_neighbors(1, 1);
    assert_eq!(center.len(), 4);
    let far = game.get_neighbors(2, 2);
    let dirs: Vec<CellOrientation> = far.iter().map(|(d, _)| *d).collect();
    assert_eq!(dirs, vec![CellOrientation::South, CellOrientation::West]);
    assert!(game.get_neighbor_at_direction(0, 0, CellOrientation::West).is_none());
    assert!(game.get_neighbor_at_direction(2, 1, CellOrientation::East).is_none());
    assert!(game.get_neighbor_at_direction(2, 1, CellOrientation::West).is_some());
}

#[test]
fn cell_constraints_from_walls_and_locked_neighbors() {
    let mut game = Game::new(3, 3);
    assert_eq!(
        game.get_cell_constraints(0, 0),
        vec![(CellOrientation::South, false), (CellOrientation::West, false)]
    );
    // a locked Single to the East facing West asks for a connection
    game.set_cell(1, 0, Cell { version: CellVersion::Single, orientation: CellOrientation::West, locked: true, powered: false }).unwrap();
    // a locked Single to the North facing North asks for none
    game.set_cell(0, 1, Cell { version: CellVersion::Single, orientation: CellOrientation::North, locked: true, powered: false }).unwrap();
    let first = game.get_cell_constraints(0, 0);
    assert_eq!(
        first,
        vec![
            (CellOrientation::North, false),
            (CellOrientation::East, true),
            (CellOrientation::South, false),
            (CellOrientation::West, false),
        ]
    );
    let second = game.get_cell_constraints(0, 0);
    assert_eq!(first, second);
    assert!(game.get_cell_constraints(1, 1).len() == 2);
}

#[test]
fn non_locked_connections_follow_the_ends() {
    let mut game = Game::new(3, 3);
    game.set_cell(1, 1, cell(CellVersion::Triple, CellOrientation::North)).unwrap();
    game.set_lock(2, 1, true).unwrap();
    // Triple/North connects East, South, West; East is locked
    assert_eq!(game.get_non_locked_connections(1, 1), vec![(1, 0), (0, 1)]);
    // a Single at the corner pointing off the board opens toward nothing
    game.set_cell(0, 0, cell(CellVersion::Single, CellOrientation::South)).unwrap();
    assert!(game.get_non_locked_connections(0, 0).is_empty());
}

#[test]
fn cells_are_row_major() {
    let game = Game::new(3, 2);
    let pos: Vec<(usize, usize)> = game.cells().iter().map(|(x, y, _)| (*x, *y)).collect();
    assert_eq!(pos, vec![(0, 0), (1, 0), (2, 0), (0, 1), (1, 1), (2, 1)]);
}

#[test]
fn random_invalid_is_unlocked_and_sized() {
    let mut rng = StdRng::seed_from_u64(3);
    let game = Game::random_invalid(4, 3, &mut rng);
    assert_eq!(game.grid.len(), 12);
    assert!(game.cells().iter().all(|(_, _, c)| !c.locked && !c.powered));
}

#[test]
fn generated_boards_are_locked_everywhere() {
    for seed in 0..40 {
        let mut rng = StdRng::seed_from_u64(seed);
        for (w, h) in [(5, 5), (2, 1), (1, 2), (3, 4), (7, 2)] {
            let game = Game::random_valid(w, h, &mut rng);
            assert!(game.cells().iter().all(|(_, _, c)| c.locked), "seed {} size {}x{}", seed, w, h);
        }
    }
}

#[test]
fn generated_connections_are_mutual_and_on_board() {
    for seed in 0..40 {
        let mut rng = StdRng::seed_from_u64(seed);
        for (w, h) in [(5, 5), (1, 2), (4, 3), (11, 11), (6, 1)] {
            let game = Game::random_valid(w, h, &mut rng);
            assert_eq!(game.width, w);
            assert_eq!(game.height, h);
            assert_mutual(&game);
        }
    }
}

#[test]
fn two_cells_side_by_side_connect_once() {
    for seed in 0..20 {
        let mut rng = StdRng::seed_from_u64(seed);
        let game = Game::random_valid(2, 1, &mut rng);
        let left = game.get_cell(0, 0).unwrap();
        let right = game.get_cell(1, 0).unwrap();
        assert_eq!(left.connects(), vec![CellOrientation::East]);
        assert_eq!(right.connects(), vec![CellOrientation::West]);
        assert!(left.locked && right.locked);
    }
}

#[test]
fn many_five_by_five_boards_generate() {
    for seed in 0..200 {
        let mut rng = StdRng::seed_from_u64(seed);
        let game = Game::random_valid(5, 5, &mut rng);
        assert_eq!(game.grid.len(), 25);
        assert_mutual(&game);
    }
}

#[test]
fn power_reaches_only_the_center_of_a_blank_board() {
    let game = Game::new(3, 3);
    assert_eq!(game.powered_cells(), vec![(1, 1)]);
}

#[test]
fn power_follows_mutual_connections() {
    let mut game = Game::new(3, 1);
    // (1, 0) is the center; a Line facing East joins it to both sides
    game.set_cell(1, 0, cell(CellVersion::Line, CellOrientation::East)).unwrap();
    game.set_cell(0, 0, cell(CellVersion::Single, CellOrientation::East)).unwrap();
    assert_eq!(game.powered_cells(), vec![(1, 0), (0, 0)]);
    game.set_cell(2, 0, cell(CellVersion::Single, CellOrientation::West)).unwrap();
    assert_eq!(game.powered_cells(), vec![(1, 0), (2, 0), (0, 0)]);
}

#[test]
fn generated_boards_form_one_network() {
    for seed in 0..30 {
        let mut rng = StdRng::seed_from_u64(seed);
        let game = Game::random_valid(6, 4, &mut rng);
        let powered = game.powered_cells();
        assert_eq!(powered.len(), 24, "seed {}", seed);
    }
}

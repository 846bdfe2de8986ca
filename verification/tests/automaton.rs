use rust_ca::automaton::tiled_automaton::duplicate_array_tiled;
use rust_ca::automaton::{
    duplicate_array, parse_pattern, Automaton, AutomatonImpl, AutomatonIterator, PatternError,
    PatternSpec, TiledAutomaton, TiledAutomatonIterator, TILE_SIZE,
};
use rust_ca::rule::Rule;

fn get_random_auto(size: usize, states: u8) -> Automaton {
    let rule = Rule::random(1, states);
    let mut a = Automaton::new(states, size, vec![0; size * size], rule);
    a.random_init();
    a
}

fn get_random_base_auto(size: usize, states: u8) -> Automaton {
    let rule = Rule::random(1, states);
    let mut a: Automaton = AutomatonImpl::new(states, size, rule);
    a.random_init();
    a
}

fn get_random_tiled_auto(size: usize, states: u8) -> TiledAutomaton {
    let rule = Rule::random(1, states);
    let mut a = TiledAutomaton::new(states, size, rule);
    a.random_init();
    a
}

/// The rows of a grid as a pattern that covers the whole grid.
fn whole_grid_pattern(grid: &[u8], size: usize, states: u8) -> PatternSpec {
    PatternSpec {
        states,
        background: 0,
        pattern: grid.chunks(size).map(|row| row.to_vec()).collect(),
    }
}

/// One step of a rule of radius one, by looking up every neighbour on the torus.
fn naive_step(grid: &[u8], size: usize, states: u8, rule: &Rule) -> Vec<u8> {
    let n = size as i64;
    let mut next = vec![0u8; size * size];
    for i in 0..n {
        for j in 0..n {
            let mut ind = 0usize;
            let mut pw = 0u32;
            for a in -1i64..=1 {
                for b in -1i64..=1 {
                    let r = (i + a).rem_euclid(n) as usize;
                    let c = (j + b).rem_euclid(n) as usize;
                    ind += (states as usize).pow(pw) * grid[r * size + c] as usize;
                    pw += 1;
                }
            }
            next[(i * n + j) as usize] = rule.table()[ind];
        }
    }
    next
}

#[test]
fn automaton_update_should_apply_rule() {
    let mut a = get_random_auto(32, 2);
    let b1 = a.flop();
    a.update();
    assert_ne!(b1, a.flop());
}

#[test]
fn automaton_base_update_should_apply_rule() {
    let mut a = get_random_base_auto(32, 2);
    let b1 = a.flop();
    AutomatonImpl::update(&mut a);
    assert_ne!(b1, a.flop());
}

#[test]
fn tiled_automaton_update_should_apply_rule() {
    let mut a = get_random_tiled_auto(32, 2);
    let b1 = a.flop();
    a.update();
    assert_ne!(b1, a.flop());
}

#[test]
fn update_toggles_the_buffers_every_time() {
    let mut a = get_random_auto(8, 3);
    let mut t = get_random_tiled_auto(256, 3);
    for _ in 0..3 {
        let (fa, ft) = (a.flop(), t.flop());
        a.update();
        t.update();
        assert_eq!(a.flop(), !fa);
        assert_eq!(t.flop(), !ft);
    }
}

#[test]
fn isolated_live_cell_dies() {
    let mut grid = vec![0u8; 25];
    grid[12] = 1;
    let mut a = Automaton::new(2, 5, grid, Rule::gol());
    a.update();
    let after = a.cells().clone();
    assert_eq!(after[12], 0);
    for k in [7, 11, 13, 17] {
        assert_eq!(after[k], 0);
    }
    assert_eq!(after, vec![0u8; 25]);
}

#[test]
fn blinker_oscillates_and_previous_buffer_keeps_the_old_grid() {
    let mut grid = vec![0u8; 25];
    grid[11] = 1;
    grid[12] = 1;
    grid[13] = 1;
    let mut a = Automaton::new(2, 5, grid.clone(), Rule::gol());
    a.update();
    let mut upright = vec![0u8; 25];
    upright[7] = 1;
    upright[12] = 1;
    upright[17] = 1;
    assert_eq!(a.cells(), &upright);
    assert_eq!(a.prev_grid(), &grid);
    a.update();
    assert_eq!(a.cells(), &grid);
}

#[test]
fn glider_wraps_around_the_torus() {
    // A glider on a 6 by 6 torus is back where it was after 24 steps.
    let mut grid = vec![0u8; 36];
    for (r, c) in [(0, 1), (1, 2), (2, 0), (2, 1), (2, 2)] {
        grid[r * 6 + c] = 1;
    }
    let mut a = Automaton::new(2, 6, grid.clone(), Rule::gol());
    for step in 1..=24 {
        a.update();
        assert_eq!(a.cells().iter().filter(|&&s| s == 1).count(), 5);
        if step % 24 != 0 {
            assert_ne!(a.cells(), &grid);
        }
    }
    assert_eq!(a.cells(), &grid);
}

#[test]
fn flat_update_is_the_naive_toroidal_step() {
    for (size, states) in [(1usize, 2u8), (2, 2), (3, 3), (7, 3), (16, 4)] {
        let mut a = get_random_auto(size, states);
        for _ in 0..3 {
            let before = a.cells().clone();
            let rule = a.rule().clone();
            a.update();
            assert_eq!(a.cells(), &naive_step(&before, size, states, &rule));
        }
    }
}

#[test]
fn single_updates_write_one_cell_of_the_other_buffer() {
    let mut a = get_random_auto(8, 2);
    let grid = a.cells().clone();
    let rule = a.rule().clone();
    let expected = naive_step(&grid, 8, 2, &rule);
    let other = a.prev_grid().clone();
    a.single_update(3, 4);
    a.single_update_bound_check(0, 7);
    assert_eq!(a.cells(), &grid);
    for k in 0..64 {
        if k == 3 * 8 + 4 || k == 7 {
            assert_eq!(a.prev_grid()[k], expected[k]);
        } else {
            assert_eq!(a.prev_grid()[k], other[k]);
        }
    }
}

#[test]
fn wider_neighbourhoods_are_run_by_the_flat_engine() {
    // Radius two, two states: the rule that copies the cell two rows up and
    // two columns to the left, which is the first neighbour.
    let table: Vec<u8> = (0..1usize << 25).map(|i| (i & 1) as u8).collect();
    let rule = Rule::new(2, 2, table);
    let mut grid = vec![0u8; 49];
    grid[0] = 1;
    let mut a = Automaton::new(2, 7, grid, rule);
    a.update();
    let mut expected = vec![0u8; 49];
    expected[2 * 7 + 2] = 1;
    assert_eq!(a.cells(), &expected);
    for _ in 0..3 {
        a.update();
    }
    let mut expected = vec![0u8; 49];
    expected[1 * 7 + 1] = 1;
    assert_eq!(a.cells(), &expected);
}

#[test]
fn flat_and_tiled_agree_for_ten_steps() {
    for (size, states) in [(256usize, 2u8), (512, 3)] {
        let rule = Rule::random(1, states);
        let mut flat = Automaton::new(states, size, vec![0; size * size], rule.clone());
        flat.random_init();
        let mut tiled = TiledAutomaton::new(states, size, rule);
        tiled
            .init_from_pattern(&whole_grid_pattern(flat.cells(), size, states))
            .unwrap();
        assert_eq!(&tiled.cells(), flat.cells());
        for _ in 0..10 {
            flat.update();
            tiled.update();
            assert_eq!(&tiled.cells(), flat.cells());
        }
    }
}

#[test]
fn tiled_game_of_life_matches_the_naive_step_across_tile_borders() {
    // A blinker that straddles the corner where four tiles meet.
    let size = 512;
    let mut grid = vec![0u8; size * size];
    for c in [255, 256, 257] {
        grid[256 * size + c] = 1;
    }
    grid[0] = 1;
    grid[1] = 1;
    grid[size] = 1;
    grid[size * size - 1] = 1;
    let mut tiled = TiledAutomaton::new(2, size, Rule::gol());
    tiled
        .init_from_pattern(&whole_grid_pattern(&grid, size, 2))
        .unwrap();
    let mut expected = grid.clone();
    for _ in 0..4 {
        tiled.update();
        expected = naive_step(&expected, size, 2, &Rule::gol());
        assert_eq!(tiled.cells(), expected);
    }
    assert_eq!(expected[255 * size + 256], 0);
    assert_eq!(expected[256 * size + 255], 1);
}

#[test]
fn tiled_copies_of_shared_cells_agree() {
    let mut tiled = get_random_tiled_auto(512, 3);
    for round in 0..3 {
        let n = tiled.n_tiles();
        assert_eq!(n, 2);
        let tiles = TiledAutomaton::grid(&mut tiled).clone();
        for tx in 0..n {
            for ty in 0..n {
                let below = &tiles[((tx + 1) % n) * n + ty];
                let right = &tiles[tx * n + (ty + 1) % n];
                let here = &tiles[tx * n + ty];
                for k in 0..TILE_SIZE {
                    assert_eq!(here[256 * TILE_SIZE + k], below[k], "round {}", round);
                    assert_eq!(here[k * TILE_SIZE + 256], right[k * TILE_SIZE], "round {}", round);
                }
            }
        }
        tiled.update();
    }
}

#[test]
fn tiled_automaton_of_a_small_size_has_no_tiles() {
    let mut a = TiledAutomaton::new(2, 32, Rule::gol());
    assert_eq!(a.size(), 32);
    assert_eq!(a.n_tiles(), 0);
    assert_eq!(a.cells(), Vec::<u8>::new());
    a.update();
    assert_eq!(a.cells(), Vec::<u8>::new());
}

#[test]
fn random_init_draws_states_of_the_automaton() {
    let mut a = get_random_auto(16, 3);
    assert!(a.cells().iter().all(|&s| s < 3));
    assert!(a.is_well_formed());
    a.grid_mut()[5] = 3;
    assert!(!a.is_well_formed());
    let t = get_random_tiled_auto(256, 2);
    assert_eq!(t.cells().len(), 256 * 256);
    assert!(t.cells().iter().all(|&s| s < 2));
}

#[test]
fn bounded_iterator_yields_the_declared_number_of_snapshots() {
    let mut a = get_random_auto(8, 2);
    let start = a.cells().clone();
    let rule = a.rule().clone();
    let second = naive_step(&naive_step(&start, 8, 2, &rule), 8, 2, &rule);
    let third = naive_step(&naive_step(&second, 8, 2, &rule), 8, 2, &rule);
    let mut it = a.skipped_iter(3, 2);
    assert_eq!(it.next(), Some(start));
    assert_eq!(it.next(), Some(second));
    assert_eq!(it.next(), Some(third.clone()));
    assert_eq!(it.next(), None);
    assert_eq!(it.next(), None);
    // Every snapshot was followed by two updates.
    let after = naive_step(&naive_step(&third, 8, 2, &rule), 8, 2, &rule);
    assert_eq!(a.cells(), &after);
}

#[test]
fn iterator_with_no_skip_repeats_the_grid_and_still_ends() {
    let mut a = get_random_auto(4, 2);
    let start = a.cells().clone();
    let mut it = a.skipped_iter(2, 0);
    assert_eq!(it.next(), Some(start.clone()));
    assert_eq!(it.next(), Some(start));
    assert_eq!(it.next(), None);
}

#[test]
fn unbounded_iterator_does_not_end() {
    let mut a = get_random_auto(4, 2);
    let mut it = AutomatonIterator {
        autom: &mut a,
        skip: 1,
        steps: None,
        ct: 0,
    };
    for _ in 0..50 {
        assert!(it.next().is_some());
    }
    assert_eq!(it.ct, 0);
}

#[test]
fn tiled_iterator_yields_flat_snapshots() {
    let mut flat = get_random_auto(256, 2);
    let rule = flat.rule().clone();
    let mut tiled = TiledAutomaton::new(2, 256, rule);
    tiled
        .init_from_pattern(&whole_grid_pattern(flat.cells(), 256, 2))
        .unwrap();
    let mut fit = flat.skipped_iter(2, 3);
    let mut tit = tiled.skipped_iter(2, 3);
    for _ in 0..2 {
        let snapshot = tit.next();
        assert!(snapshot.is_some());
        assert_eq!(snapshot, fit.next());
    }
    assert_eq!(tit.next(), None);
    assert_eq!(tit.ct, 2);
    let mut endless = TiledAutomatonIterator {
        autom: &mut tiled,
        skip: 0,
        steps: None,
        ct: 7,
    };
    assert!(endless.next().is_some());
    assert_eq!(endless.ct, 7);
}

#[test]
fn duplicate_array_repeats_every_cell() {
    let grid = vec![1u8, 2, 3, 4];
    assert_eq!(duplicate_array(&grid, 2, 1), grid);
    assert_eq!(duplicate_array(&grid, 2, 0), grid);
    assert_eq!(
        duplicate_array(&grid, 2, 2),
        vec![1, 1, 2, 2, 1, 1, 2, 2, 3, 3, 4, 4, 3, 3, 4, 4]
    );
    let tripled = duplicate_array(&grid, 2, 3);
    assert_eq!(tripled.len(), 36);
    assert_eq!(tripled[2 * 6 + 3], 2);
    assert_eq!(tripled[3 * 6 + 2], 3);
}

#[test]
fn duplicate_array_tiled_flattens_the_tiles() {
    let mut tiled = get_random_tiled_auto(256, 4);
    let cells = tiled.cells();
    let tiles = TiledAutomaton::grid(&mut tiled).clone();
    assert_eq!(duplicate_array_tiled(&tiles, 256, 1), cells);
    assert_eq!(duplicate_array_tiled(&tiles, 256, 0), Vec::<u8>::new());
    let doubled = duplicate_array_tiled(&tiles, 256, 2);
    assert_eq!(doubled.len(), 512 * 512);
    for (a, b) in [(0usize, 0usize), (1, 1), (3, 510), (511, 2), (255, 256)] {
        assert_eq!(doubled[a * 512 + b], cells[(a / 2) * 256 + b / 2]);
    }
}

#[test]
fn pattern_file_is_read_line_by_line() {
    let text = b"comment line\nN=3\nBG=1\nX=12\n#\n012\n20\n\n#\nN=4\n";
    let spec = parse_pattern(text).unwrap();
    assert_eq!(spec.states, 4);
    assert_eq!(spec.background, 1);
    assert_eq!(spec.pattern, vec![vec![0, 1, 2], vec![2, 0], vec![]]);
    assert_eq!(spec.width(), 3);

    let spec = parse_pattern(b"").unwrap();
    assert_eq!((spec.states, spec.background), (0, 0));
    assert!(spec.pattern.is_empty());

    // Carriage returns before line feeds, a sign, a second `=`, no line feed
    // at the end, and characters above `9`.
    let spec = parse_pattern(b"N=+007=5\r\nBG=0\r\n#\r\n0:A\r\n1").unwrap();
    assert_eq!(spec.states, 7);
    assert_eq!(spec.background, 0);
    assert_eq!(spec.pattern, vec![vec![0, 10, 17], vec![1]]);
}

#[test]
fn malformed_pattern_files_are_format_errors() {
    for text in [
        &b"N=\n"[..],
        b"N=abc\n",
        b"N=256\n",
        b"N= 3\n",
        b"N=-1\n",
        b"N=+\n",
        b"BG=3x\n",
        b"BG=1000000000000000000000\n",
        b"#\n01 0\n#\n",
        b"#\n0\xc3\xa9\n",
    ] {
        assert!(matches!(
            parse_pattern(text),
            Err(PatternError::PatternFormatError)
        ));
    }
    assert_eq!(
        PatternError::PatternFormatError.message(),
        "incorrect pattern format in file"
    );
    let io = std::io::Error::from(std::io::ErrorKind::NotFound);
    let err = PatternError::from(io);
    assert!(matches!(err, PatternError::PatternFileError(_)));
    assert_eq!(err.message(), "io error with the pattern file");
}

#[test]
fn pattern_is_laid_in_the_middle_of_the_grid() {
    let spec = parse_pattern(b"N=2\nBG=0\n#\n11\n1\n#\n").unwrap();
    let mut a = Automaton::new(2, 5, vec![1; 25], Rule::gol());
    assert!(a.init_from_pattern(&spec).is_ok());
    let mut expected = vec![0u8; 25];
    expected[1 * 5 + 1] = 1;
    expected[1 * 5 + 2] = 1;
    expected[2 * 5 + 1] = 1;
    assert_eq!(a.cells(), &expected);

    let mut t = TiledAutomaton::new(2, 256, Rule::gol());
    assert!(t.init_from_pattern(&spec).is_ok());
    let cells = t.cells();
    assert_eq!(cells.iter().filter(|&&s| s == 1).count(), 3);
    assert_eq!(cells[127 * 256 + 127], 1);
    assert_eq!(cells[127 * 256 + 128], 1);
    assert_eq!(cells[128 * 256 + 127], 1);
}

#[test]
fn pattern_larger_than_the_grid_is_clipped() {
    let spec = PatternSpec {
        states: 3,
        background: 2,
        pattern: vec![
            vec![0, 1, 0, 1, 0, 1],
            vec![1, 1, 1],
            vec![0, 0, 0, 0, 0, 0],
            vec![1, 0, 1, 0, 1, 0],
            vec![1],
        ],
    };
    let rule = Rule::random(1, 3);
    let mut a = Automaton::new(3, 2, vec![0; 4], rule);
    assert!(a.init_from_pattern(&spec).is_ok());
    // Rows 1 and 2 and columns 2 and 3 of the pattern lie on the grid; row 1
    // is too short to reach column 3.
    assert_eq!(a.cells(), &vec![1, 2, 0, 0]);
}

#[test]
fn pattern_that_does_not_suit_the_states_is_refused() {
    let mut a = Automaton::new(2, 3, vec![1; 9], Rule::gol());
    for spec in [
        PatternSpec { states: 3, background: 0, pattern: vec![] },
        PatternSpec { states: 2, background: 2, pattern: vec![] },
        PatternSpec { states: 2, background: 0, pattern: vec![vec![0], vec![1, 2]] },
    ] {
        assert!(!spec.suits(2));
        assert!(matches!(
            a.init_from_pattern(&spec),
            Err(PatternError::PatternFormatError)
        ));
        assert_eq!(a.cells(), &vec![1u8; 9]);
    }
    let mut t = TiledAutomaton::new(2, 256, Rule::gol());
    let spec = PatternSpec { states: 3, background: 0, pattern: vec![] };
    assert!(matches!(
        AutomatonImpl::init_from_pattern(&mut t, &spec),
        Err(PatternError::PatternFormatError)
    ));
}

#[test]
fn engines_behind_the_trait() {
    fn run<T: AutomatonImpl>(size: usize) -> Vec<u8> {
        let mut a = T::from_rule(Rule::gol(), size);
        assert_eq!(a.size(), size);
        assert_eq!(a.states(), 2);
        let blinker = PatternSpec {
            states: 2,
            background: 0,
            pattern: vec![vec![1, 1, 1]],
        };
        a.init_from_pattern(&blinker).unwrap();
        a.update();
        a.grid()
    }
    let flat = run::<Automaton>(256);
    let tiled = run::<TiledAutomaton>(256);
    assert_eq!(flat, tiled);
    assert_eq!(flat.iter().filter(|&&s| s == 1).count(), 3);
    assert_eq!(flat[127 * 256 + 128], 1);
    assert_eq!(flat[128 * 256 + 128], 1);
    assert_eq!(flat[129 * 256 + 128], 1);
}

#[test]
fn tiled_well_formedness_is_told_at_run_time() {
    let mut t = get_random_tiled_auto(512, 2);
    assert!(t.is_well_formed());
    t.update();
    assert!(t.is_well_formed());
    // One copy of a shared cell is changed and the others are not.
    let seam = 256 * TILE_SIZE + 5;
    let old = TiledAutomaton::grid(&mut t)[0][seam];
    TiledAutomaton::grid(&mut t)[0][seam] = 1 - old;
    assert!(!t.is_well_formed());
    TiledAutomaton::grid(&mut t)[0][seam] = old;
    assert!(t.is_well_formed());
    // A cell that no other tile shares takes a value that is no state.
    TiledAutomaton::grid(&mut t)[3][TILE_SIZE + 1] = 2;
    assert!(!t.is_well_formed());
    TiledAutomaton::grid(&mut t)[3][TILE_SIZE + 1] = 0;
    assert!(t.is_well_formed());
    TiledAutomaton::grid(&mut t).pop();
    assert!(!t.is_well_formed());
}

#[test]
fn automaton_is_indexed_by_cell() {
    let mut grid = vec![0u8; 9];
    grid[4] = 1;
    grid[8] = 1;
    let mut a = Automaton::new(2, 3, grid, Rule::gol());
    assert_eq!((a[0], a[4], a[8]), (0, 1, 1));
    a.update();
    let cells = a.cells().clone();
    for k in 0..9 {
        assert_eq!(a[k], cells[k]);
    }
}

#[test]
fn set_cell_writes_every_copy_of_a_cell() {
    let mut a = Automaton::new(3, 4, vec![0; 16], Rule::random(1, 3));
    a.set_cell(2, 3, 2);
    let mut expected = vec![0u8; 16];
    expected[2 * 4 + 3] = 2;
    assert_eq!(a.cells(), &expected);

    let mut t = TiledAutomaton::new(3, 512, Rule::random(1, 3));
    t.set_cell(0, 0, 1);
    t.set_cell(256, 300, 2);
    t.set_cell(17, 256, 1);
    t.set_cell(511, 511, 2);
    let cells = t.cells();
    assert_eq!(cells.iter().filter(|&&s| s != 0).count(), 4);
    assert_eq!(cells[0], 1);
    assert_eq!(cells[256 * 512 + 300], 2);
    assert_eq!(cells[17 * 512 + 256], 1);
    assert_eq!(cells[511 * 512 + 511], 2);
    assert!(t.is_well_formed());
    let tiles = TiledAutomaton::grid(&mut t).clone();
    // The corner of the grid lies in all four tiles.
    assert_eq!(tiles[0][0], 1);
    assert_eq!(tiles[1][256], 1);
    assert_eq!(tiles[2][256 * TILE_SIZE], 1);
    assert_eq!(tiles[3][256 * TILE_SIZE + 256], 1);
    // A cell on the first row of the lower tiles lies on the last row of the
    // upper ones.
    assert_eq!(tiles[3][300 - 256], 2);
    assert_eq!(tiles[1][256 * TILE_SIZE + 300 - 256], 2);
    // A cell that no tiles share lies in one.
    assert_eq!(tiles[3][255 * TILE_SIZE + 255], 2);
    assert_eq!(tiles.iter().flatten().filter(|&&s| s == 2).count(), 3);
}

#[test]
fn well_formedness_behind_the_trait() {
    fn told<T: AutomatonImpl>(a: &T) -> bool {
        a.is_well_formed()
    }
    let mut a = get_random_auto(8, 2);
    assert!(told(&a));
    a.grid_mut()[3] = 2;
    assert!(!told(&a));
    let mut t = get_random_tiled_auto(256, 2);
    assert!(told(&t));
    TiledAutomaton::grid(&mut t)[0][0] = 2;
    assert!(!told(&t));
}

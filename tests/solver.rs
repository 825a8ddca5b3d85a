use wavetiles::cell::{WaveFunction, CellState, Narrowing};
use wavetiles::colour::{tile_colour, Colour, Paint};
use wavetiles::board::{Board, BoardError, Status};
use wavetiles::layout::neighbor;
use wavetiles::random::RandomSource;
use wavetiles::rules::{Direction, RuleTable, TileRule};

const A: u32 = 0xFF0000;
const B: u32 = 0x00FF00;
const C: u32 = 0x0000FF;

fn free_rules(palette: &[u32]) -> RuleTable {
    let mut t = RuleTable::new();
    for &v in palette {
        t.set_rule(v, TileRule::uniform(&palette.to_vec()));
    }
    t
}

fn values_of(g: &Board) -> Vec<u32> {
    g.cells
        .iter()
        .map(|c| match c.state {
            CellState::Resolved(v) => v,
            _ => panic!("cell not resolved"),
        })
        .collect()
}

#[test]
fn cell_new_drops_repeated_palette_values() {
    let c = WaveFunction::new(2, 3, &vec![A, B, A, C, B]);
    assert_eq!((c.x, c.y), (2, 3));
    assert_eq!(c.effective_values(), vec![A, B, C]);
    assert_eq!(c.entropy(), 3);
    assert!(c.is_unresolved());
}

#[test]
fn resolved_cell_has_zero_entropy_and_one_value() {
    let mut c = WaveFunction::new(0, 0, &vec![A, B, C]);
    c.collapse_to(1);
    assert!(c.is_resolved());
    assert!(!c.is_contradiction());
    assert_eq!(c.entropy(), 0);
    assert_eq!(c.effective_values(), vec![B]);
}

#[test]
fn restrict_reports_each_outcome() {
    let mut c = WaveFunction::new(0, 0, &vec![A, B, C]);
    assert_eq!(c.restrict(&vec![A, B, C, 7]), Narrowing::Unchanged);
    assert_eq!(c.effective_values(), vec![A, B, C]);
    assert_eq!(c.restrict(&vec![C, A]), Narrowing::Narrowed);
    assert_eq!(c.effective_values(), vec![A, C]);
    assert_eq!(c.restrict(&vec![C]), Narrowing::Singleton);
    assert_eq!(c.effective_values(), vec![C]);
    assert!(c.is_unresolved());
    assert_eq!(c.restrict(&vec![B]), Narrowing::BecameEmpty);
    assert!(c.is_contradiction());
    assert!(!c.is_resolved());
    assert_eq!(c.entropy(), 0);
    assert!(c.effective_values().is_empty());
}

#[test]
fn restrict_never_grows_the_candidates() {
    let mut c = WaveFunction::new(0, 0, &vec![A, B]);
    c.restrict(&vec![B, C]);
    assert_eq!(c.effective_values(), vec![B]);
}

#[test]
fn collapse_follows_the_script() {
    let mut c = WaveFunction::new(0, 0, &vec![A, B, C]);
    let mut rng = RandomSource::scripted(vec![5]);
    c.collapse(&mut rng);
    assert_eq!(c.effective_values(), vec![C]);
}

#[test]
fn scripted_source_answers_in_order_then_zero() {
    let mut rng = RandomSource::scripted(vec![7, 2]);
    assert_eq!(rng.pick(5), 2);
    assert_eq!(rng.pick(5), 2);
    assert_eq!(rng.pick(5), 0);
}

#[test]
fn thread_source_stays_below_the_bound() {
    let mut rng = RandomSource::thread();
    let mut seen = [false; 4];
    for _ in 0..400 {
        let k = rng.pick(4);
        assert!(k < 4);
        seen[k] = true;
    }
    assert!(seen.iter().all(|s| *s));
}

#[test]
fn rule_table_replaces_a_rule() {
    let mut t = RuleTable::new();
    t.set_rule(A, TileRule::uniform(&vec![A]));
    t.set_rule(A, TileRule::new(vec![B], vec![C], vec![A], vec![]));
    assert_eq!(t.entries.len(), 1);
    assert!(t.has_rule(A));
    assert!(!t.has_rule(B));
    assert!(t.allows(A, Direction::Up, B));
    assert!(!t.allows(A, Direction::Up, A));
    assert!(t.allows(A, Direction::Right, C));
    assert!(!t.allows(A, Direction::Left, A));
    t.set_rule(B, TileRule::uniform(&vec![A, B, C]));
    t.set_rule(C, TileRule::uniform(&vec![]));
    assert!(t.supports(A, Direction::Up, &vec![C, B]));
    assert!(!t.supports(A, Direction::Down, &vec![C, B]));
    // A lets C stand on its right, but C lets nothing stand beside it
    assert!(!t.supports(A, Direction::Right, &vec![C]));
}

#[test]
fn grid_rejects_bad_configuration() {
    let rules = free_rules(&[A, B]);
    assert_eq!(Board::new(0, 3, vec![A, B], rules.clone()).err(), Some(BoardError::ZeroSize));
    assert_eq!(Board::new(3, 0, vec![A, B], rules.clone()).err(), Some(BoardError::ZeroSize));
    assert_eq!(Board::new(usize::MAX, 2, vec![A, B], rules.clone()).err(), Some(BoardError::TooLarge));
    assert_eq!(Board::new(2, 2, vec![], rules.clone()).err(), Some(BoardError::EmptyPalette));
    assert_eq!(Board::new(2, 2, vec![A, C], rules).err(), Some(BoardError::MissingRule(C)));
}

#[test]
fn new_board_starts_open_with_the_whole_palette() {
    let mut rules = RuleTable::new();
    rules.set_rule(A, TileRule::uniform(&vec![]));
    rules.set_rule(B, TileRule::uniform(&vec![]));
    let g = Board::new(2, 1, vec![A, B, A], rules).unwrap();
    assert_eq!(g.cells.len(), 2);
    assert_eq!((g.cells[1].x, g.cells[1].y), (1, 0));
    for c in &g.cells {
        assert!(c.is_unresolved());
        assert_eq!(c.entropy(), 2);
    }
    assert!(!g.settled);
}

#[test]
fn resolved_cells_survive_propagation() {
    let mut rules = RuleTable::new();
    rules.set_rule(A, TileRule::uniform(&vec![A]));
    rules.set_rule(B, TileRule::uniform(&vec![B]));
    let mut g = Board::new(2, 1, vec![A, B], rules).unwrap();
    g.cells[0].collapse_to(0);
    g.cells[1].collapse_to(1);
    g.settled = true;
    assert!(g.propogate(vec![0, 1]));
    assert_eq!(g.cells[0].effective_values(), vec![A]);
    assert_eq!(g.cells[1].effective_values(), vec![B]);
}

#[test]
fn cell_at_checks_bounds() {
    let g = Board::new(3, 2, vec![A, B], free_rules(&[A, B])).unwrap();
    let c = g.cell_at(2, 1).unwrap();
    assert_eq!((c.x, c.y), (2, 1));
    assert_eq!(g.cell_at(3, 0).err(), Some(BoardError::OutOfBounds));
    assert_eq!(g.cell_at(0, 2).err(), Some(BoardError::OutOfBounds));
}

#[test]
fn neighbors_stop_at_the_edges() {
    assert_eq!(neighbor(3, 2, 0, Direction::Up), None);
    assert_eq!(neighbor(3, 2, 0, Direction::Left), None);
    assert_eq!(neighbor(3, 2, 0, Direction::Right), Some(1));
    assert_eq!(neighbor(3, 2, 0, Direction::Down), Some(3));
    assert_eq!(neighbor(3, 2, 5, Direction::Right), None);
    assert_eq!(neighbor(3, 2, 5, Direction::Down), None);
    assert_eq!(neighbor(3, 2, 5, Direction::Up), Some(2));
    assert_eq!(neighbor(3, 2, 5, Direction::Left), Some(4));
}

#[test]
fn unconstrained_rules_always_solve() {
    for &(w, h) in &[(1usize, 1usize), (2, 3), (5, 5), (8, 4)] {
        let mut g = Board::new(w, h, vec![A, B, C], free_rules(&[A, B, C])).unwrap();
        let mut rng = RandomSource::thread();
        let mut steps = 0;
        loop {
            let s = g.step(&mut rng);
            assert_ne!(s, Status::Unsolvable);
            steps += 1;
            if s == Status::Solved {
                break;
            }
            assert!(steps <= w * h);
        }
        assert!(g.cells.iter().all(|c| c.is_resolved()));
        assert!(!g.has_contradiction());
    }
}

#[test]
fn solve_with_enough_steps_finishes() {
    let mut g = Board::new(6, 6, vec![A, B, C], free_rules(&[A, B, C])).unwrap();
    let mut rng = RandomSource::thread();
    assert_eq!(g.solve(&mut rng, 36), Status::Solved);
    assert_eq!(g.status(), Status::Solved);
}

#[test]
fn forbidden_pair_never_touches() {
    let mut rules = RuleTable::new();
    rules.set_rule(A, TileRule::uniform(&vec![A, C]));
    rules.set_rule(B, TileRule::uniform(&vec![B, C]));
    rules.set_rule(C, TileRule::uniform(&vec![A, B, C]));
    for _ in 0..20 {
        let mut g = Board::new(6, 5, vec![A, B, C], rules.clone()).unwrap();
        let mut rng = RandomSource::thread();
        assert_eq!(g.solve(&mut rng, 10_000), Status::Solved);
        let v = values_of(&g);
        for i in 0..v.len() {
            for d in [Direction::Up, Direction::Right, Direction::Down, Direction::Left] {
                if let Some(j) = neighbor(6, 5, i, d) {
                    assert!(!(v[i] == A && v[j] == B));
                }
            }
        }
    }
}

#[test]
fn selection_prefers_the_narrowest_open_cell() {
    let mut g = Board::new(3, 3, vec![A, B, C], free_rules(&[A, B, C])).unwrap();
    g.cells[4].restrict(&vec![A, B]);
    g.cells[7].collapse_to(0);
    let mut rng = RandomSource::thread();
    for _ in 0..20 {
        assert_eq!(g.select_minimum_entropy_cell(&mut rng), Some(4));
    }
}

#[test]
fn selection_breaks_ties_at_random() {
    let g = Board::new(2, 2, vec![A, B, C], free_rules(&[A, B, C])).unwrap();
    let mut rng = RandomSource::thread();
    let mut counts = [0usize; 4];
    for _ in 0..4000 {
        counts[g.select_minimum_entropy_cell(&mut rng).unwrap()] += 1;
    }
    for c in counts {
        assert!(c > 700 && c < 1300, "{:?}", counts);
    }
}

#[test]
fn selection_finds_nothing_in_a_solved_grid() {
    let mut g = Board::new(2, 1, vec![A], free_rules(&[A])).unwrap();
    let mut rng = RandomSource::thread();
    assert_eq!(g.status(), Status::InProgress);
    assert_eq!(g.step(&mut rng), Status::Solved);
    assert_eq!(g.select_minimum_entropy_cell(&mut rng), None);
    let before = g.history.len();
    assert_eq!(g.step(&mut rng), Status::Solved);
    assert_eq!(g.history.len(), before);
}

#[test]
fn single_cell_resolves_in_one_step() {
    let mut g = Board::new(1, 1, vec![A, B, C], free_rules(&[A, B, C])).unwrap();
    let mut rng = RandomSource::thread();
    assert_eq!(g.status(), Status::InProgress);
    assert_eq!(g.step(&mut rng), Status::Solved);
    let v = values_of(&g);
    assert!(v[0] == A || v[0] == B || v[0] == C);
    assert_eq!(g.step(&mut rng), Status::Solved);
}

#[test]
fn linked_pair_resolves_to_equal_values() {
    let mut rules = RuleTable::new();
    rules.set_rule(A, TileRule::new(vec![A, B], vec![A], vec![A, B], vec![A]));
    rules.set_rule(B, TileRule::new(vec![A, B], vec![B], vec![A, B], vec![B]));
    for seed in 0..10usize {
        let mut g = Board::new(2, 1, vec![A, B], rules.clone()).unwrap();
        let mut rng = RandomSource::scripted(vec![seed, seed / 2, seed / 3]);
        assert_eq!(g.solve(&mut rng, 10), Status::Solved);
        let v = values_of(&g);
        assert_eq!(v[0], v[1]);
    }
}

fn twisted_rules() -> RuleTable {
    // right neighbour is the next value mod 3; down neighbour swaps 0 and 1
    let swap = |t: u32| match t {
        0 => 1,
        1 => 0,
        _ => 2,
    };
    let mut rules = RuleTable::new();
    for t in 0..3u32 {
        rules.set_rule(
            t,
            TileRule::new(vec![swap(t)], vec![(t + 1) % 3], vec![swap(t)], vec![(t + 2) % 3]),
        );
    }
    rules
}

#[test]
fn unsatisfiable_rules_end_unsolvable() {
    let mut g = Board::new(2, 2, vec![0, 1, 2], twisted_rules()).unwrap();
    assert_eq!(g.status(), Status::InProgress);
    let mut rng = RandomSource::thread();
    assert_eq!(g.solve(&mut rng, 100), Status::Unsolvable);
    assert!(g.has_contradiction());
    assert!(g.history.is_empty());
    assert_eq!(g.step(&mut rng), Status::Unsolvable);
}

#[test]
fn rules_without_any_partner_fail_at_once() {
    let mut rules = RuleTable::new();
    rules.set_rule(A, TileRule::uniform(&vec![]));
    let mut g = Board::new(2, 1, vec![A], rules).unwrap();
    assert_eq!(g.status(), Status::InProgress);
    let mut rng = RandomSource::thread();
    assert_eq!(g.step(&mut rng), Status::Unsolvable);
    assert_eq!(g.solve(&mut rng, 5), Status::Unsolvable);
}

#[test]
fn backtracking_recovers_from_a_bad_choice() {
    // A must have B on its right; B must have A on its left; C goes with C.
    let mut rules = RuleTable::new();
    rules.set_rule(A, TileRule::new(vec![A, B, C], vec![B], vec![A, B, C], vec![A, B, C]));
    rules.set_rule(B, TileRule::new(vec![A, B, C], vec![A, B, C], vec![A, B, C], vec![A]));
    rules.set_rule(C, TileRule::new(vec![A, B, C], vec![C], vec![A, B, C], vec![C]));
    for _ in 0..20 {
        let mut g = Board::new(3, 1, vec![A, B, C], rules.clone()).unwrap();
        let mut rng = RandomSource::thread();
        assert_eq!(g.solve(&mut rng, 100), Status::Solved);
        let v = values_of(&g);
        assert!(v == vec![A, B, A] || v == vec![B, A, B] || v == vec![C, C, C], "{:?}", v);
    }
}

#[test]
fn colours_follow_the_state() {
    assert_eq!(tile_colour(0x123456), Colour { r: 0x12, g: 0x34, b: 0x56 });
    let mut c = WaveFunction::new(0, 0, &vec![A, B, C]);
    assert_eq!(c.colour(), Paint::Rgb(Colour { r: 85, g: 85, b: 85 }));
    c.restrict(&vec![A, B]);
    assert_eq!(c.colour(), Paint::Rgb(Colour { r: 127, g: 127, b: 0 }));
    let mut magenta = WaveFunction::new(0, 0, &vec![0xFF00FF, A]);
    magenta.collapse_to(0);
    assert_eq!(magenta.colour(), Paint::Rgb(Colour { r: 255, g: 0, b: 255 }));
    c.restrict(&vec![7]);
    assert_eq!(c.colour(), Paint::Error);
    c = WaveFunction::new(0, 0, &vec![B]);
    c.collapse_to(0);
    assert_eq!(c.colour(), Paint::Rgb(Colour { r: 0, g: 255, b: 0 }));
    let g = Board::new(2, 1, vec![C], free_rules(&[C])).unwrap();
    assert_eq!(g.render_colors(), vec![Paint::Rgb(Colour { r: 0, g: 0, b: 255 }); 2]);
}

#[test]
fn scripted_pick_chooses_among_ties_in_index_order() {
    let mut g = Board::new(2, 2, vec![A, B, C], free_rules(&[A, B, C])).unwrap();
    g.cells[1].restrict(&vec![A, B]);
    g.cells[3].restrict(&vec![B, C]);
    let mut rng = RandomSource::scripted(vec![5, 2]);
    assert_eq!(g.select_minimum_entropy_cell(&mut rng), Some(3));
    assert_eq!(g.select_minimum_entropy_cell(&mut rng), Some(1));
}

use vstd::prelude::*;
use crate::cell::{distinct_values, lemma_distinct_values, lemma_push_contains, WaveFunction, CellState, Narrowing};
use crate::layout::{column, lemma_index_of, lemma_neighbor, lemma_position, neighbor, neighbor_index, row};
use crate::random::RandomSource;
use crate::rules::{Direction, RuleTable};

verus! {

/// Where a run stands.
#[derive(Clone, Copy, Debug, PartialEq, Eq, Structural)]
pub enum Status {
    InProgress,
    Solved,
    Unsolvable,
}

/// Why a grid could not be built, or a cell not reached.
#[derive(Clone, Copy, Debug, PartialEq, Eq, Structural)]
pub enum BoardError {
    /// The width or the height is zero.
    ZeroSize,
    /// The grid has more cells than memory can index.
    TooLarge,
    /// The palette holds no value.
    EmptyPalette,
    /// The rule table has no entry for this palette value.
    MissingRule(u32),
    /// The coordinates lie outside the grid.
    OutOfBounds,
}

/// The state of the grid before a cell was collapsed, and the choice made.
#[derive(Debug)]
pub struct Decision {
    pub cells: Vec<WaveFunction>,
    pub index: usize,
    pub value: u32,
}

/// A `width` by `height` grid of cells, stored row after row, with the rules
/// that bind neighbours and the decisions that can be undone.
#[derive(Debug)]
pub struct Board {
    pub width: usize,
    pub height: usize,
    pub palette: Vec<u32>,
    pub rules: RuleTable,
    pub cells: Vec<WaveFunction>,
    pub history: Vec<Decision>,
    /// Whether the cells have been filtered against their neighbours; the
    /// first step does it.
    pub settled: bool,
}

/// Each cell is well formed, sits at its own position and holds palette
/// values only.
pub open spec fn cells_wf(cells: Seq<WaveFunction>, w: int, h: int, palette: Seq<u32>) -> bool {
    &&& cells.len() == w * h
    &&& forall|i: int| 0 <= i < cells.len() ==> (#[trigger] cells[i]).wf()
        && cells[i].x == column(w, i) && cells[i].y == row(w, i)
    &&& forall|i: int, v: u32|
        0 <= i < cells.len() && #[trigger] cells[i].values().contains(v) ==> palette.contains(v)
}

pub open spec fn no_failure(cells: Seq<WaveFunction>) -> bool {
    forall|i: int| 0 <= i < cells.len() ==> !(#[trigger] cells[i]).is_failed()
}

pub open spec fn all_fixed(cells: Seq<WaveFunction>) -> bool {
    forall|i: int| 0 <= i < cells.len() ==> (#[trigger] cells[i]).is_fixed()
}

pub open spec fn status_of(cells: Seq<WaveFunction>) -> Status {
    if !no_failure(cells) {
        Status::Unsolvable
    } else if all_fixed(cells) {
        Status::Solved
    } else {
        Status::InProgress
    }
}

/// Value `v` of cell `i` has a partner among the values of its neighbour on
/// side `d`, or there is no neighbour there.
pub open spec fn side_ok(rules: RuleTable, cells: Seq<WaveFunction>, w: int, h: int, i: int, v: u32, d: Direction) -> bool {
    match neighbor_index(w, h, i, d) {
        Some(j) => rules.supported(v, d, cells[j].values()),
        None => true,
    }
}

/// Value `v` of cell `i` is compatible with every neighbour.
pub open spec fn value_ok(rules: RuleTable, cells: Seq<WaveFunction>, w: int, h: int, i: int, v: u32) -> bool {
    &&& side_ok(rules, cells, w, h, i, v, Direction::Up)
    &&& side_ok(rules, cells, w, h, i, v, Direction::Right)
    &&& side_ok(rules, cells, w, h, i, v, Direction::Down)
    &&& side_ok(rules, cells, w, h, i, v, Direction::Left)
}

/// Every value left to cell `i` is compatible with every neighbour.
pub open spec fn consistent_at(rules: RuleTable, cells: Seq<WaveFunction>, w: int, h: int, i: int) -> bool {
    forall|v: u32| #[trigger] cells[i].values().contains(v) ==> value_ok(rules, cells, w, h, i, v)
}

pub open spec fn consistent(rules: RuleTable, cells: Seq<WaveFunction>, w: int, h: int) -> bool {
    forall|i: int| 0 <= i < cells.len() ==> #[trigger] consistent_at(rules, cells, w, h, i)
}

/// A saved state that a failed choice can return to.
pub open spec fn decision_wf(rules: RuleTable, palette: Seq<u32>, w: int, h: int, dec: Decision) -> bool {
    &&& cells_wf(dec.cells@, w, h, palette)
    &&& no_failure(dec.cells@)
    &&& consistent(rules, dec.cells@, w, h)
    &&& dec.index < dec.cells@.len()
    &&& dec.cells@[dec.index as int].is_open()
}

/// Decision `dec` was taken on cells `a` and led to cells `b`: it saved `a`,
/// chose an open cell of least entropy in `a`, resolved it to one of its
/// values, and every cell of `b` keeps only values it had in `a`.
pub open spec fn decision_taken(a: Seq<WaveFunction>, b: Seq<WaveFunction>, dec: Decision) -> bool {
    &&& dec.cells@.len() == a.len()
    &&& forall|j: int| 0 <= j < a.len() ==> (#[trigger] dec.cells@[j]).values() == a[j].values()
    &&& dec.index < a.len()
    &&& a[dec.index as int].is_open()
    &&& forall|j: int| 0 <= j < a.len() && (#[trigger] a[j]).is_open()
        ==> a[dec.index as int].entropy_spec() <= a[j].entropy_spec()
    &&& a[dec.index as int].values().contains(dec.value)
    &&& b[dec.index as int].state == CellState::Resolved(dec.value)
    &&& b.len() == a.len()
    &&& forall|j: int, v: u32| 0 <= j < b.len() && #[trigger] b[j].values().contains(v) ==> a[j].values().contains(v)
}

/// `s` gives every cell a value that stands beside each neighbour's value
/// under both their rules.
#[verifier::opaque]
pub open spec fn valid_tiling(rules: RuleTable, w: int, h: int, s: Seq<u32>) -> bool {
    &&& s.len() == w * h
    &&& forall|i: int, d: Direction| 0 <= i < s.len() && (#[trigger] neighbor_index(w, h, i, d)) is Some
        ==> rules.compatible(s[i], d, s[neighbor_index(w, h, i, d)->Some_0])
}

/// Each value of `s` is still open to its cell.
#[verifier::opaque]
pub open spec fn tiling_within(s: Seq<u32>, cells: Seq<WaveFunction>) -> bool {
    &&& s.len() == cells.len()
    &&& forall|i: int| 0 <= i < cells.len() ==> #[trigger] cells[i].values().contains(s[i])
}

proof fn lemma_tiling_value_ok(rules: RuleTable, cells: Seq<WaveFunction>, w: int, h: int, s: Seq<u32>, i: int)
    requires
        w > 0,
        h > 0,
        cells.len() == w * h,
        valid_tiling(rules, w, h, s),
        tiling_within(s, cells),
        0 <= i < cells.len(),
    ensures
        value_ok(rules, cells, w, h, i, s[i]),
{
    reveal(valid_tiling);
    reveal(tiling_within);
    assert forall|d: Direction| side_ok(rules, cells, w, h, i, s[i], d) by {
        lemma_neighbor(w, h, i, d);
        match neighbor_index(w, h, i, d) {
            Some(j) => {
                assert(cells[j].values().contains(s[j]));
                assert(rules.compatible(s[i], d, s[j]));
            },
            None => {},
        }
    }
}

/// The size of what a cell may still become: it only falls as the cell
/// narrows or resolves.
pub open spec fn weight(c: WaveFunction) -> nat {
    c.values().len() + if c.is_open() { 1nat } else { 0nat }
}

pub open spec fn total_weight(s: Seq<WaveFunction>) -> nat
    decreases s.len(),
{
    if s.len() == 0 {
        0
    } else {
        total_weight(s.drop_last()) + weight(s.last())
    }
}

proof fn lemma_total_weight_update(s: Seq<WaveFunction>, i: int, c: WaveFunction)
    requires
        0 <= i < s.len(),
    ensures
        total_weight(s.update(i, c)) + weight(s[i]) == total_weight(s) + weight(c),
    decreases s.len(),
{
    if i == s.len() - 1 {
        assert(s.update(i, c).drop_last() =~= s.drop_last());
    } else {
        assert(s.update(i, c).drop_last() =~= s.drop_last().update(i, c));
        lemma_total_weight_update(s.drop_last(), i, c);
    }
}

/// The neighbours of cell `k` hold the same values in `a` and in `b`.
pub open spec fn near_same(a: Seq<WaveFunction>, b: Seq<WaveFunction>, w: int, h: int, k: int) -> bool {
    forall|d: Direction| (#[trigger] neighbor_index(w, h, k, d)) is Some
        ==> b[neighbor_index(w, h, k, d)->Some_0].values() == a[neighbor_index(w, h, k, d)->Some_0].values()
}

proof fn lemma_side_frame(rules: RuleTable, a: Seq<WaveFunction>, b: Seq<WaveFunction>, w: int, h: int, k: int, v: u32, d: Direction)
    requires
        side_ok(rules, a, w, h, k, v, d),
        near_same(a, b, w, h, k),
    ensures
        side_ok(rules, b, w, h, k, v, d),
{
    match neighbor_index(w, h, k, d) {
        Some(j) => {
            assert(b[j].values() == a[j].values());
        },
        None => {},
    }
}

proof fn lemma_value_frame(rules: RuleTable, a: Seq<WaveFunction>, b: Seq<WaveFunction>, w: int, h: int, k: int, v: u32)
    requires
        value_ok(rules, a, w, h, k, v),
        near_same(a, b, w, h, k),
    ensures
        value_ok(rules, b, w, h, k, v),
{
    lemma_side_frame(rules, a, b, w, h, k, v, Direction::Up);
    lemma_side_frame(rules, a, b, w, h, k, v, Direction::Right);
    lemma_side_frame(rules, a, b, w, h, k, v, Direction::Down);
    lemma_side_frame(rules, a, b, w, h, k, v, Direction::Left);
}

/// Cell `k` stays consistent when its own values only shrink and its
/// neighbours keep theirs.
proof fn lemma_consistent_frame(rules: RuleTable, a: Seq<WaveFunction>, b: Seq<WaveFunction>, w: int, h: int, k: int)
    requires
        consistent_at(rules, a, w, h, k),
        forall|v: u32| #[trigger] b[k].values().contains(v) ==> a[k].values().contains(v),
        near_same(a, b, w, h, k),
    ensures
        consistent_at(rules, b, w, h, k),
{
    assert forall|v: u32| #[trigger] b[k].values().contains(v) implies value_ok(rules, b, w, h, k, v) by {
        assert(a[k].values().contains(v));
        lemma_value_frame(rules, a, b, w, h, k, v);
    }
}

/// Changing cell `i` alone leaves the neighbourhood of every cell that is
/// not beside `i` as it was.
proof fn lemma_near_same_update(a: Seq<WaveFunction>, b: Seq<WaveFunction>, w: int, h: int, i: int, k: int)
    requires
        w > 0,
        h > 0,
        a.len() == w * h,
        b.len() == w * h,
        0 <= i < a.len(),
        0 <= k < a.len(),
        forall|j: int| 0 <= j < a.len() && j != i ==> #[trigger] b[j].values() == a[j].values(),
        forall|d: Direction| #[trigger] neighbor_index(w, h, i, d) != Some(k),
    ensures
        near_same(a, b, w, h, k),
{
    assert forall|d: Direction| (#[trigger] neighbor_index(w, h, k, d)) is Some
        implies b[neighbor_index(w, h, k, d)->Some_0].values() == a[neighbor_index(w, h, k, d)->Some_0].values() by {
        lemma_neighbor(w, h, k, d);
        assert(neighbor_index(w, h, i, d.opposite_spec()) != Some(k));
    }
}

/// Under rules that bind nothing, any palette value of any cell is
/// compatible with its neighbours, as long as no cell has failed.
proof fn lemma_unconstrained_value_ok(rules: RuleTable, cells: Seq<WaveFunction>, w: int, h: int, palette: Seq<u32>, i: int, v: u32)
    requires
        w > 0,
        h > 0,
        cells_wf(cells, w, h, palette),
        no_failure(cells),
        rules.unconstrained_over(palette),
        palette.contains(v),
        0 <= i < cells.len(),
    ensures
        value_ok(rules, cells, w, h, i, v),
{
    assert forall|d: Direction| side_ok(rules, cells, w, h, i, v, d) by {
        lemma_neighbor(w, h, i, d);
        match neighbor_index(w, h, i, d) {
            Some(j) => {
                assert(!cells[j].is_failed());
                assert(cells[j].wf());
                let u = cells[j].values()[0];
                assert(cells[j].values().contains(u));
                assert(palette.contains(u));
                assert(rules.permits(v, d, u));
                assert(rules.permits(u, d.opposite_spec(), v));
                assert(rules.compatible(v, d, u));
            },
            None => {},
        }
    }
}

/// Adds the neighbours of cell `i` to `queue`.
fn push_neighbors(w: usize, h: usize, i: usize, queue: &mut Vec<usize>)
    requires
        w > 0,
        h > 0,
        i < w * h,
        w * h <= usize::MAX,
    ensures
        forall|q: int| 0 <= q < old(queue)@.len() ==> final(queue)@[q] == old(queue)@[q],
        final(queue)@.len() >= old(queue)@.len(),
        forall|q: int| old(queue)@.len() <= q < final(queue)@.len() ==> #[trigger] final(queue)@[q] < w * h,
        forall|x: usize| #[trigger] old(queue)@.contains(x) ==> final(queue)@.contains(x),
        forall|d: Direction| (#[trigger] neighbor_index(w as int, h as int, i as int, d)) is Some
            ==> final(queue)@.contains(neighbor_index(w as int, h as int, i as int, d)->Some_0 as usize),
{
    push_neighbor(w, h, i, Direction::Up, queue);
    push_neighbor(w, h, i, Direction::Right, queue);
    push_neighbor(w, h, i, Direction::Down, queue);
    push_neighbor(w, h, i, Direction::Left, queue);
    assert forall|d: Direction| (#[trigger] neighbor_index(w as int, h as int, i as int, d)) is Some
        implies queue@.contains(neighbor_index(w as int, h as int, i as int, d)->Some_0 as usize) by {
        match d {
            Direction::Up => {},
            Direction::Right => {},
            Direction::Down => {},
            Direction::Left => {},
        }
    }
}

fn push_neighbor(w: usize, h: usize, i: usize, d: Direction, queue: &mut Vec<usize>)
    requires
        w > 0,
        h > 0,
        i < w * h,
        w * h <= usize::MAX,
    ensures
        forall|q: int| 0 <= q < old(queue)@.len() ==> final(queue)@[q] == old(queue)@[q],
        final(queue)@.len() >= old(queue)@.len(),
        forall|q: int| old(queue)@.len() <= q < final(queue)@.len() ==> #[trigger] final(queue)@[q] < w * h,
        forall|x: usize| #[trigger] old(queue)@.contains(x) ==> final(queue)@.contains(x),
        neighbor_index(w as int, h as int, i as int, d) matches Some(j) ==> final(queue)@.contains(j as usize),
{
    proof {
        lemma_neighbor(w as int, h as int, i as int, d);
    }
    match neighbor(w, h, i, d) {
        Some(j) => {
            queue.push(j);
            assert(queue@[queue@.len() - 1] == j);
            assert forall|x: usize| #[trigger] old(queue)@.contains(x) implies queue@.contains(x) by {
                let q = choose|q: int| 0 <= q < old(queue)@.len() && old(queue)@[q] == x;
                assert(queue@[q] == x);
            }
        },
        None => {},
    }
}

proof fn lemma_fixed_side(rules: RuleTable, a: Seq<WaveFunction>, b: Seq<WaveFunction>, w: int, h: int, i: int, k: int, v: u32, d: Direction)
    requires
        w > 0,
        h > 0,
        a.len() == w * h,
        b.len() == w * h,
        0 <= i < a.len(),
        0 <= k < a.len(),
        k != i,
        side_ok(rules, a, w, h, k, v, d),
        a[k].values() == seq![v],
        forall|j: int| 0 <= j < a.len() && j != i ==> #[trigger] b[j].values() == a[j].values(),
        b[i].values().len() > 0,
        forall|u: u32| #[trigger] b[i].values().contains(u) ==> value_ok(rules, a, w, h, i, u),
    ensures
        side_ok(rules, b, w, h, k, v, d),
{
    lemma_neighbor(w, h, k, d);
    match neighbor_index(w, h, k, d) {
        Some(j) => {
            if j == i {
                let u = b[i].values()[0];
                assert(b[i].values().contains(u));
                let e = d.opposite_spec();
                assert(neighbor_index(w, h, i, e) == Some(k));
                assert(side_ok(rules, a, w, h, i, u, e)) by {
                    match d {
                        Direction::Up => {},
                        Direction::Right => {},
                        Direction::Down => {},
                        Direction::Left => {},
                    }
                }
                let x = choose|x: u32| a[k].values().contains(x) && #[trigger] rules.compatible(u, e, x);
                assert(x == v);
                rules.lemma_compatible_symmetric(u, e, v);
                assert(e.opposite_spec() == d);
                assert(rules.compatible(v, d, u));
            } else {
                assert(b[j].values() == a[j].values());
            }
        },
        None => {},
    }
}

/// A resolved cell beside cell `i` stays consistent when `i` keeps some
/// values, each compatible with every neighbour.
proof fn lemma_fixed_stays(rules: RuleTable, a: Seq<WaveFunction>, b: Seq<WaveFunction>, w: int, h: int, i: int, k: int)
    requires
        w > 0,
        h > 0,
        a.len() == w * h,
        b.len() == w * h,
        0 <= i < a.len(),
        0 <= k < a.len(),
        k != i,
        a[k].is_fixed(),
        consistent_at(rules, a, w, h, k),
        forall|j: int| 0 <= j < a.len() && j != i ==> #[trigger] b[j].values() == a[j].values(),
        b[i].values().len() > 0,
        forall|u: u32| #[trigger] b[i].values().contains(u) ==> value_ok(rules, a, w, h, i, u),
    ensures
        consistent_at(rules, b, w, h, k),
{
    let v = a[k].state->Resolved_0;
    assert(a[k].values() == seq![v]);
    assert forall|x: u32| #[trigger] b[k].values().contains(x) implies value_ok(rules, b, w, h, k, x) by {
        assert(b[k].values() == a[k].values());
        assert(x == v);
        assert(a[k].values().contains(v));
        lemma_fixed_side(rules, a, b, w, h, i, k, v, Direction::Up);
        lemma_fixed_side(rules, a, b, w, h, i, k, v, Direction::Right);
        lemma_fixed_side(rules, a, b, w, h, i, k, v, Direction::Down);
        lemma_fixed_side(rules, a, b, w, h, i, k, v, Direction::Left);
    }
}

/// Under rules that bind nothing, a grid without failure is consistent.
proof fn lemma_unconstrained_consistent(rules: RuleTable, cells: Seq<WaveFunction>, w: int, h: int, palette: Seq<u32>)
    requires
        w > 0,
        h > 0,
        cells_wf(cells, w, h, palette),
        no_failure(cells),
        rules.unconstrained_over(palette),
    ensures
        consistent(rules, cells, w, h),
{
    assert forall|k: int| 0 <= k < cells.len() implies #[trigger] consistent_at(rules, cells, w, h, k) by {
        assert forall|v: u32| #[trigger] cells[k].values().contains(v) implies value_ok(rules, cells, w, h, k, v) by {
            lemma_unconstrained_value_ok(rules, cells, w, h, palette, k, v);
        }
    }
}

/// Narrowing cell `i` of a consistent grid leaves every cell consistent but
/// the neighbours of `i`, which `queue` holds.
proof fn lemma_shrink_one(rules: RuleTable, a: Seq<WaveFunction>, b: Seq<WaveFunction>, w: int, h: int, i: int, queue: Seq<usize>)
    requires
        w > 0,
        h > 0,
        a.len() == w * h,
        b.len() == w * h,
        0 <= i < a.len(),
        consistent(rules, a, w, h),
        forall|j: int| 0 <= j < a.len() && j != i ==> #[trigger] b[j] == a[j],
        forall|v: u32| #[trigger] b[i].values().contains(v) ==> a[i].values().contains(v),
        b[i].values().len() > 0,
        forall|d: Direction| (#[trigger] neighbor_index(w, h, i, d)) is Some
            ==> queue.contains(neighbor_index(w, h, i, d)->Some_0 as usize),
    ensures
        forall|k: int| 0 <= k < b.len() ==> consistent_at(rules, b, w, h, k) || #[trigger] queue.contains(k as usize),
        forall|k: int| 0 <= k < b.len() && (#[trigger] b[k]).is_fixed() ==> consistent_at(rules, b, w, h, k),
{
    assert forall|j: int| 0 <= j < a.len() && j != i implies #[trigger] b[j].values() == a[j].values() by {
        assert(b[j] == a[j]);
    }
    assert forall|u: u32| #[trigger] b[i].values().contains(u) implies value_ok(rules, a, w, h, i, u) by {
        assert(consistent_at(rules, a, w, h, i));
        assert(a[i].values().contains(u));
    }
    assert forall|k: int| 0 <= k < b.len() && (#[trigger] b[k]).is_fixed() implies consistent_at(rules, b, w, h, k) by {
        if k == i {
            assert forall|d: Direction| #[trigger] neighbor_index(w, h, i, d) != Some(i) by {}
            lemma_near_same_update(a, b, w, h, i, i);
            lemma_consistent_frame(rules, a, b, w, h, i);
        } else {
            assert(b[k] == a[k]);
            lemma_fixed_stays(rules, a, b, w, h, i, k);
        }
    }
    assert forall|k: int| 0 <= k < b.len() implies consistent_at(rules, b, w, h, k) || #[trigger] queue.contains(k as usize) by {
        assert(consistent_at(rules, a, w, h, k));
        if forall|d: Direction| #[trigger] neighbor_index(w, h, i, d) != Some(k) {
            lemma_near_same_update(a, b, w, h, i, k);
            if k != i {
                assert(b[k].values() == a[k].values());
            }
            lemma_consistent_frame(rules, a, b, w, h, k);
        } else {
            let d = choose|d: Direction| #[trigger] neighbor_index(w, h, i, d) == Some(k);
            assert(neighbor_index(w, h, i, d) is Some);
        }
    }
}

/// Cells that hold the same values are consistent together.
proof fn lemma_consistent_same_values(rules: RuleTable, a: Seq<WaveFunction>, b: Seq<WaveFunction>, w: int, h: int)
    requires
        w > 0,
        h > 0,
        a.len() == w * h,
        a.len() == b.len(),
        consistent(rules, a, w, h),
        forall|j: int| 0 <= j < a.len() ==> #[trigger] b[j].values() == a[j].values(),
    ensures
        consistent(rules, b, w, h),
{
    assert forall|k: int| 0 <= k < b.len() implies #[trigger] consistent_at(rules, b, w, h, k) by {
        assert(consistent_at(rules, a, w, h, k));
        assert forall|d: Direction| (#[trigger] neighbor_index(w, h, k, d)) is Some
            implies b[neighbor_index(w, h, k, d)->Some_0].values() == a[neighbor_index(w, h, k, d)->Some_0].values() by {
            lemma_neighbor(w, h, k, d);
        }
        lemma_consistent_frame(rules, a, b, w, h, k);
    }
}

/// The indices `0..n`.
fn all_indices(n: usize) -> (r: Vec<usize>)
    ensures
        forall|q: int| 0 <= q < r@.len() ==> r@[q] < n,
        forall|j: int| 0 <= j < n ==> #[trigger] r@.contains(j as usize),
{
    let mut all: Vec<usize> = Vec::with_capacity(n);
    let mut i: usize = 0;
    while i < n
        invariant
            i <= n,
            all@.len() == i,
            forall|j: int| 0 <= j < i ==> all@[j] == j,
        decreases n - i,
    {
        all.push(i);
        i = i + 1;
    }
    assert forall|j: int| 0 <= j < n implies #[trigger] all@.contains(j as usize) by {
        assert(all@[j] == j);
    }
    all
}

/// A copy of each cell.
fn copy_cells(cells: &Vec<WaveFunction>) -> (r: Vec<WaveFunction>)
    ensures
        r@.len() == cells@.len(),
        forall|i: int| 0 <= i < cells@.len() ==> {
            &&& (#[trigger] r@[i]).x == cells@[i].x
            &&& r@[i].y == cells@[i].y
            &&& r@[i].values() == cells@[i].values()
            &&& r@[i].is_open() == cells@[i].is_open()
            &&& r@[i].is_fixed() == cells@[i].is_fixed()
            &&& r@[i].is_failed() == cells@[i].is_failed()
            &&& cells@[i].wf() ==> r@[i].wf()
        },
{
    let mut r: Vec<WaveFunction> = Vec::with_capacity(cells.len());
    let mut i: usize = 0;
    while i < cells.len()
        invariant
            i <= cells@.len(),
            r@.len() == i,
            forall|j: int| 0 <= j < i ==> {
                &&& (#[trigger] r@[j]).x == cells@[j].x
                &&& r@[j].y == cells@[j].y
                &&& r@[j].values() == cells@[j].values()
                &&& r@[j].is_open() == cells@[j].is_open()
                &&& r@[j].is_fixed() == cells@[j].is_fixed()
                &&& r@[j].is_failed() == cells@[j].is_failed()
                &&& cells@[j].wf() ==> r@[j].wf()
            },
        decreases cells@.len() - i,
    {
        r.push(cells[i].duplicate());
        i = i + 1;
    }
    r
}

/// The values of `list` other than `v`.
fn without_value(list: &Vec<u32>, v: u32) -> (r: Vec<u32>)
    ensures
        forall|u: u32| #[trigger] r@.contains(u) <==> (list@.contains(u) && u != v),
{
    let mut r: Vec<u32> = Vec::new();
    let mut i: usize = 0;
    while i < list.len()
        invariant
            i <= list@.len(),
            forall|u: u32| #[trigger] r@.contains(u) <==> (list@.subrange(0, i as int).contains(u) && u != v),
        decreases list@.len() - i,
    {
        proof {
            let s = list@.subrange(0, i + 1);
            assert(s.drop_last() =~= list@.subrange(0, i as int));
            crate::cell::lemma_drop_last_contains(s);
            lemma_push_contains(r@, list@[i as int]);
        }
        if list[i] != v {
            r.push(list[i]);
        }
        i = i + 1;
    }
    assert(list@.subrange(0, list@.len() as int) =~= list@);
    r
}

/// The indices below `n` of the open cells of entropy `e`, in order.
#[verifier::opaque]
pub open spec fn ties_upto(cells: Seq<WaveFunction>, e: nat, n: int) -> Seq<usize>
    decreases n,
{
    if n <= 0 {
        seq![]
    } else {
        let p = ties_upto(cells, e, n - 1);
        if cells[n - 1].is_open() && cells[n - 1].entropy_spec() == e {
            p.push((n - 1) as usize)
        } else {
            p
        }
    }
}

/// The number of open cells.
pub open spec fn count_open(s: Seq<WaveFunction>) -> nat
    decreases s.len(),
{
    if s.len() == 0 {
        0
    } else {
        count_open(s.drop_last()) + if s.last().is_open() { 1nat } else { 0nat }
    }
}

/// Fewer cells are open in `b` than in `a` when no cell opens and cell `i`
/// closes.
proof fn lemma_count_open_falls(a: Seq<WaveFunction>, b: Seq<WaveFunction>, i: int)
    requires
        a.len() == b.len(),
        forall|j: int| 0 <= j < b.len() && (#[trigger] b[j]).is_open() ==> a[j].is_open(),
        0 <= i < a.len() ==> a[i].is_open() && !b[i].is_open(),
    ensures
        count_open(b) <= count_open(a),
        0 <= i < a.len() ==> count_open(b) < count_open(a),
    decreases a.len(),
{
    if a.len() > 0 {
        let n = a.len() - 1;
        assert forall|j: int| 0 <= j < n && (#[trigger] b.drop_last()[j]).is_open() implies a.drop_last()[j].is_open() by {
            assert(b[j].is_open());
        }
        if i == n {
            lemma_count_open_falls(a.drop_last(), b.drop_last(), -1);
        } else {
            lemma_count_open_falls(a.drop_last(), b.drop_last(), i);
        }
        if b[n].is_open() {
            assert(a[n].is_open());
        }
    }
}

proof fn lemma_count_open_bound(s: Seq<WaveFunction>)
    ensures
        count_open(s) <= s.len(),
    decreases s.len(),
{
    if s.len() > 0 {
        lemma_count_open_bound(s.drop_last());
    }
}

/// No cell is open once none is counted.
proof fn lemma_count_open_zero(s: Seq<WaveFunction>)
    requires
        count_open(s) == 0,
    ensures
        forall|j: int| 0 <= j < s.len() ==> !(#[trigger] s[j]).is_open(),
    decreases s.len(),
{
    if s.len() > 0 {
        lemma_count_open_zero(s.drop_last());
        assert forall|j: int| 0 <= j < s.len() implies !(#[trigger] s[j]).is_open() by {
            if j < s.len() - 1 {
                assert(s.drop_last()[j] == s[j]);
            }
        }
    }
}

/// In a solved grid every cell holds a value that its rule lets stand beside
/// the value of each neighbour.
pub proof fn lemma_solved_board_respects_rules(g: Board)
    requires
        g.wf(),
        g.status_spec() == Status::Solved,
    ensures
        forall|i: int, d: Direction| 0 <= i < g.cells@.len() && (#[trigger] neighbor_index(g.width as int, g.height as int, i, d)) is Some
            ==> {
                let j = neighbor_index(g.width as int, g.height as int, i, d)->Some_0;
                &&& 0 <= j < g.cells@.len()
                &&& g.cells@[i].state matches CellState::Resolved(a)
                &&& g.cells@[j].state matches CellState::Resolved(b)
                &&& g.rules.permits(a, d, b)
            },
{
    let w = g.width as int;
    let h = g.height as int;
    assert forall|i: int, d: Direction| 0 <= i < g.cells@.len() && (#[trigger] neighbor_index(w, h, i, d)) is Some
        implies {
            let j = neighbor_index(w, h, i, d)->Some_0;
            &&& 0 <= j < g.cells@.len()
            &&& g.cells@[i].state matches CellState::Resolved(a)
            &&& g.cells@[j].state matches CellState::Resolved(b)
            &&& g.rules.permits(a, d, b)
        } by {
        lemma_neighbor(w, h, i, d);
        let j = neighbor_index(w, h, i, d)->Some_0;
        assert(g.cells@[i].is_fixed());
        assert(g.cells@[j].is_fixed());
        let a = g.cells@[i].state->Resolved_0;
        let b = g.cells@[j].state->Resolved_0;
        assert(g.cells@[i].values().contains(a)) by {
            assert(g.cells@[i].values()[0] == a);
        }
        assert(consistent_at(g.rules, g.cells@, w, h, i));
        assert(side_ok(g.rules, g.cells@, w, h, i, a, d));
        let u = choose|u: u32| g.cells@[j].values().contains(u) && #[trigger] g.rules.permits(a, d, u);
        assert(u == b);
    }
}

/// When tile `a` never lets tile `b` stand beside it, a solved grid holds no
/// cell of value `a` with a neighbour of value `b`.
pub proof fn lemma_solved_board_avoids_forbidden_pair(g: Board, a: u32, b: u32)
    requires
        g.wf(),
        g.status_spec() == Status::Solved,
        forall|d: Direction| !(#[trigger] g.rules.permits(a, d, b)),
    ensures
        forall|i: int, d: Direction| 0 <= i < g.cells@.len() && (#[trigger] neighbor_index(g.width as int, g.height as int, i, d)) is Some
            && g.cells@[i].state == CellState::Resolved(a)
            ==> g.cells@[neighbor_index(g.width as int, g.height as int, i, d)->Some_0].state != CellState::Resolved(b),
{
    lemma_solved_board_respects_rules(g);
}

impl Board {
    pub open spec fn wf(&self) -> bool {
        &&& self.base_wf()
        &&& self.settled && no_failure(self.cells@)
            ==> consistent(self.rules, self.cells@, self.width as int, self.height as int)
        &&& !no_failure(self.cells@) ==> self.history@.len() == 0
        &&& !self.settled ==> self.history@.len() == 0
            && forall|i: int| 0 <= i < self.cells@.len() ==> (#[trigger] self.cells@[i]).is_open()
    }

    /// All that holds at every moment, also in the middle of propagation.
    pub open spec fn base_wf(&self) -> bool {
        &&& self.width > 0
        &&& self.height > 0
        &&& self.width * self.height <= usize::MAX
        &&& self.rules.wf()
        &&& self.palette@.len() > 0
        &&& forall|v: u32| #[trigger] self.palette@.contains(v) ==> self.rules.covers(v)
        &&& cells_wf(self.cells@, self.width as int, self.height as int, self.palette@)
        &&& forall|k: int| 0 <= k < self.history@.len()
            ==> decision_wf(self.rules, self.palette@, self.width as int, self.height as int, #[trigger] self.history@[k])
    }

    pub open spec fn status_spec(&self) -> Status {
        status_of(self.cells@)
    }

    /// A board whose every cell starts with the whole palette, filtered
    /// against its neighbours before the first step.
    pub fn new(width: usize, height: usize, palette: Vec<u32>, rules: RuleTable) -> (r: Result<Board, BoardError>)
        requires
            rules.wf(),
        ensures
            (width == 0 || height == 0) <==> r == Err::<Board, BoardError>(BoardError::ZeroSize),
            (width > 0 && height > 0 && width * height > usize::MAX) <==> r == Err::<Board, BoardError>(BoardError::TooLarge),
            (width > 0 && height > 0 && width * height <= usize::MAX && palette@.len() == 0)
                <==> r == Err::<Board, BoardError>(BoardError::EmptyPalette),
            forall|t: u32| r == Err::<Board, BoardError>(BoardError::MissingRule(t))
                ==> palette@.contains(t) && !rules.covers(t),
            r is Ok <==> (width > 0 && height > 0 && width * height <= usize::MAX && palette@.len() > 0
                && forall|t: u32| #[trigger] palette@.contains(t) ==> rules.covers(t)),
            r matches Ok(g) ==> {
                &&& g.wf()
                &&& g.width == width
                &&& g.height == height
                &&& g.palette@ == palette@
                &&& g.rules == rules
                &&& g.history@.len() == 0
                &&& !g.settled
                &&& forall|i: int| 0 <= i < g.cells@.len() ==> (#[trigger] g.cells@[i]).is_open()
                    && g.cells@[i].values() == distinct_values(palette@)
                    && g.cells@[i].x == column(width as int, i) && g.cells@[i].y == row(width as int, i)
            },
    {
        if width == 0 || height == 0 {
            return Err(BoardError::ZeroSize);
        }
        let n = match width.checked_mul(height) {
            Some(n) => n,
            None => {
                return Err(BoardError::TooLarge);
            },
        };
        if palette.len() == 0 {
            return Err(BoardError::EmptyPalette);
        }
        let mut k: usize = 0;
        while k < palette.len()
            invariant
                k <= palette@.len(),
                width > 0,
                height > 0,
                n == width * height,
                rules.wf(),
                forall|j: int| 0 <= j < k ==> rules.covers(#[trigger] palette@[j]),
            decreases palette@.len() - k,
        {
            if !rules.has_rule(palette[k]) {
                assert(palette@.contains(palette@[k as int]));
                return Err(BoardError::MissingRule(palette[k]));
            }
            k = k + 1;
        }
        assert forall|t: u32| #[trigger] palette@.contains(t) implies rules.covers(t) by {
            let j = choose|j: int| 0 <= j < palette@.len() && palette@[j] == t;
        }
        proof {
            lemma_distinct_values(palette@);
        }
        let mut cells: Vec<WaveFunction> = Vec::with_capacity(n);
        let mut i: usize = 0;
        while i < n
            invariant
                n == width * height,
                width > 0,
                height > 0,
                palette@.len() > 0,
                i <= n,
                cells@.len() == i,
                forall|j: int| 0 <= j < i ==> (#[trigger] cells@[j]).wf() && cells@[j].is_open()
                    && cells@[j].values() == distinct_values(palette@)
                    && cells@[j].x == column(width as int, j) && cells@[j].y == row(width as int, j),
                forall|v: u32| #[trigger] distinct_values(palette@).contains(v) <==> palette@.contains(v),
            decreases n - i,
        {
            cells.push(WaveFunction::new(i % width, i / width, &palette));
            i = i + 1;
        }
        Ok(Board { width, height, palette, rules, cells, history: Vec::new(), settled: false })
    }

    /// Whether value `v` of cell `i` has a partner on side `d`.
    fn side_fits(&self, i: usize, v: u32, d: Direction) -> (r: bool)
        requires
            self.base_wf(),
            i < self.cells@.len(),
            self.rules.covers(v),
        ensures
            r == side_ok(self.rules, self.cells@, self.width as int, self.height as int, i as int, v, d),
    {
        proof {
            lemma_neighbor(self.width as int, self.height as int, i as int, d);
        }
        match neighbor(self.width, self.height, i, d) {
            None => true,
            Some(j) => {
                let near = self.cells[j].effective_values();
                assert forall|u: u32| #[trigger] near@.contains(u) implies self.rules.covers(u) by {
                    assert(self.palette@.contains(u));
                }
                self.rules.supports(v, d, &near)
            },
        }
    }

    /// Whether value `v` of cell `i` is compatible with every neighbour.
    pub fn fits(&self, i: usize, v: u32) -> (r: bool)
        requires
            self.base_wf(),
            i < self.cells@.len(),
            self.rules.covers(v),
        ensures
            r == value_ok(self.rules, self.cells@, self.width as int, self.height as int, i as int, v),
    {
        self.side_fits(i, v, Direction::Up) && self.side_fits(i, v, Direction::Right)
            && self.side_fits(i, v, Direction::Down) && self.side_fits(i, v, Direction::Left)
    }

    /// Filters the cells named in `queue` against their neighbours, and each
    /// cell that narrows puts its neighbours back on the queue, until the queue
    /// is empty or a cell has no value left. A cell left with one value is
    /// resolved to it. Returns whether no cell failed.
    #[verifier::rlimit(80)]
    pub fn propogate(&mut self, queue: Vec<usize>) -> (ok: bool)
        requires
            old(self).base_wf(),
            no_failure(old(self).cells@),
            forall|q: int| 0 <= q < queue@.len() ==> queue@[q] < old(self).cells@.len(),
            forall|k: int| 0 <= k < old(self).cells@.len()
                ==> consistent_at(old(self).rules, old(self).cells@, old(self).width as int, old(self).height as int, k)
                || #[trigger] queue@.contains(k as usize),
            forall|k: int| 0 <= k < old(self).cells@.len() && (#[trigger] old(self).cells@[k]).is_fixed()
                ==> consistent_at(old(self).rules, old(self).cells@, old(self).width as int, old(self).height as int, k),
        ensures
            final(self).base_wf(),
            ok ==> consistent(final(self).rules, final(self).cells@, final(self).width as int, final(self).height as int),
            final(self).width == old(self).width,
            final(self).height == old(self).height,
            final(self).palette == old(self).palette,
            final(self).rules == old(self).rules,
            final(self).history == old(self).history,
            final(self).cells@.len() == old(self).cells@.len(),
            ok == no_failure(final(self).cells@),
            forall|i: int, v: u32| 0 <= i < final(self).cells@.len() && #[trigger] final(self).cells@[i].values().contains(v)
                ==> old(self).cells@[i].values().contains(v),
            forall|i: int| 0 <= i < final(self).cells@.len() && (#[trigger] final(self).cells@[i]).is_open()
                ==> old(self).cells@[i].is_open(),
            forall|i: int| 0 <= i < final(self).cells@.len() && (#[trigger] old(self).cells@[i]).is_fixed()
                ==> final(self).cells@[i] == old(self).cells@[i],
            old(self).rules.unconstrained_over(old(self).palette@) ==> ok,
            ok ==> forall|j: int| 0 <= j < final(self).cells@.len() && (#[trigger] final(self).cells@[j]).is_open()
                && final(self).cells@[j].values().len() == 1 ==> final(self).cells@[j].values() == old(self).cells@[j].values(),
            forall|t: Seq<u32>| valid_tiling(old(self).rules, old(self).width as int, old(self).height as int, t)
                && #[trigger] tiling_within(t, old(self).cells@) ==> ok && tiling_within(t, final(self).cells@),
            consistent(old(self).rules, old(self).cells@, old(self).width as int, old(self).height as int)
                ==> ok && forall|j: int| 0 <= j < final(self).cells@.len()
                    ==> (#[trigger] final(self).cells@[j]).values() == old(self).cells@[j].values(),
    {
        let ghost w = self.width as int;
        let ghost h = self.height as int;
        let ghost start = self.cells@;
        let mut queue = queue;
        while queue.len() > 0
            invariant
                self.base_wf(),
                no_failure(self.cells@),
                self.width == old(self).width,
                self.height == old(self).height,
                self.palette == old(self).palette,
                self.rules == old(self).rules,
                self.history == old(self).history,
                w == self.width,
                h == self.height,
                start == old(self).cells@,
                self.cells@.len() == start.len(),
                forall|q: int| 0 <= q < queue@.len() ==> queue@[q] < self.cells@.len(),
                forall|k: int| 0 <= k < self.cells@.len()
                    ==> consistent_at(self.rules, self.cells@, w, h, k) || #[trigger] queue@.contains(k as usize),
                forall|i: int, v: u32| 0 <= i < self.cells@.len() && #[trigger] self.cells@[i].values().contains(v)
                    ==> start[i].values().contains(v),
                forall|i: int| 0 <= i < self.cells@.len() && (#[trigger] self.cells@[i]).is_open() ==> start[i].is_open(),
                forall|i: int| 0 <= i < self.cells@.len() && (#[trigger] start[i]).is_fixed() ==> self.cells@[i] == start[i],
                forall|k: int| 0 <= k < self.cells@.len() && (#[trigger] self.cells@[k]).is_fixed()
                    ==> consistent_at(self.rules, self.cells@, w, h, k),
                forall|j: int| 0 <= j < self.cells@.len() && (#[trigger] self.cells@[j]).is_open()
                    && self.cells@[j].values().len() == 1 ==> self.cells@[j].values() == start[j].values(),
                forall|t: Seq<u32>| valid_tiling(self.rules, w, h, t) && #[trigger] tiling_within(t, start)
                    ==> tiling_within(t, self.cells@),
                consistent(self.rules, start, w, h) ==> forall|j: int| 0 <= j < self.cells@.len()
                    ==> (#[trigger] self.cells@[j]).values() == start[j].values(),
            decreases total_weight(self.cells@), queue@.len(),
        {
            let ghost before = self.cells@;
            let ghost qb = queue@;
            let i = match queue.pop() {
                Some(i) => i,
                None => 0,
            };
            assert(qb.last() == i && queue@ =~= qb.drop_last());
            if !self.cells[i].is_unresolved() {
                assert forall|k: int| 0 <= k < self.cells@.len()
                    implies consistent_at(self.rules, self.cells@, w, h, k) || #[trigger] queue@.contains(k as usize) by {
                    if k != i && qb.contains(k as usize) {
                        let q = choose|q: int| 0 <= q < qb.len() && qb[q] == k as usize;
                        assert(queue@[q] == k as usize);
                    }
                }
                continue;
            }
            assert forall|k: int| 0 <= k < self.cells@.len() && k != i
                implies consistent_at(self.rules, self.cells@, w, h, k) || #[trigger] queue@.contains(k as usize) by {
                if qb.contains(k as usize) {
                    let q = choose|q: int| 0 <= q < qb.len() && qb[q] == k as usize;
                    assert(queue@[q] == k as usize);
                }
            }
            proof {
                if consistent(self.rules, start, w, h) {
                    lemma_consistent_same_values(self.rules, start, self.cells@, w, h);
                    assert(consistent_at(self.rules, self.cells@, w, h, i as int));
                }
            }
            if !self.refine(i, &mut queue) {
                proof {
                    assert forall|t: Seq<u32>| valid_tiling(self.rules, w, h, t) && #[trigger] tiling_within(t, start)
                        implies false by {
                        assert(tiling_within(t, before));
                    }
                }
                return false;
            }
            proof {
                assert forall|j: int| 0 <= j < self.cells@.len() && (#[trigger] start[j]).is_fixed()
                    implies self.cells@[j] == start[j] by {
                    assert(before[j] == start[j]);
                }
                assert forall|j: int, v: u32| 0 <= j < self.cells@.len() && #[trigger] self.cells@[j].values().contains(v)
                    implies start[j].values().contains(v) by {
                    assert(before[j].values().contains(v));
                }
                assert forall|j: int| 0 <= j < self.cells@.len() && (#[trigger] self.cells@[j]).is_open()
                    implies start[j].is_open() by {
                    assert(before[j].is_open());
                }
                assert forall|j: int| 0 <= j < self.cells@.len() && (#[trigger] self.cells@[j]).is_open()
                    && self.cells@[j].values().len() == 1 implies self.cells@[j].values() == start[j].values() by {
                    if j != i {
                        assert(self.cells@[j].values() == before[j].values());
                    }
                }
                assert forall|t: Seq<u32>| valid_tiling(self.rules, w, h, t) && #[trigger] tiling_within(t, start)
                    implies tiling_within(t, self.cells@) by {
                    assert(tiling_within(t, before));
                }
                if consistent(self.rules, start, w, h) {
                    assert forall|j: int| 0 <= j < self.cells@.len()
                        implies (#[trigger] self.cells@[j]).values() == start[j].values() by {
                        assert(before[j].values() == start[j].values());
                    }
                }
            }
        }
        assert forall|k: int| 0 <= k < self.cells@.len() implies #[trigger] consistent_at(self.rules, self.cells@, w, h, k) by {
            assert(!queue@.contains(k as usize));
        }
        true
    }

    /// Filters open cell `i` against its neighbours and resolves it when one
    /// value is left; when it narrowed, its neighbours join `queue`. Returns
    /// whether the cell kept a value.
    fn refine(&mut self, i: usize, queue: &mut Vec<usize>) -> (ok: bool)
        requires
            old(self).base_wf(),
            no_failure(old(self).cells@),
            i < old(self).cells@.len(),
            old(self).cells@[i as int].is_open(),
            forall|q: int| 0 <= q < old(queue)@.len() ==> old(queue)@[q] < old(self).cells@.len(),
            forall|k: int| 0 <= k < old(self).cells@.len() && k != i
                ==> consistent_at(old(self).rules, old(self).cells@, old(self).width as int, old(self).height as int, k)
                || #[trigger] old(queue)@.contains(k as usize),
            forall|k: int| 0 <= k < old(self).cells@.len() && (#[trigger] old(self).cells@[k]).is_fixed()
                ==> consistent_at(old(self).rules, old(self).cells@, old(self).width as int, old(self).height as int, k),
        ensures
            final(self).base_wf(),
            final(self).width == old(self).width,
            final(self).height == old(self).height,
            final(self).palette == old(self).palette,
            final(self).rules == old(self).rules,
            final(self).history == old(self).history,
            final(self).cells@.len() == old(self).cells@.len(),
            ok == no_failure(final(self).cells@),
            forall|q: int| 0 <= q < final(queue)@.len() ==> final(queue)@[q] < final(self).cells@.len(),
            ok ==> forall|k: int| 0 <= k < final(self).cells@.len()
                ==> consistent_at(final(self).rules, final(self).cells@, final(self).width as int, final(self).height as int, k)
                || #[trigger] final(queue)@.contains(k as usize),
            ok ==> forall|k: int| 0 <= k < final(self).cells@.len() && (#[trigger] final(self).cells@[k]).is_fixed()
                ==> consistent_at(final(self).rules, final(self).cells@, final(self).width as int, final(self).height as int, k),
            forall|j: int, v: u32| 0 <= j < final(self).cells@.len() && #[trigger] final(self).cells@[j].values().contains(v)
                ==> old(self).cells@[j].values().contains(v),
            forall|j: int| 0 <= j < final(self).cells@.len() && (#[trigger] final(self).cells@[j]).is_open()
                ==> old(self).cells@[j].is_open(),
            forall|j: int| 0 <= j < final(self).cells@.len() && (#[trigger] old(self).cells@[j]).is_fixed()
                ==> final(self).cells@[j] == old(self).cells@[j],
            forall|t: Seq<u32>| valid_tiling(old(self).rules, old(self).width as int, old(self).height as int, t)
                && #[trigger] tiling_within(t, old(self).cells@) ==> ok && tiling_within(t, final(self).cells@),
            consistent_at(old(self).rules, old(self).cells@, old(self).width as int, old(self).height as int, i as int)
                ==> ok && forall|j: int| 0 <= j < final(self).cells@.len()
                    ==> (#[trigger] final(self).cells@[j]).values() == old(self).cells@[j].values(),
            ok ==> !(final(self).cells@[i as int].is_open() && final(self).cells@[i as int].values().len() == 1),
            forall|j: int| 0 <= j < final(self).cells@.len() && j != i ==> #[trigger] final(self).cells@[j] == old(self).cells@[j],
            ok ==> total_weight(final(self).cells@) < total_weight(old(self).cells@)
                || (total_weight(final(self).cells@) == total_weight(old(self).cells@) && final(queue)@ == old(queue)@),
            old(self).rules.unconstrained_over(old(self).palette@) ==> ok,
    {
        let ghost w = self.width as int;
        let ghost h = self.height as int;
        let ghost before = self.cells@;
        let ghost qp = queue@;
        let vals = self.cells[i].effective_values();
        let mut kept: Vec<u32> = Vec::new();
        let mut t: usize = 0;
        while t < vals.len()
            invariant
                self.base_wf(),
                i < self.cells@.len(),
                vals@ == self.cells@[i as int].values(),
                t <= vals@.len(),
                forall|v: u32| #[trigger] kept@.contains(v) ==> value_ok(self.rules, self.cells@, w, h, i as int, v),
                forall|u: int| 0 <= u < t && value_ok(self.rules, self.cells@, w, h, i as int, #[trigger] vals@[u])
                    ==> kept@.contains(vals@[u]),
                w == self.width,
                h == self.height,
            decreases vals@.len() - t,
        {
            assert(self.cells@[i as int].values().contains(vals@[t as int]));
            if self.fits(i, vals[t]) {
                proof {
                    lemma_push_contains(kept@, vals@[t as int]);
                }
                kept.push(vals[t]);
            }
            t = t + 1;
        }
        proof {
            assert forall|t: Seq<u32>| valid_tiling(self.rules, w, h, t) && #[trigger] tiling_within(t, before)
                implies kept@.contains(t[i as int]) by {
                reveal(tiling_within);
                lemma_tiling_value_ok(self.rules, before, w, h, t, i as int);
                assert(vals@.contains(t[i as int]));
                let u = choose|u: int| 0 <= u < vals@.len() && vals@[u] == t[i as int];
            }
            if consistent_at(self.rules, before, w, h, i as int) {
                assert forall|v: u32| #[trigger] vals@.contains(v) implies kept@.contains(v) by {
                    let u = choose|u: int| 0 <= u < vals@.len() && vals@[u] == v;
                }
                crate::cell::lemma_keep_all(vals@, kept@);
            }
        }
        let mut c = self.cells[i].duplicate();
        let outcome = c.restrict(&kept);
        let ghost c1 = c;
        if outcome == Narrowing::BecameEmpty {
            proof {
                if self.rules.unconstrained_over(self.palette@) {
                    let v0 = vals@[0];
                    assert(self.cells@[i as int].values().contains(v0));
                    lemma_unconstrained_value_ok(self.rules, self.cells@, w, h, self.palette@, i as int, v0);
                    assert(c.values().contains(v0));
                }
            }
            assert forall|t: Seq<u32>| valid_tiling(self.rules, w, h, t) && #[trigger] tiling_within(t, before)
                implies false by {
                reveal(tiling_within);
                assert(c.values().contains(t[i as int]));
            }
            self.cells.set(i, c);
            assert(self.cells@[i as int].is_failed());
            return false;
        }
        if c.is_unresolved() && c.entropy() == 1 {
            c.collapse_to(0);
            assert(c1.values() =~= c.values());
        }
        self.cells.set(i, c);
        proof {
            let after = self.cells@;
            lemma_total_weight_update(before, i as int, c);
            assert forall|j: int| 0 <= j < after.len() && j != i implies #[trigger] after[j].values() == before[j].values() by {}
            assert forall|v: u32| #[trigger] after[i as int].values().contains(v)
                implies before[i as int].values().contains(v) && kept@.contains(v) by {
                assert(c1.values().contains(v));
            }
            assert forall|d: Direction| #[trigger] neighbor_index(w, h, i as int, d) != Some(i as int) by {}
            lemma_near_same_update(before, after, w, h, i as int, i as int);
            assert forall|v: u32| #[trigger] after[i as int].values().contains(v)
                implies value_ok(self.rules, after, w, h, i as int, v) by {
                lemma_value_frame(self.rules, before, after, w, h, i as int, v);
            }
            assert(consistent_at(self.rules, after, w, h, i as int));
            assert(c.wf());
            assert(after[i as int].values().contains(after[i as int].values()[0]));
            assert forall|k: int| 0 <= k < after.len() && (#[trigger] after[k]).is_fixed()
                implies consistent_at(self.rules, after, w, h, k) by {
                if k != i {
                    lemma_fixed_stays(self.rules, before, after, w, h, i as int, k);
                }
            }
            assert forall|j: int, v: u32| 0 <= j < after.len() && #[trigger] after[j].values().contains(v)
                implies self.palette@.contains(v) by {
                assert(before[j].values().contains(v));
            }
        }
        if outcome != Narrowing::Unchanged {
            push_neighbors(self.width, self.height, i, queue);
        }
        proof {
            let after = self.cells@;
            assert forall|k: int| 0 <= k < after.len()
                implies consistent_at(self.rules, after, w, h, k) || #[trigger] queue@.contains(k as usize) by {
                if k != i && !qp.contains(k as usize) {
                    assert(consistent_at(self.rules, before, w, h, k));
                    if outcome == Narrowing::Unchanged {
                        assert(after[i as int].values() == before[i as int].values());
                        assert forall|d: Direction| (#[trigger] neighbor_index(w, h, k, d)) is Some
                            implies after[neighbor_index(w, h, k, d)->Some_0].values()
                                == before[neighbor_index(w, h, k, d)->Some_0].values() by {
                            lemma_neighbor(w, h, k, d);
                        }
                        lemma_consistent_frame(self.rules, before, after, w, h, k);
                    } else if forall|d: Direction| #[trigger] neighbor_index(w, h, i as int, d) != Some(k) {
                        lemma_near_same_update(before, after, w, h, i as int, k);
                        lemma_consistent_frame(self.rules, before, after, w, h, k);
                    } else {
                        let d = choose|d: Direction| #[trigger] neighbor_index(w, h, i as int, d) == Some(k);
                        assert(neighbor_index(w, h, i as int, d) is Some);
                    }
                }
            }
        }
        proof {
            let after = self.cells@;
            assert forall|t: Seq<u32>| valid_tiling(self.rules, w, h, t) && #[trigger] tiling_within(t, before)
                implies tiling_within(t, after) by {
                reveal(tiling_within);
                assert(c1.values().contains(t[i as int]));
                assert(after[i as int].values().contains(t[i as int]));
                assert forall|j: int| 0 <= j < after.len() implies #[trigger] after[j].values().contains(t[j]) by {
                    if j != i {
                        assert(before[j].values().contains(t[j]));
                    }
                }
            }
        }
        true
    }

    /// Whether some cell has no value left.
    pub fn has_contradiction(&self) -> (r: bool)
        ensures
            r == !no_failure(self.cells@),
    {
        let mut i: usize = 0;
        while i < self.cells.len()
            invariant
                i <= self.cells@.len(),
                forall|j: int| 0 <= j < i ==> !(#[trigger] self.cells@[j]).is_failed(),
            decreases self.cells@.len() - i,
        {
            if self.cells[i].is_contradiction() {
                return true;
            }
            i = i + 1;
        }
        false
    }

    /// Where the run stands: unsolvable once a cell has failed, solved once
    /// every cell is resolved, in progress otherwise.
    pub fn status(&self) -> (r: Status)
        ensures
            r == self.status_spec(),
    {
        if self.has_contradiction() {
            return Status::Unsolvable;
        }
        let mut i: usize = 0;
        while i < self.cells.len()
            invariant
                i <= self.cells@.len(),
                no_failure(self.cells@),
                forall|j: int| 0 <= j < i ==> (#[trigger] self.cells@[j]).is_fixed(),
            decreases self.cells@.len() - i,
        {
            if !self.cells[i].is_resolved() {
                assert(!all_fixed(self.cells@));
                return Status::InProgress;
            }
            i = i + 1;
        }
        Status::Solved
    }

    /// The cell at column `x` and row `y`.
    pub fn cell_at(&self, x: usize, y: usize) -> (r: Result<&WaveFunction, BoardError>)
        requires
            self.base_wf(),
        ensures
            (x < self.width && y < self.height) <==> r is Ok,
            r is Err ==> r == Err::<&WaveFunction, BoardError>(BoardError::OutOfBounds),
            r matches Ok(c) ==> *c == self.cells@[y * self.width + x] && c.x == x && c.y == y,
    {
        if x >= self.width || y >= self.height {
            return Err(BoardError::OutOfBounds);
        }
        proof {
            lemma_index_of(self.width as int, self.height as int, x as int, y as int);
        }
        Ok(&self.cells[y * self.width + x])
    }

    /// An open cell of least entropy, drawn by `rng` among those that tie;
    /// none once no cell is open.
    pub fn select_minimum_entropy_cell(&self, rng: &mut RandomSource) -> (r: Option<usize>)
        requires
            self.base_wf(),
        ensures
            r is None <==> forall|j: int| 0 <= j < self.cells@.len() ==> !(#[trigger] self.cells@[j]).is_open(),
            r matches Some(i) ==> {
                &&& i < self.cells@.len()
                &&& self.cells@[i as int].is_open()
                &&& forall|j: int| 0 <= j < self.cells@.len() && (#[trigger] self.cells@[j]).is_open()
                    ==> self.cells@[i as int].entropy_spec() <= self.cells@[j].entropy_spec()
                &&& match *old(rng) {
                    RandomSource::Scripted { picks, next } => next < picks@.len() ==> {
                        let t = ties_upto(self.cells@, self.cells@[i as int].entropy_spec(), self.cells@.len() as int);
                        i == t[(picks@[next as int] as int) % (t.len() as int)]
                    },
                    RandomSource::Thread => true,
                }
            },
    {
        let n = self.cells.len();
        let mut best: usize = 0;
        let mut found = false;
        let mut i: usize = 0;
        while i < n
            invariant
                n == self.cells@.len(),
                i <= n,
                found <==> exists|j: int| 0 <= j < i && (#[trigger] self.cells@[j]).is_open(),
                found ==> exists|j: int| 0 <= j < i && (#[trigger] self.cells@[j]).is_open()
                    && self.cells@[j].entropy_spec() == best,
                found ==> forall|j: int| 0 <= j < i && (#[trigger] self.cells@[j]).is_open()
                    ==> best <= self.cells@[j].entropy_spec(),
            decreases n - i,
        {
            if self.cells[i].is_unresolved() {
                let e = self.cells[i].entropy();
                if !found || e < best {
                    best = e;
                    found = true;
                }
            }
            i = i + 1;
        }
        if !found {
            return None;
        }
        let mut ties: Vec<usize> = Vec::new();
        let mut i: usize = 0;
        proof {
            reveal(ties_upto);
        }
        while i < n
            invariant
                n == self.cells@.len(),
                i <= n,
                forall|q: int| 0 <= q < ties@.len() ==> #[trigger] ties@[q] < n && self.cells@[ties@[q] as int].is_open()
                    && self.cells@[ties@[q] as int].entropy_spec() == best,
                forall|j: int| 0 <= j < i && (#[trigger] self.cells@[j]).is_open()
                    && self.cells@[j].entropy_spec() == best ==> ties@.contains(j as usize),
                ties@ == ties_upto(self.cells@, best as nat, i as int),
            decreases n - i,
        {
            proof {
                reveal(ties_upto);
            }
            if self.cells[i].is_unresolved() && self.cells[i].entropy() == best {
                proof {
                    assert forall|u: usize| ties@.contains(u) implies ties@.push(i).contains(u) by {
                        let q = choose|q: int| 0 <= q < ties@.len() && ties@[q] == u;
                        assert(ties@.push(i)[q] == u);
                    }
                    assert(ties@.push(i)[ties@.len() as int] == i);
                }
                ties.push(i);
            }
            i = i + 1;
        }
        proof {
            let j0 = choose|j: int| 0 <= j < n && (#[trigger] self.cells@[j]).is_open() && self.cells@[j].entropy_spec() == best;
            assert(ties@.contains(j0 as usize));
        }
        let k = rng.pick(ties.len());
        assert(self.cells@[ties@[k as int] as int].entropy_spec() == best);
        Some(ties[k])
    }

    /// Undoes decisions, most recent first, until excluding the value that a
    /// decision chose leaves a grid without failure; leaves the failed grid
    /// once no decision is left.
    fn backtrack(&mut self)
        requires
            old(self).base_wf(),
            old(self).settled,
            !no_failure(old(self).cells@),
        ensures
            final(self).wf(),
            final(self).settled,
            final(self).history@ == old(self).history@.subrange(0, final(self).history@.len() as int),
            old(self).history@.len() > 0 ==> final(self).history@.len() < old(self).history@.len(),
            final(self).width == old(self).width,
            final(self).height == old(self).height,
            final(self).palette == old(self).palette,
            final(self).rules == old(self).rules,
            final(self).history@.len() <= old(self).history@.len(),
    {
        let ghost w = self.width as int;
        let ghost h = self.height as int;
        while self.history.len() > 0
            invariant
                self.base_wf(),
                !no_failure(self.cells@),
                self.width == old(self).width,
                self.height == old(self).height,
                self.palette == old(self).palette,
                self.rules == old(self).rules,
                self.history@.len() <= old(self).history@.len(),
                self.history@ == old(self).history@.subrange(0, self.history@.len() as int),
                self.history@.len() == old(self).history@.len() || self.history@.len() < old(self).history@.len(),
                self.settled,
                w == self.width,
                h == self.height,
            decreases self.history@.len(),
        {
            let dec = match self.history.pop() {
                Some(dec) => dec,
                None => {
                    return;
                },
            };
            assert(decision_wf(self.rules, self.palette@, w, h, dec));
            let idx = dec.index;
            self.cells = dec.cells;
            let ghost before = self.cells@;
            let vals = self.cells[idx].effective_values();
            let others = without_value(&vals, dec.value);
            let mut c = self.cells[idx].duplicate();
            let outcome = c.restrict(&others);
            let ghost c1 = c;
            if c.is_unresolved() && c.entropy() == 1 {
                c.collapse_to(0);
                assert(c1.values() =~= c.values());
            }
            self.cells.set(idx, c);
            if outcome == Narrowing::BecameEmpty {
                assert(self.cells@[idx as int].is_failed());
                assert(self.base_wf());
            } else {
                let mut queue: Vec<usize> = Vec::new();
                push_neighbors(self.width, self.height, idx, &mut queue);
                proof {
                    let after = self.cells@;
                    assert forall|j: int| 0 <= j < after.len() && j != idx implies #[trigger] after[j].values() == before[j].values() by {}
                    assert forall|v: u32| #[trigger] after[idx as int].values().contains(v)
                        implies before[idx as int].values().contains(v) by {
                        assert(c1.values().contains(v));
                    }
                    lemma_shrink_one(self.rules, before, after, w, h, idx as int, queue@);
                    assert forall|j: int, v: u32| 0 <= j < after.len() && #[trigger] after[j].values().contains(v)
                        implies self.palette@.contains(v) by {
                        assert(before[j].values().contains(v));
                    }
                    assert(no_failure(after));
                    assert(self.base_wf());
                }
                let ok = self.propogate(queue);
                self.settled = true;
                if ok {
                    return;
                }
            }
        }
    }

    /// Filters every cell against its neighbours; returns whether no cell
    /// failed.
    fn settle(&mut self) -> (ok: bool)
        requires
            old(self).wf(),
            !old(self).settled,
            no_failure(old(self).cells@),
        ensures
            final(self).wf(),
            final(self).settled,
            ok == no_failure(final(self).cells@),
            final(self).width == old(self).width,
            final(self).height == old(self).height,
            final(self).palette == old(self).palette,
            final(self).rules == old(self).rules,
            final(self).history == old(self).history,
            final(self).cells@.len() == old(self).cells@.len(),
            forall|i: int| 0 <= i < final(self).cells@.len() && (#[trigger] final(self).cells@[i]).is_open()
                ==> old(self).cells@[i].is_open(),
            old(self).rules.unconstrained_over(old(self).palette@) ==> ok,
    {
        let all = all_indices(self.cells.len());
        let ok = self.propogate(all);
        self.settled = true;
        ok
    }

    /// One step of the solver. The first step filters every cell against its
    /// neighbours. Then an open cell of least entropy is collapsed and the
    /// change propagated; a contradiction is undone by backtracking. A grid
    /// that is solved or unsolvable stays as it is. Returns where the run
    /// stands.
    pub fn step(&mut self, rng: &mut RandomSource) -> (r: Status)
        requires
            old(self).wf(),
        ensures
            final(self).wf(),
            final(self).settled,
            r == final(self).status_spec(),
            r == Status::Unsolvable ==> final(self).history@.len() == 0,
            final(self).width == old(self).width,
            final(self).height == old(self).height,
            final(self).palette == old(self).palette,
            final(self).rules == old(self).rules,
            old(self).status_spec() != Status::InProgress ==> *final(self) == *old(self),
            old(self).settled && old(self).status_spec() == Status::InProgress ==> {
                // collapsed and kept
                ||| {
                    &&& final(self).history@.len() == old(self).history@.len() + 1
                    &&& final(self).history@.subrange(0, old(self).history@.len() as int) == old(self).history@
                    &&& decision_taken(old(self).cells@, final(self).cells@, final(self).history@.last())
                }
                // collapsed, failed and undone
                ||| {
                    &&& final(self).history@.len() <= old(self).history@.len()
                    &&& final(self).history@ == old(self).history@.subrange(0, final(self).history@.len() as int)
                }
            },
            old(self).rules.unconstrained_over(old(self).palette@) && no_failure(old(self).cells@)
                ==> r != Status::Unsolvable,
            old(self).rules.unconstrained_over(old(self).palette@) && old(self).settled
                && old(self).status_spec() == Status::InProgress ==> {
                &&& final(self).history@.len() == old(self).history@.len() + 1
                &&& decision_taken(old(self).cells@, final(self).cells@, final(self).history@.last())
                &&& forall|j: int| 0 <= j < final(self).cells@.len() && j != final(self).history@.last().index
                    ==> #[trigger] final(self).cells@[j].values() == old(self).cells@[j].values()
            },
            old(self).rules.unconstrained_over(old(self).palette@) && old(self).status_spec() == Status::InProgress
                ==> no_failure(final(self).cells@) && count_open(final(self).cells@) < count_open(old(self).cells@),
    {
        let ghost w = self.width as int;
        let ghost h = self.height as int;
        let ghost orig = self.cells@;
        if self.has_contradiction() {
            return Status::Unsolvable;
        }
        proof {
            assert(self.cells@.len() > 0) by (nonlinear_arith)
                requires self.cells@.len() == w * h, w > 0, h > 0;
            if !self.settled {
                assert(self.cells@[0].is_open());
            }
        }
        let ghost orig_settled = self.settled;
        if !self.settled && !self.settle() {
            return Status::Unsolvable;
        }
        let i = match self.select_minimum_entropy_cell(rng) {
            Some(i) => i,
            None => {
                proof {
                    if !orig_settled {
                        lemma_count_open_falls(orig, self.cells@, 0);
                    }
                }
                return Status::Solved;
            },
        };
        let ghost before = self.cells@;
        let ghost hist = self.history@;
        let snapshot = copy_cells(&self.cells);
        proof {
            lemma_consistent_same_values(self.rules, before, snapshot@, w, h);
        }
        let mut c = self.cells[i].duplicate();
        c.collapse(rng);
        let value = match &c.state {
            CellState::Resolved(v) => *v,
            _ => 0,
        };
        let ghost dec = Decision { cells: snapshot, index: i, value };
        self.history.push(Decision { cells: snapshot, index: i, value });
        self.cells.set(i, c);
        let mut queue: Vec<usize> = Vec::new();
        push_neighbors(self.width, self.height, i, &mut queue);
        proof {
            let after = self.cells@;
            assert forall|j: int| 0 <= j < after.len() && j != i implies #[trigger] after[j] == before[j] by {}
            assert forall|v: u32| #[trigger] after[i as int].values().contains(v)
                implies before[i as int].values().contains(v) by {
                assert(c.values()[0] == v);
            }
            assert(after[i as int].values().contains(after[i as int].values()[0]));
            lemma_shrink_one(self.rules, before, after, w, h, i as int, queue@);
            assert forall|j: int, v: u32| 0 <= j < after.len() && #[trigger] after[j].values().contains(v)
                implies self.palette@.contains(v) by {
                assert(before[j].values().contains(v));
            }
            assert forall|k: int| 0 <= k < self.history@.len()
                implies decision_wf(self.rules, self.palette@, w, h, #[trigger] self.history@[k]) by {
                if k < self.history@.len() - 1 {
                    assert(self.history@[k] == hist[k]);
                }
            }
            assert(no_failure(after));
            assert(self.base_wf());
        }
        let ghost mid = self.cells@;
        proof {
            if self.rules.unconstrained_over(self.palette@) {
                lemma_unconstrained_consistent(self.rules, mid, w, h, self.palette@);
            }
        }
        let ok = self.propogate(queue);
        self.settled = true;
        proof {
            if self.rules.unconstrained_over(self.palette@) && orig_settled {
                assert(before == orig);
                assert forall|j: int| 0 <= j < self.cells@.len() && j != i
                    implies #[trigger] self.cells@[j].values() == orig[j].values() by {
                    assert(self.cells@[j].values() == mid[j].values());
                    assert(mid[j] == before[j]);
                }
            }
            assert forall|j: int| 0 <= j < self.cells@.len() && (#[trigger] self.cells@[j]).is_open()
                implies before[j].is_open() by {
                assert(mid[j].is_open());
                if j != i {
                    assert(mid[j] == before[j]);
                }
            }
            lemma_count_open_falls(before, self.cells@, i as int);
            if !orig_settled {
                lemma_count_open_falls(orig, before, -1);
            }
            assert(self.history@.last() == dec);
            assert(self.history@.subrange(0, hist.len() as int) =~= hist);
            assert forall|j: int, v: u32| 0 <= j < self.cells@.len() && #[trigger] self.cells@[j].values().contains(v)
                implies before[j].values().contains(v) by {
                assert(mid[j].values().contains(v));
            }
            assert(self.cells@[i as int] == mid[i as int]);
        }
        if !ok {
            let ghost hpre = self.history@;
            self.backtrack();
            proof {
                assert(hpre == hist.push(dec));
                assert(hpre.len() == hist.len() + 1);
                assert(self.history@.len() < hpre.len());
                assert forall|j: int| 0 <= j < self.history@.len() implies self.history@[j] == hist[j] by {
                    assert(self.history@[j] == hpre[j]);
                    assert(hpre[j] == hist.push(dec)[j]);
                }
                assert(hist.subrange(0, self.history@.len() as int) =~= self.history@);
            }
        }
        self.status()
    }

    /// Runs `step` until the grid is solved or unsolvable, at most
    /// `max_steps` times. Under rules that bind nothing the run never fails,
    /// and as many steps as there are open cells solve the grid.
    pub fn solve(&mut self, rng: &mut RandomSource, max_steps: usize) -> (r: Status)
        requires
            old(self).wf(),
        ensures
            final(self).wf(),
            r == final(self).status_spec(),
            r == Status::Unsolvable ==> final(self).history@.len() == 0,
            final(self).width == old(self).width,
            final(self).height == old(self).height,
            final(self).palette == old(self).palette,
            final(self).rules == old(self).rules,
            old(self).status_spec() != Status::InProgress ==> *final(self) == *old(self),
            old(self).rules.unconstrained_over(old(self).palette@) && no_failure(old(self).cells@)
                ==> r != Status::Unsolvable,
            old(self).rules.unconstrained_over(old(self).palette@) && no_failure(old(self).cells@)
                && max_steps >= count_open(old(self).cells@) ==> r == Status::Solved,
            old(self).rules.unconstrained_over(old(self).palette@) && no_failure(old(self).cells@)
                && max_steps >= old(self).width * old(self).height ==> r == Status::Solved,
    {
        proof {
            lemma_count_open_bound(self.cells@);
        }
        let ghost free = self.rules.unconstrained_over(self.palette@) && no_failure(self.cells@);
        let ghost budget = max_steps >= count_open(self.cells@);
        let mut status = self.status();
        let mut k: usize = 0;
        while k < max_steps && status == Status::InProgress
            invariant
                self.wf(),
                status == self.status_spec(),
                k <= max_steps,
                self.width == old(self).width,
                self.height == old(self).height,
                self.palette == old(self).palette,
                self.rules == old(self).rules,
                old(self).status_spec() != Status::InProgress ==> *self == *old(self),
                free == (old(self).rules.unconstrained_over(old(self).palette@) && no_failure(old(self).cells@)),
                budget == (max_steps >= count_open(old(self).cells@)),
                free ==> no_failure(self.cells@),
                free && budget ==> count_open(self.cells@) + k <= max_steps,
            decreases max_steps - k,
        {
            status = self.step(rng);
            k = k + 1;
        }
        proof {
            if free && budget && status == Status::InProgress {
                assert(k == max_steps);
                lemma_count_open_zero(self.cells@);
                assert(all_fixed(self.cells@));
            }
        }
        status
    }
}

} // verus!

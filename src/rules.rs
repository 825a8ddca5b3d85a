use vstd::prelude::*;

verus! {

/// One of the four sides of a grid cell.
#[derive(Clone, Copy, Debug, PartialEq, Eq, Structural)]
pub enum Direction {
    Up,
    Right,
    Down,
    Left,
}

impl Direction {
    pub open spec fn opposite_spec(self) -> Direction {
        match self {
            Direction::Up => Direction::Down,
            Direction::Right => Direction::Left,
            Direction::Down => Direction::Up,
            Direction::Left => Direction::Right,
        }
    }

    /// The side facing this one from the neighbouring cell.
    pub fn opposite(self) -> (r: Direction)
        ensures
            r == self.opposite_spec(),
    {
        match self {
            Direction::Up => Direction::Down,
            Direction::Right => Direction::Left,
            Direction::Down => Direction::Up,
            Direction::Left => Direction::Right,
        }
    }
}

/// Whether `list` holds `v`.
pub fn contains_value(list: &Vec<u32>, v: u32) -> (r: bool)
    ensures
        r == list@.contains(v),
{
    let mut i: usize = 0;
    while i < list.len()
        invariant
            i <= list@.len(),
            forall|j: int| 0 <= j < i ==> list@[j] != v,
        decreases list@.len() - i,
    {
        if list[i] == v {
            assert(list@[i as int] == v);
            return true;
        }
        i = i + 1;
    }
    assert(!list@.contains(v));
    false
}

/// The adjacency rule of one tile value: for each side, the tile values
/// that may stand in the neighbouring cell on that side.
#[derive(Clone, Debug)]
pub struct TileRule {
    pub up: Vec<u32>,
    pub right: Vec<u32>,
    pub down: Vec<u32>,
    pub left: Vec<u32>,
}

impl TileRule {
    pub open spec fn allowed(&self, d: Direction) -> Seq<u32> {
        match d {
            Direction::Up => self.up@,
            Direction::Right => self.right@,
            Direction::Down => self.down@,
            Direction::Left => self.left@,
        }
    }

    pub fn new(up: Vec<u32>, right: Vec<u32>, down: Vec<u32>, left: Vec<u32>) -> (r: TileRule)
        ensures
            r.up@ == up@,
            r.right@ == right@,
            r.down@ == down@,
            r.left@ == left@,
    {
        TileRule { up, right, down, left }
    }

    /// The same list of permitted neighbours on every side.
    pub fn uniform(permitted: &Vec<u32>) -> (r: TileRule)
        ensures
            forall|d: Direction| #[trigger] r.allowed(d) == permitted@,
    {
        TileRule {
            up: permitted.clone(),
            right: permitted.clone(),
            down: permitted.clone(),
            left: permitted.clone(),
        }
    }

    pub fn permitted(&self, d: Direction) -> (r: &Vec<u32>)
        ensures
            r@ == self.allowed(d),
    {
        match d {
            Direction::Up => &self.up,
            Direction::Right => &self.right,
            Direction::Down => &self.down,
            Direction::Left => &self.left,
        }
    }

    /// Whether `other` may stand next to this tile on side `d`.
    pub fn allows(&self, d: Direction, other: u32) -> (r: bool)
        ensures
            r == self.allowed(d).contains(other),
    {
        contains_value(self.permitted(d), other)
    }
}

/// The adjacency rules of every tile value, one entry per value.
#[derive(Clone, Debug)]
pub struct RuleTable {
    pub entries: Vec<(u32, TileRule)>,
}

impl RuleTable {
    /// No tile value has two entries.
    pub open spec fn wf(&self) -> bool {
        forall|i: int, j: int|
            0 <= i < self.entries@.len() && 0 <= j < self.entries@.len() && i != j
                ==> #[trigger] self.entries@[i].0 != #[trigger] self.entries@[j].0
    }

    pub open spec fn covers(&self, t: u32) -> bool {
        exists|i: int| 0 <= i < self.entries@.len() && #[trigger] self.entries@[i].0 == t
    }

    /// Tile `a` lets tile `b` stand on its side `d`.
    pub open spec fn permits(&self, a: u32, d: Direction, b: u32) -> bool {
        exists|i: int|
            0 <= i < self.entries@.len() && #[trigger] self.entries@[i].0 == a
                && self.entries@[i].1.allowed(d).contains(b)
    }

    /// Every tile of `palette` lets every tile of `palette` stand on each side.
    pub open spec fn unconstrained_over(&self, palette: Seq<u32>) -> bool {
        forall|a: u32, d: Direction, b: u32|
            palette.contains(a) && palette.contains(b) ==> #[trigger] self.permits(a, d, b)
    }

    /// Tiles `a` and `b` may stand side by side, `b` on side `d` of `a`: each
    /// one's rule lets the other stand there.
    pub open spec fn compatible(&self, a: u32, d: Direction, b: u32) -> bool {
        self.permits(a, d, b) && self.permits(b, d.opposite_spec(), a)
    }

    /// Some value of `near` may stand on side `d` of tile `v`.
    pub open spec fn supported(&self, v: u32, d: Direction, near: Seq<u32>) -> bool {
        exists|u: u32| near.contains(u) && #[trigger] self.compatible(v, d, u)
    }

    pub proof fn lemma_compatible_symmetric(&self, a: u32, d: Direction, b: u32)
        ensures
            self.compatible(a, d, b) == self.compatible(b, d.opposite_spec(), a),
    {
    }

    /// The rule of tile `t`.
    pub fn rule_of(&self, t: u32) -> (r: &TileRule)
        requires
            self.wf(),
            self.covers(t),
        ensures
            forall|d: Direction, b: u32| #[trigger] r.allowed(d).contains(b) == self.permits(t, d, b),
    {
        let mut i: usize = 0;
        while i < self.entries.len()
            invariant
                i <= self.entries@.len(),
                self.wf(),
                self.covers(t),
                forall|j: int| 0 <= j < i ==> self.entries@[j].0 != t,
            decreases self.entries@.len() - i,
        {
            if self.entries[i].0 == t {
                let r = &self.entries[i].1;
                assert forall|d: Direction, b: u32| #[trigger] r.allowed(d).contains(b) == self.permits(t, d, b) by {
                    if self.permits(t, d, b) {
                        let k = choose|k: int| 0 <= k < self.entries@.len() && #[trigger] self.entries@[k].0 == t
                            && self.entries@[k].1.allowed(d).contains(b);
                        assert(k == i);
                    }
                }
                return r;
            }
            i = i + 1;
        }
        &self.entries[0].1
    }

    /// Whether the table has an entry for tile `t`.
    pub fn has_rule(&self, t: u32) -> (r: bool)
        ensures
            r == self.covers(t),
    {
        let mut i: usize = 0;
        while i < self.entries.len()
            invariant
                i <= self.entries@.len(),
                forall|j: int| 0 <= j < i ==> self.entries@[j].0 != t,
            decreases self.entries@.len() - i,
        {
            if self.entries[i].0 == t {
                assert(self.entries@[i as int].0 == t);
                return true;
            }
            i = i + 1;
        }
        false
    }

    /// Whether tile `a` lets tile `b` stand on its side `d`.
    pub fn allows(&self, a: u32, d: Direction, b: u32) -> (r: bool)
        requires
            self.wf(),
            self.covers(a),
        ensures
            r == self.permits(a, d, b),
    {
        self.rule_of(a).allows(d, b)
    }

    /// Whether some value of `near` may stand on side `d` of tile `v`.
    pub fn supports(&self, v: u32, d: Direction, near: &Vec<u32>) -> (r: bool)
        requires
            self.wf(),
            self.covers(v),
            forall|u: u32| #[trigger] near@.contains(u) ==> self.covers(u),
        ensures
            r == self.supported(v, d, near@),
    {
        let back = d.opposite();
        let mut i: usize = 0;
        while i < near.len()
            invariant
                i <= near@.len(),
                self.wf(),
                self.covers(v),
                back == d.opposite_spec(),
                forall|u: u32| #[trigger] near@.contains(u) ==> self.covers(u),
                forall|j: int| 0 <= j < i ==> !self.compatible(v, d, #[trigger] near@[j]),
            decreases near@.len() - i,
        {
            assert(near@.contains(near@[i as int]));
            if self.allows(v, d, near[i]) && self.allows(near[i], back, v) {
                assert(self.compatible(v, d, near@[i as int]));
                return true;
            }
            i = i + 1;
        }
        assert forall|u: u32| near@.contains(u) implies !#[trigger] self.compatible(v, d, u) by {
            let k = choose|k: int| 0 <= k < near@.len() && near@[k] == u;
        }
        false
    }

    pub fn new() -> (r: RuleTable)
        ensures
            r.wf(),
            r.entries@.len() == 0,
    {
        RuleTable { entries: Vec::new() }
    }

    /// Sets the rule of tile `t`, replacing the one it had.
    pub fn set_rule(&mut self, t: u32, rule: TileRule)
        requires
            old(self).wf(),
        ensures
            final(self).wf(),
            final(self).covers(t),
            forall|a: u32, d: Direction, b: u32|
                #![trigger final(self).permits(a, d, b)]
                a != t ==> (final(self).permits(a, d, b) == old(self).permits(a, d, b)),
            forall|d: Direction, b: u32|
                #![trigger final(self).permits(t, d, b)]
                final(self).permits(t, d, b) == rule.allowed(d).contains(b),
            forall|a: u32| a != t ==> (#[trigger] final(self).covers(a) == old(self).covers(a)),
    {
        let mut i: usize = 0;
        while i < self.entries.len() && self.entries[i].0 != t
            invariant
                i <= self.entries@.len(),
                forall|j: int| 0 <= j < i ==> self.entries@[j].0 != t,
            decreases self.entries@.len() - i,
        {
            i = i + 1;
        }
        if i < self.entries.len() {
            self.entries.set(i, (t, rule));
            assert(self.entries@[i as int].0 == t);
        } else {
            self.entries.push((t, rule));
            assert(self.entries@[i as int].0 == t);
        }
        assert forall|a: u32, d: Direction, b: u32|
            a != t implies (self.permits(a, d, b) == #[trigger] old(self).permits(a, d, b)) by {
            if self.permits(a, d, b) {
                let k = choose|k: int| 0 <= k < self.entries@.len() && #[trigger] self.entries@[k].0 == a
                    && self.entries@[k].1.allowed(d).contains(b);
                assert(old(self).entries@[k] == self.entries@[k]);
            }
            if old(self).permits(a, d, b) {
                let k = choose|k: int| 0 <= k < old(self).entries@.len() && #[trigger] old(self).entries@[k].0 == a
                    && old(self).entries@[k].1.allowed(d).contains(b);
                assert(old(self).entries@[k] == self.entries@[k]);
            }
        }
        assert forall|a: u32| a != t implies (#[trigger] self.covers(a) == old(self).covers(a)) by {
            if self.covers(a) {
                let k = choose|k: int| 0 <= k < self.entries@.len() && #[trigger] self.entries@[k].0 == a;
                assert(old(self).entries@[k] == self.entries@[k]);
            }
            if old(self).covers(a) {
                let k = choose|k: int| 0 <= k < old(self).entries@.len() && #[trigger] old(self).entries@[k].0 == a;
                assert(old(self).entries@[k] == self.entries@[k]);
            }
        }
    }
}

} // verus!

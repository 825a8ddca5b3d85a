use vstd::prelude::*;
use crate::random::RandomSource;
use crate::rules::contains_value;

verus! {

/// The values of `s` that `allowed` holds, in the order of `s`.
pub open spec fn keep_allowed(s: Seq<u32>, allowed: Seq<u32>) -> Seq<u32>
    decreases s.len(),
{
    if s.len() == 0 {
        seq![]
    } else {
        let p = keep_allowed(s.drop_last(), allowed);
        if allowed.contains(s.last()) {
            p.push(s.last())
        } else {
            p
        }
    }
}

/// The values of `s` with repeats dropped, each kept where it first occurs.
pub open spec fn distinct_values(s: Seq<u32>) -> Seq<u32>
    decreases s.len(),
{
    if s.len() == 0 {
        seq![]
    } else {
        let p = distinct_values(s.drop_last());
        if p.contains(s.last()) {
            p
        } else {
            p.push(s.last())
        }
    }
}

pub proof fn lemma_push_contains(p: Seq<u32>, x: u32)
    ensures
        forall|v: u32| #[trigger] p.push(x).contains(v) <==> (p.contains(v) || v == x),
{
    assert forall|v: u32| #[trigger] p.push(x).contains(v) <==> (p.contains(v) || v == x) by {
        if p.contains(v) {
            let k = choose|k: int| 0 <= k < p.len() && p[k] == v;
            assert(p.push(x)[k] == v);
        }
        if v == x {
            assert(p.push(x)[p.len() as int] == v);
        }
        if p.push(x).contains(v) {
            let k = choose|k: int| 0 <= k < p.len() + 1 && p.push(x)[k] == v;
            if k < p.len() {
                assert(p[k] == v);
            }
        }
    }
}

pub proof fn lemma_drop_last_contains(s: Seq<u32>)
    requires
        s.len() > 0,
    ensures
        forall|v: u32| #[trigger] s.contains(v) <==> (s.drop_last().contains(v) || v == s.last()),
{
    lemma_push_contains(s.drop_last(), s.last());
    assert(s =~= s.drop_last().push(s.last()));
}

pub proof fn lemma_keep_allowed(s: Seq<u32>, allowed: Seq<u32>)
    ensures
        forall|v: u32| #[trigger] keep_allowed(s, allowed).contains(v) <==> (s.contains(v) && allowed.contains(v)),
        keep_allowed(s, allowed).len() <= s.len(),
        s.no_duplicates() ==> keep_allowed(s, allowed).no_duplicates(),
        keep_allowed(s, allowed).len() == s.len() ==> keep_allowed(s, allowed) == s,
    decreases s.len(),
{
    if s.len() > 0 {
        let q = s.drop_last();
        let p = keep_allowed(q, allowed);
        lemma_keep_allowed(q, allowed);
        lemma_drop_last_contains(s);
        lemma_push_contains(p, s.last());
        if s.no_duplicates() {
            assert(q.no_duplicates());
            if allowed.contains(s.last()) {
                if p.contains(s.last()) {
                    let k = choose|k: int| 0 <= k < q.len() && q[k] == s.last();
                    assert(s[k] == s[s.len() - 1]);
                }
            }
        }
        if keep_allowed(s, allowed).len() == s.len() {
            assert(allowed.contains(s.last()));
            assert(s =~= q.push(s.last()));
        }
    }
}

/// Keeping every value of `s` keeps `s` whole.
pub proof fn lemma_keep_all(s: Seq<u32>, allowed: Seq<u32>)
    requires
        forall|v: u32| #[trigger] s.contains(v) ==> allowed.contains(v),
    ensures
        keep_allowed(s, allowed) == s,
    decreases s.len(),
{
    if s.len() > 0 {
        lemma_drop_last_contains(s);
        assert forall|v: u32| #[trigger] s.drop_last().contains(v) implies allowed.contains(v) by {
            assert(s.contains(v));
        }
        lemma_keep_all(s.drop_last(), allowed);
        assert(s.contains(s.last())) by {
            assert(s[s.len() - 1] == s.last());
        }
        assert(s.drop_last().push(s.last()) =~= s);
    }
}

pub proof fn lemma_distinct_values(s: Seq<u32>)
    ensures
        forall|v: u32| #[trigger] distinct_values(s).contains(v) <==> s.contains(v),
        distinct_values(s).no_duplicates(),
    decreases s.len(),
{
    if s.len() > 0 {
        let q = s.drop_last();
        lemma_distinct_values(q);
        lemma_drop_last_contains(s);
        lemma_push_contains(distinct_values(q), s.last());
    }
}

/// What a cell knows of its value.
#[derive(Debug)]
pub enum CellState {
    /// Still open: the values it may take, none twice, never empty.
    Unresolved(Vec<u32>),
    /// Fixed to one value.
    Resolved(u32),
    /// Filtering left no value it could take.
    Contradiction,
}

/// What a call of `restrict` did to a cell.
#[derive(Clone, Copy, Debug, PartialEq, Eq, Structural)]
pub enum Narrowing {
    Unchanged,
    Narrowed,
    Singleton,
    BecameEmpty,
}

/// One grid position and its state.
#[derive(Debug)]
pub struct WaveFunction {
    pub x: usize,
    pub y: usize,
    pub state: CellState,
}

impl WaveFunction {
    pub open spec fn wf(&self) -> bool {
        match self.state {
            CellState::Unresolved(c) => c@.len() > 0 && c@.no_duplicates(),
            _ => true,
        }
    }

    /// The values the cell may still take.
    pub open spec fn values(&self) -> Seq<u32> {
        match self.state {
            CellState::Unresolved(c) => c@,
            CellState::Resolved(v) => seq![v],
            CellState::Contradiction => seq![],
        }
    }

    pub open spec fn entropy_spec(&self) -> nat {
        match self.state {
            CellState::Unresolved(c) => c@.len(),
            _ => 0,
        }
    }

    pub open spec fn is_open(&self) -> bool {
        self.state is Unresolved
    }

    pub open spec fn is_fixed(&self) -> bool {
        self.state is Resolved
    }

    pub open spec fn is_failed(&self) -> bool {
        self.state is Contradiction
    }

    /// Entropy is zero exactly when the cell is no longer open, and a cell is
    /// never resolved and failed at once.
    pub proof fn lemma_entropy_zero_iff_settled(&self)
        requires
            self.wf(),
        ensures
            self.entropy_spec() == 0 <==> !self.is_open(),
            self.is_fixed() ==> self.entropy_spec() == 0,
            !(self.is_fixed() && self.is_failed()),
            self.is_failed() <==> self.values().len() == 0,
    {
    }

    /// An open cell at `(x, y)` that may take each palette value, once each.
    pub fn new(x: usize, y: usize, palette: &Vec<u32>) -> (r: WaveFunction)
        requires
            palette@.len() > 0,
        ensures
            r.wf(),
            r.x == x,
            r.y == y,
            r.is_open(),
            r.values() == distinct_values(palette@),
            forall|v: u32| #[trigger] r.values().contains(v) <==> palette@.contains(v),
    {
        let mut c: Vec<u32> = Vec::new();
        let mut i: usize = 0;
        while i < palette.len()
            invariant
                i <= palette@.len(),
                c@ == distinct_values(palette@.subrange(0, i as int)),
            decreases palette@.len() - i,
        {
            let v = palette[i];
            assert(palette@.subrange(0, i + 1).drop_last() =~= palette@.subrange(0, i as int));
            if !contains_value(&c, v) {
                c.push(v);
            }
            i = i + 1;
        }
        assert(palette@.subrange(0, palette@.len() as int) =~= palette@);
        proof {
            lemma_distinct_values(palette@);
            assert(palette@.contains(palette@[0]));
        }
        WaveFunction { x, y, state: CellState::Unresolved(c) }
    }

    /// The number of values left to an open cell; 0 for a resolved cell and
    /// for a contradiction.
    pub fn entropy(&self) -> (r: usize)
        ensures
            r == self.entropy_spec(),
            self.is_fixed() ==> r == 0,
            self.is_failed() ==> r == 0,
            self.wf() && self.is_open() ==> r > 0,
    {
        match &self.state {
            CellState::Unresolved(c) => c.len(),
            _ => 0,
        }
    }

    pub fn is_resolved(&self) -> (r: bool)
        ensures
            r == self.is_fixed(),
    {
        match &self.state {
            CellState::Resolved(_) => true,
            _ => false,
        }
    }

    pub fn is_unresolved(&self) -> (r: bool)
        ensures
            r == self.is_open(),
    {
        match &self.state {
            CellState::Unresolved(_) => true,
            _ => false,
        }
    }

    pub fn is_contradiction(&self) -> (r: bool)
        ensures
            r == self.is_failed(),
    {
        match &self.state {
            CellState::Contradiction => true,
            _ => false,
        }
    }

    /// The values the cell may take: its candidates while open, its value once
    /// resolved, nothing after a contradiction.
    pub fn effective_values(&self) -> (r: Vec<u32>)
        ensures
            r@ == self.values(),
            self.is_fixed() ==> r@.len() == 1,
            self.wf() && self.is_open() ==> r@.len() > 0,
            self.is_failed() ==> r@.len() == 0,
    {
        match &self.state {
            CellState::Unresolved(c) => c.clone(),
            CellState::Resolved(v) => vec![*v],
            CellState::Contradiction => Vec::new(),
        }
    }

    /// A copy of the cell.
    pub fn duplicate(&self) -> (r: WaveFunction)
        ensures
            r.x == self.x,
            r.y == self.y,
            r.values() == self.values(),
            r.is_open() == self.is_open(),
            r.is_fixed() == self.is_fixed(),
            r.is_failed() == self.is_failed(),
            self.wf() ==> r.wf(),
    {
        let state = match &self.state {
            CellState::Unresolved(c) => CellState::Unresolved(c.clone()),
            CellState::Resolved(v) => CellState::Resolved(*v),
            CellState::Contradiction => CellState::Contradiction,
        };
        WaveFunction { x: self.x, y: self.y, state }
    }

    /// Resolves an open cell to its candidate at `idx`.
    pub fn collapse_to(&mut self, idx: usize)
        requires
            old(self).is_open(),
            idx < old(self).values().len(),
        ensures
            final(self).x == old(self).x,
            final(self).y == old(self).y,
            final(self).state == CellState::Resolved(old(self).values()[idx as int]),
    {
        let v = match &self.state {
            CellState::Unresolved(c) => c[idx],
            _ => 0,
        };
        self.state = CellState::Resolved(v);
    }

    /// Resolves an open cell to one of its candidates, picked by `rng`.
    pub fn collapse(&mut self, rng: &mut RandomSource)
        requires
            old(self).is_open(),
            old(self).wf(),
        ensures
            final(self).x == old(self).x,
            final(self).y == old(self).y,
            final(self).is_fixed(),
            old(self).values().contains(final(self).values()[0]),
            match *old(rng) {
                RandomSource::Scripted { picks, next } => next < picks@.len() ==> final(self).state
                    == CellState::Resolved(old(self).values()[(picks@[next as int] as int) % (old(self).values().len() as int)]),
                RandomSource::Thread => true,
            },
    {
        let n = self.entropy();
        let idx = rng.pick(n);
        self.collapse_to(idx);
        assert(old(self).values()[idx as int] == self.values()[0]);
    }

    /// Keeps only the candidates that `allowed` holds. A cell left with none
    /// becomes a contradiction; one left with a single candidate stays open
    /// for the caller to resolve.
    pub fn restrict(&mut self, allowed: &Vec<u32>) -> (r: Narrowing)
        requires
            old(self).wf(),
            old(self).is_open(),
        ensures
            final(self).wf(),
            final(self).x == old(self).x,
            final(self).y == old(self).y,
            final(self).values() == keep_allowed(old(self).values(), allowed@),
            forall|v: u32| #[trigger] final(self).values().contains(v)
                <==> (old(self).values().contains(v) && allowed@.contains(v)),
            (r == Narrowing::BecameEmpty) <==> final(self).values().len() == 0,
            (r == Narrowing::BecameEmpty) <==> final(self).is_failed(),
            (r == Narrowing::Unchanged) <==> final(self).values() == old(self).values(),
            (r == Narrowing::Singleton) <==> (final(self).values().len() == 1 && old(self).values().len() > 1),
            (r == Narrowing::Narrowed) <==> (1 < final(self).values().len() < old(self).values().len()),
            !final(self).is_fixed(),
            final(self).is_open() <==> r != Narrowing::BecameEmpty,
    {
        proof {
            lemma_keep_allowed(self.values(), allowed@);
        }
        match &self.state {
            CellState::Unresolved(c) => {
                let mut kept: Vec<u32> = Vec::new();
                let mut i: usize = 0;
                while i < c.len()
                    invariant
                        i <= c@.len(),
                        kept@ == keep_allowed(c@.subrange(0, i as int), allowed@),
                    decreases c@.len() - i,
                {
                    assert(c@.subrange(0, i + 1).drop_last() =~= c@.subrange(0, i as int));
                    if contains_value(allowed, c[i]) {
                        kept.push(c[i]);
                    }
                    i = i + 1;
                }
                assert(c@.subrange(0, c@.len() as int) =~= c@);
                if kept.len() == 0 {
                    self.state = CellState::Contradiction;
                    assert(self.values() =~= keep_allowed(old(self).values(), allowed@));
                    Narrowing::BecameEmpty
                } else if kept.len() == c.len() {
                    Narrowing::Unchanged
                } else {
                    let one = kept.len() == 1;
                    self.state = CellState::Unresolved(kept);
                    if one {
                        Narrowing::Singleton
                    } else {
                        Narrowing::Narrowed
                    }
                }
            },
            _ => Narrowing::Unchanged,
        }
    }
}

} // verus!

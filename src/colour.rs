use vstd::prelude::*;
use vstd::arithmetic::div_mod::{lemma_div_is_ordered, lemma_fundamental_div_mod};
use crate::cell::{WaveFunction, CellState};
use crate::board::{cells_wf, Board};

verus! {

/// A display colour, one byte per channel.
#[derive(Clone, Copy, Debug, PartialEq, Eq, Structural)]
pub struct Colour {
    pub r: u8,
    pub g: u8,
    pub b: u8,
}

/// How a cell is shown: a colour derived from its values, or the error mark
/// of a cell with no value left, which no tile value can produce.
#[derive(Clone, Copy, Debug, PartialEq, Eq, Structural)]
pub enum Paint {
    Rgb(Colour),
    Error,
}

/// The channel of packed RGB value `v` whose bytes start at `unit`
/// (65536 for red, 256 for green, 1 for blue).
pub open spec fn channel(v: u32, unit: nat) -> nat {
    ((v as nat) / unit) % 256
}

/// The sum, over the values of `s`, of their channel divided by `n`.
pub open spec fn share_sum(s: Seq<u32>, unit: nat, n: nat) -> nat
    decreases s.len(),
{
    if s.len() == 0 {
        0
    } else {
        share_sum(s.drop_last(), unit, n) + channel(s.last(), unit) / n
    }
}

pub open spec fn tile_colour_spec(v: u32) -> Colour {
    Colour { r: channel(v, 65536) as u8, g: channel(v, 256) as u8, b: channel(v, 1) as u8 }
}

/// How a cell is drawn: a resolved cell in its value's colour, an open cell
/// in the average of its candidates' colours, a failed cell in the error
/// colour.
pub open spec fn colour_of(c: WaveFunction) -> Paint {
    match c.state {
        CellState::Resolved(v) => Paint::Rgb(tile_colour_spec(v)),
        CellState::Unresolved(cands) => Paint::Rgb(Colour {
            r: share_sum(cands@, 65536, cands@.len()) as u8,
            g: share_sum(cands@, 256, cands@.len()) as u8,
            b: share_sum(cands@, 1, cands@.len()) as u8,
        }),
        CellState::Contradiction => Paint::Error,
    }
}

proof fn lemma_share_sum_bound(s: Seq<u32>, unit: nat, n: nat)
    requires
        unit > 0,
        n > 0,
    ensures
        share_sum(s, unit, n) <= s.len() * (255int / (n as int)),
    decreases s.len(),
{
    if s.len() > 0 {
        lemma_share_sum_bound(s.drop_last(), unit, n);
        lemma_div_is_ordered(channel(s.last(), unit) as int, 255, n as int);
        let k = s.len() as int;
        let q = 255int / (n as int);
        assert((k - 1) * q + q == k * q) by (nonlinear_arith);
    }
}

proof fn lemma_share_total(s: Seq<u32>, unit: nat)
    requires
        unit > 0,
        s.len() > 0,
    ensures
        share_sum(s, unit, s.len()) <= 255,
        s.len() * (255int / (s.len() as int)) <= 255,
{
    let n = s.len();
    lemma_share_sum_bound(s, unit, n);
    lemma_fundamental_div_mod(255, n as int);
    let q = 255int / (n as int);
    assert(n * q <= 255) by (nonlinear_arith)
        requires 255 == n * q + 255int % (n as int), 255int % (n as int) >= 0;
}

/// The colour of packed RGB value `v`.
pub fn tile_colour(v: u32) -> (r: Colour)
    ensures
        r == tile_colour_spec(v),
{
    Colour { r: (v / 65536 % 256) as u8, g: (v / 256 % 256) as u8, b: (v % 256) as u8 }
}

/// The sum over `cands` of the channel at `unit` divided by the number of
/// candidates.
fn channel_share(cands: &Vec<u32>, unit: u32) -> (r: u8)
    requires
        cands@.len() > 0,
        unit > 0,
    ensures
        r == share_sum(cands@, unit as nat, cands@.len()),
{
    let n = cands.len();
    let ghost q = 255int / (n as int);
    let mut sum: u64 = 0;
    let mut i: usize = 0;
    proof {
        lemma_share_total(cands@, unit as nat);
    }
    while i < n
        invariant
            n == cands@.len(),
            n > 0,
            unit > 0,
            i <= n,
            q == 255int / (n as int),
            sum == share_sum(cands@.subrange(0, i as int), unit as nat, n as nat),
            sum <= i * q,
            n * q <= 255,
        decreases n - i,
    {
        proof {
            assert(cands@.subrange(0, i + 1).drop_last() =~= cands@.subrange(0, i as int));
            lemma_div_is_ordered(channel(cands@[i as int], unit as nat) as int, 255, n as int);
            assert((i + 1) * q == i * q + q) by (nonlinear_arith);
            assert((i + 1) * q <= n * q) by (nonlinear_arith)
                requires i + 1 <= n, q >= 0;
        }
        let share = (cands[i] / unit % 256) as u64 / n as u64;
        sum = sum + share;
        i = i + 1;
    }
    assert(cands@.subrange(0, n as int) =~= cands@);
    sum as u8
}

impl WaveFunction {
    /// How the cell is drawn.
    pub fn colour(&self) -> (r: Paint)
        requires
            self.wf(),
        ensures
            r == colour_of(*self),
    {
        match &self.state {
            CellState::Resolved(v) => Paint::Rgb(tile_colour(*v)),
            CellState::Unresolved(cands) => Paint::Rgb(Colour {
                r: channel_share(cands, 65536),
                g: channel_share(cands, 256),
                b: channel_share(cands, 1),
            }),
            CellState::Contradiction => Paint::Error,
        }
    }
}

impl Board {
    /// How every cell is drawn, in storage order.
    pub fn render_colors(&self) -> (r: Vec<Paint>)
        requires
            self.base_wf(),
        ensures
            r@.len() == self.cells@.len(),
            forall|i: int| 0 <= i < r@.len() ==> #[trigger] r@[i] == colour_of(self.cells@[i]),
    {
        let mut r: Vec<Paint> = Vec::with_capacity(self.cells.len());
        let mut i: usize = 0;
        while i < self.cells.len()
            invariant
                i <= self.cells@.len(),
                cells_wf(self.cells@, self.width as int, self.height as int, self.palette@),
                r@.len() == i,
                forall|j: int| 0 <= j < i ==> #[trigger] r@[j] == colour_of(self.cells@[j]),
            decreases self.cells@.len() - i,
        {
            r.push(self.cells[i].colour());
            i = i + 1;
        }
        r
    }
}

} // verus!

use vstd::prelude::*;
use rand::Rng;

verus! {

/// Relies on rand::thread_rng and Rng::gen_range: a value drawn from the
/// range `0..n`, which panics only when the range is empty.
#[verifier::external_body]
fn random_below(n: usize) -> (r: usize)
    requires
        n > 0,
    ensures
        r < n,
{
    rand::thread_rng().gen_range(0..n)
}

/// Where the random choices of the solver come from: the thread's generator,
/// or a fixed script of picks that makes a run reproducible.
#[derive(Clone, Debug)]
pub enum RandomSource {
    Thread,
    Scripted { picks: Vec<usize>, next: usize },
}

impl RandomSource {
    pub fn thread() -> (r: RandomSource)
        ensures
            r is Thread,
    {
        RandomSource::Thread
    }

    /// A source that answers the `k`-th request below `n` with `picks[k] % n`,
    /// and with 0 once the script is used up.
    pub fn scripted(picks: Vec<usize>) -> (r: RandomSource)
        ensures
            r == (RandomSource::Scripted { picks, next: 0 }),
    {
        RandomSource::Scripted { picks, next: 0 }
    }

    /// A value below `n`.
    pub fn pick(&mut self, n: usize) -> (r: usize)
        requires
            n > 0,
        ensures
            r < n,
            (*old(self)) is Thread ==> (*final(self)) is Thread,
            match *old(self) {
                RandomSource::Scripted { picks, next } => {
                    &&& next < picks@.len() ==> r == picks@[next as int] % n
                        && *final(self) == (RandomSource::Scripted { picks, next: (next + 1) as usize })
                    &&& next >= picks@.len() ==> r == 0 && *final(self) == *old(self)
                },
                RandomSource::Thread => true,
            },
    {
        match self {
            RandomSource::Thread => random_below(n),
            RandomSource::Scripted { picks, next } => {
                if *next < picks.len() {
                    let r = picks[*next] % n;
                    *next = *next + 1;
                    r
                } else {
                    0
                }
            },
        }
    }
}

} // verus!

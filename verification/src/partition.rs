//! How the bodies are divided among the processes, each of which gets the
//! same number: the population is filled up with placeholders.

use vstd::prelude::*;

verus! {

/// The division of `filled` bodies, `padding` of them placeholders, among
/// `n_processes` processes that get `per_process` each.
#[derive(Clone, Copy, Debug, PartialEq, Eq, Structural)]
pub struct Layout {
    pub n_processes: usize,
    pub per_process: usize,
    pub filled: usize,
    pub padding: usize,
}

impl Layout {
    /// The layout for `n_bodies` bodies: each process gets the least number
    /// that lets them hold all bodies together, and the places left over
    /// are fewer than there are processes.
    pub open spec fn fits(self, n_bodies: int) -> bool {
        &&& self.n_processes > 0
        &&& self.filled == self.per_process * self.n_processes
        &&& self.filled == n_bodies + self.padding
        &&& self.padding < self.n_processes
    }

    /// Lays out `n_bodies` bodies over `n_processes` processes. `None`
    /// where there is no process or the filled population cannot be
    /// counted in `usize`.
    pub fn new(n_bodies: usize, n_processes: usize) -> (r: Option<Layout>)
        ensures
            match r {
                Some(layout) => layout.fits(n_bodies as int) && layout.n_processes == n_processes,
                None => n_processes == 0 || n_bodies + n_processes - 1 > usize::MAX,
            },
    {
        if n_processes == 0 || n_bodies > usize::MAX - (n_processes - 1) {
            return None;
        }
        let whole: usize = n_bodies / n_processes;
        let rest: usize = n_bodies % n_processes;
        proof {
            vstd::arithmetic::div_mod::lemma_fundamental_div_mod(
                n_bodies as int,
                n_processes as int,
            );
            assert(n_processes * whole == whole * n_processes) by (nonlinear_arith);
            assert((whole + 1) * n_processes == whole * n_processes + n_processes)
                by (nonlinear_arith);
        }
        if rest == 0 {
            Some(Layout { n_processes, per_process: whole, filled: n_bodies, padding: 0 })
        } else {
            let per_process: usize = whole + 1;
            let filled: usize = per_process * n_processes;
            Some(Layout { n_processes, per_process, filled, padding: filled - n_bodies })
        }
    }

    /// Where the bodies of the process with the given rank start and end in
    /// the filled population.
    pub fn range_of(&self, rank: usize) -> (r: (usize, usize))
        requires
            self.filled == self.per_process * self.n_processes,
            rank < self.n_processes,
        ensures
            r.0 == rank * self.per_process,
            r.1 == r.0 + self.per_process,
            r.1 <= self.filled,
    {
        proof {
            assert((rank + 1) * self.per_process <= self.n_processes * self.per_process)
                by (nonlinear_arith)
                requires
                    rank + 1 <= self.n_processes,
            ;
            assert((rank + 1) * self.per_process == rank * self.per_process + self.per_process)
                by (nonlinear_arith);
            assert(self.n_processes * self.per_process == self.per_process * self.n_processes)
                by (nonlinear_arith);
            assert(0 <= rank * self.per_process) by (nonlinear_arith);
        }
        let start: usize = rank * self.per_process;
        (start, start + self.per_process)
    }
}

} // verus!

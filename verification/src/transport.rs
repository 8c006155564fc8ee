//! Travel durations between resolved locations, as a routing matrix gives them.

use vstd::prelude::*;

verus! {

/// A square matrix of travel durations, row by row.
pub struct TransportMatrix {
    size: usize,
    durations: Vec<u64>,
}

impl TransportMatrix {
    /// The number of locations.
    pub closed spec fn size(&self) -> nat {
        self.size as nat
    }

    /// The cells, row by row.
    pub closed spec fn cells(&self) -> Seq<u64> {
        self.durations@
    }

    /// There is one cell for each pair of locations.
    pub open spec fn wf(&self) -> bool {
        self.cells().len() == self.size() * self.size()
    }

    /// The travel duration between two locations of the matrix; none for a
    /// location outside it.
    pub open spec fn duration_spec(&self, from: usize, to: usize) -> Option<u64> {
        if from < self.size() && to < self.size() {
            Some(self.cells()[from * self.size() + to])
        } else {
            None
        }
    }

    /// Makes a matrix of the cells, which are as many as a square has.
    pub fn new(size: usize, durations: Vec<u64>) -> (r: Option<TransportMatrix>)
        ensures
            r is Some <==> durations@.len() == size * size,
            r is Some ==> r.unwrap().wf() && r.unwrap().size() == size && r.unwrap().cells() == durations@,
    {
        let count = durations.len();
        match size.checked_mul(size) {
            Some(cells) => {
                if count == cells {
                    Some(TransportMatrix { size, durations })
                } else {
                    None
                }
            },
            None => None,
        }
    }

    /// The travel duration between two locations.
    pub fn duration(&self, from: usize, to: usize) -> (r: Option<u64>)
        requires
            self.wf(),
        ensures
            r == self.duration_spec(from, to),
    {
        let count = self.durations.len();
        if from < self.size && to < self.size {
            proof {
                assert(count == self.size * self.size);
                let n = self.size as int;
                let f = from as int;
                let t = to as int;
                assert(f * n + t < n * n) by (nonlinear_arith)
                    requires
                        0 <= f < n,
                        0 <= t < n,
                ;
                assert(f * n >= 0) by (nonlinear_arith)
                    requires
                        0 <= f,
                        0 <= n,
                ;
            }
            Some(self.durations[from * self.size + to])
        } else {
            None
        }
    }
}

} // verus!

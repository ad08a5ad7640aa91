//! A last-in-first-out worklist of cells that holds each cell at most once.
use vstd::prelude::*;
use crate::pos::{cell_count, lemma_count_bounds};

verus! {

/// Cells waiting to be examined again, each queued at most once.
pub struct Defer<const N: usize> {
    present: Vec<bool>,
    queue: Vec<usize>,
}

impl<const N: usize> Defer<N> {
    /// The queued cells, oldest first.
    pub closed spec fn queued(&self) -> Seq<usize> {
        self.queue@
    }

    /// For each cell, whether it is queued.
    pub closed spec fn flags(&self) -> Seq<bool> {
        self.present@
    }

    /// The flags say exactly which cells are queued, and no cell is queued twice.
    pub open spec fn wf(&self) -> bool {
        &&& 1 <= N <= 8
        &&& self.flags().len() == cell_count(N as int)
        &&& self.queued().no_duplicates()
        &&& forall|k: int| 0 <= k < self.queued().len() ==> #[trigger] self.queued()[k] < cell_count(N as int)
        &&& forall|i: int| 0 <= i < cell_count(N as int) ==> (#[trigger] self.flags()[i] <==> self.queued().contains(i as usize))
    }

    /// An empty worklist for the cells of a grid of block size `N`.
    pub fn new() -> (r: Self)
        requires
            1 <= N <= 8,
        ensures
            r.wf(),
            r.queued().len() == 0,
    {
        proof {
            lemma_count_bounds(N as int);
        }
        let count = N * N * N * N;
        let mut present: Vec<bool> = Vec::new();
        let mut i: usize = 0;
        while i < count
            invariant
                i <= count,
                count == cell_count(N as int),
                present@.len() == i,
                forall|k: int| 0 <= k < i ==> !#[trigger] present@[k],
            decreases count - i,
        {
            present.push(false);
            i = i + 1;
        }
        Defer { present, queue: Vec::new() }
    }

    /// Queues `cell` unless it is queued already.
    pub fn push(&mut self, cell: usize)
        requires
            old(self).wf(),
            cell < cell_count(N as int),
        ensures
            final(self).wf(),
            old(self).flags()[cell as int] ==> final(self).queued() == old(self).queued(),
            !old(self).flags()[cell as int] ==> final(self).queued() == old(self).queued().push(cell),
            final(self).flags() == old(self).flags().update(cell as int, true),
    {
        if self.present[cell] {
            proof {
                assert(self.present@ =~= self.present@.update(cell as int, true));
            }
            return;
        }
        self.present.set(cell, true);
        let ghost before = self.queue@;
        self.queue.push(cell);
        proof {
            lemma_count_bounds(N as int);
            assert(self.queue@ == before.push(cell));
            assert forall|i: int| 0 <= i < cell_count(N as int) implies (#[trigger] self.present@[i] <==> self.queue@.contains(i as usize)) by {
                if i != cell {
                    if self.queue@.contains(i as usize) {
                        let k = choose|k: int| 0 <= k < self.queue@.len() && self.queue@[k] == i as usize;
                        assert(before[k] == i as usize);
                    }
                    if before.contains(i as usize) {
                        let k = choose|k: int| 0 <= k < before.len() && before[k] == i as usize;
                        assert(self.queue@[k] == i as usize);
                    }
                } else {
                    assert(self.queue@[before.len() as int] == cell);
                }
            }
        }
    }

    /// Takes the most recently queued cell out.
    pub fn pop(&mut self) -> (r: Option<usize>)
        requires
            old(self).wf(),
        ensures
            final(self).wf(),
            r is None <==> old(self).queued().len() == 0,
            r is None ==> final(self).queued() == old(self).queued(),
            r matches Some(c) ==> c == old(self).queued().last() && final(self).queued() == old(self).queued().drop_last()
                && c < cell_count(N as int) && final(self).flags() == old(self).flags().update(c as int, false),
            r is None ==> final(self).flags() == old(self).flags(),
    {
        match self.queue.pop() {
            None => None,
            Some(cell) => {
                let ghost before = self.queue@.push(cell);
                self.present.set(cell, false);
                proof {
                    lemma_count_bounds(N as int);
                    assert(before =~= old(self).queue@);
                    assert(before[before.len() - 1] == cell);
                    assert forall|i: int| 0 <= i < cell_count(N as int) implies (#[trigger] self.present@[i] <==> self.queue@.contains(i as usize)) by {
                        if self.queue@.contains(i as usize) {
                            let k = choose|k: int| 0 <= k < self.queue@.len() && self.queue@[k] == i as usize;
                            assert(before[k] == i as usize);
                            if i == cell {
                                assert(before.no_duplicates());
                                assert(before[k] == before[before.len() - 1]);
                            }
                        }
                        if i != cell && before.contains(i as usize) {
                            let k = choose|k: int| 0 <= k < before.len() && before[k] == i as usize;
                            assert(self.queue@[k] == i as usize);
                        }
                    }
                }
                Some(cell)
            },
        }
    }

    /// Whether no cell is queued.
    pub fn is_empty(&self) -> (r: bool)
        ensures
            r == (self.queued().len() == 0),
    {
        self.queue.len() == 0
    }

    /// Empties the worklist.
    pub fn clear(&mut self)
        requires
            old(self).wf(),
        ensures
            final(self).wf(),
            final(self).queued().len() == 0,
    {
        while self.queue.len() > 0
            invariant
                self.wf(),
            decreases self.queue@.len(),
        {
            let _ = self.pop();
        }
    }
}

} // verus!

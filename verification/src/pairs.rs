//! Lists of distinct pairs of numbers, in order of appearance.

use crate::msh::{last_index, lemma_last_index};
use vstd::prelude::*;

verus! {

/// `list`, with `p` at the end unless it is there already.
pub open spec fn with_pair(list: Seq<(usize, usize)>, p: (usize, usize)) -> Seq<(usize, usize)> {
    if last_index(list, p) is Some {
        list
    } else {
        list.push(p)
    }
}

/// A list of distinct pairs in which a pair is found quickly.
pub struct PairTable {
    pub pairs: Vec<(usize, usize)>,
    /// For each number, the places of the pairs that start with it.
    pub at: Vec<Vec<usize>>,
}

impl PairTable {
    /// Every pair is listed at its first number, nothing else is, and no pair is there
    /// twice.
    pub open spec fn wf(self) -> bool {
        &&& forall|e: int|
            0 <= e < self.pairs@.len() ==> (#[trigger] self.pairs@[e]).0 < self.at@.len()
                && self.at@[self.pairs@[e].0 as int]@.contains(e as usize)
        &&& forall|v: int, k: int|
            0 <= v < self.at@.len() && 0 <= k < self.at@[v]@.len() ==> (#[trigger] self.at@[v]@[k])
                < self.pairs@.len() && self.pairs@[self.at@[v]@[k] as int].0 == v
        &&& self.pairs@.no_duplicates()
        &&& self.pairs@.len() <= usize::MAX
    }

    /// An empty list for pairs that start with a number less than `n`.
    pub fn new(n: usize) -> (r: PairTable)
        ensures
            r.wf(),
            r.at@.len() == n,
            r.pairs@ == Seq::<(usize, usize)>::empty(),
    {
        let mut table = PairTable { pairs: Vec::new(), at: Vec::new() };
        while table.at.len() < n
            invariant
                table.pairs@.len() == 0,
                table.at@.len() <= n,
                forall|v: int| 0 <= v < table.at@.len() ==> (#[trigger] table.at@[v])@.len() == 0,
            decreases n - table.at@.len(),
        {
            table.at.push(Vec::new());
        }
        assert(table.pairs@ =~= seq![]);
        table
    }

    /// The place of a pair.
    pub fn find(&self, a: usize, b: usize) -> (r: Option<usize>)
        requires
            self.wf(),
            a < self.at@.len(),
        ensures
            match r {
                Some(e) => e < self.pairs@.len() && self.pairs@[e as int] == (a, b) && last_index(
                    self.pairs@,
                    (a, b),
                ) == Some(e as int),
                None => last_index(self.pairs@, (a, b)) is None,
            },
    {
        proof {
            lemma_last_index(self.pairs@, (a, b));
        }
        let list: &Vec<usize> = &self.at[a];
        let mut k: usize = 0;
        while k < list.len()
            invariant
                self.wf(),
                a < self.at@.len(),
                list == self.at@[a as int],
                k <= list@.len(),
                forall|m: int|
                    0 <= m < k ==> self.pairs@[#[trigger] list@[m] as int] != (a, b),
            decreases list@.len() - k,
        {
            let e: usize = list[k];
            assert(self.at@[a as int]@[k as int] == e);
            if self.pairs[e].1 == b {
                assert(self.pairs@[e as int] == (a, b));
                proof {
                    lemma_last_index(self.pairs@, (a, b));
                }
                return Some(e);
            }
            k += 1;
        }
        proof {
            match last_index(self.pairs@, (a, b)) {
                Some(e) => {
                    assert(self.pairs@[e] == (a, b));
                    assert(self.at@[a as int]@.contains(e as usize));
                    let m = choose|m: int| 0 <= m < list@.len() && list@[m] == e as usize;
                    assert(self.pairs@[list@[m] as int] != (a, b));
                },
                None => {},
            }
        }
        None
    }

    /// The place of a pair, which is put at the end if it is not there yet.
    pub fn place(&mut self, a: usize, b: usize) -> (r: usize)
        requires
            old(self).wf(),
            a < old(self).at@.len(),
        ensures
            final(self).wf(),
            final(self).at@.len() == old(self).at@.len(),
            final(self).pairs@ == with_pair(old(self).pairs@, (a, b)),
            r < final(self).pairs@.len(),
            final(self).pairs@[r as int] == (a, b),
    {
        match self.find(a, b) {
            Some(e) => e,
            None => {
                proof {
                    lemma_last_index(self.pairs@, (a, b));
                }
                let e: usize = self.pairs.len();
                let ghost before = *self;
                self.pairs.push((a, b));
                self.at[a].push(e);
                let count: usize = self.pairs.len();
                proof {
                    assert forall|f: int| 0 <= f < count implies (
                    #[trigger] self.pairs@[f]).0 < self.at@.len()
                        && self.at@[self.pairs@[f].0 as int]@.contains(f as usize) by {
                        if f < e {
                            assert(before.pairs@[f] == self.pairs@[f]);
                            let v = before.pairs@[f].0 as int;
                            let k = choose|k: int|
                                0 <= k < before.at@[v]@.len() && before.at@[v]@[k] == f as usize;
                            assert(self.at@[v]@[k] == f as usize);
                        } else {
                            let last = self.at@[a as int]@.len() - 1;
                            assert(self.at@[a as int]@[last] == e);
                        }
                    }
                    assert forall|v: int, k: int|
                        0 <= v < self.at@.len() && 0 <= k < self.at@[v]@.len() implies (
                    #[trigger] self.at@[v]@[k]) < self.pairs@.len()
                        && self.pairs@[self.at@[v]@[k] as int].0 == v by {
                        if k < before.at@[v]@.len() {
                            assert(before.at@[v]@[k] == self.at@[v]@[k]);
                        }
                    }
                }
                e
            },
        }
    }
}

} // verus!

//! The cocycle matrix of a Rauzy induction path: a square matrix of exact
//! nonnegative integers, created as the identity and advanced by the
//! column additions the external driver derives from each move's winner.

use vstd::prelude::*;
use crate::exact_nat::ExactNat;

verus! {

/// A square matrix of exact integers, stored as a sequence of columns;
/// entry `(row, col)` is reached through the column first.
#[derive(Debug)]
pub struct CocycleMatrix {
    size: usize,
    columns: Vec<Vec<ExactNat>>,
}

impl View for CocycleMatrix {
    type V = Seq<Seq<int>>;

    /// The columns of the matrix as sequences of mathematical integers.
    closed spec fn view(&self) -> Seq<Seq<int>> {
        self.columns@.map_values(|c: Vec<ExactNat>| c@.map_values(|e: ExactNat| e@))
    }
}

impl Clone for CocycleMatrix {
    /// An exact copy, so an exploration can branch without sharing.
    fn clone(&self) -> (r: Self)
        ensures
            r@ == self@,
            r.size_spec() == self.size_spec(),
            self.wf() ==> r.wf(),
    {
        let mut columns: Vec<Vec<ExactNat>> = Vec::new();
        let n = self.columns.len();
        let mut i: usize = 0;
        while i < n
            invariant
                i <= n,
                n == self.columns@.len(),
                columns@.len() == i,
                forall|c: int| 0 <= c < i ==> (#[trigger] columns@[c])@.len()
                    == self.columns@[c]@.len(),
                forall|c: int, k: int|
                    0 <= c < i && 0 <= k < columns@[c]@.len() ==> (#[trigger] columns@[c]@[k])@
                        == self.columns@[c]@[k]@ && columns@[c]@[k].wf()
                        == self.columns@[c]@[k].wf(),
            decreases n - i,
        {
            let src = &self.columns[i];
            let m = src.len();
            let mut column: Vec<ExactNat> = Vec::new();
            let mut k: usize = 0;
            while k < m
                invariant
                    k <= m,
                    m == src@.len(),
                    column@.len() == k,
                    forall|j: int| 0 <= j < k ==> (#[trigger] column@[j])@ == src@[j]@
                        && column@[j].wf() == src@[j].wf(),
                decreases m - k,
            {
                column.push(src[k].clone());
                k += 1;
            }
            columns.push(column);
            i += 1;
        }
        let r = CocycleMatrix { size: self.size, columns };
        proof {
            assert forall|c: int| 0 <= c < n implies r@[c] == self@[c] by {
                assert(r@[c] =~= self@[c]);
            }
            assert(r@ =~= self@);
        }
        r
    }
}

impl CocycleMatrix {
    /// The fixed dimension of the matrix.
    pub closed spec fn size_spec(self) -> int {
        self.size as int
    }

    /// Every column holds exactly `size` canonical entries.
    pub closed spec fn wf(self) -> bool {
        &&& self.columns@.len() == self.size
        &&& forall|c: int| 0 <= c < self.columns@.len() ==> (#[trigger] self.columns@[c])@.len()
            == self.size
        &&& forall|c: int, r: int|
            0 <= c < self.columns@.len() && 0 <= r < self.columns@[c]@.len() ==> (
            #[trigger] self.columns@[c]@[r]).wf()
    }

    /// The dimension.
    pub fn size(&self) -> (r: usize)
        ensures
            r as int == self.size_spec(),
    {
        self.size
    }

    /// One column of the identity matrix: a one at `one_at`, zeros elsewhere.
    fn identity_column(size: usize, one_at: usize) -> (r: Vec<ExactNat>)
        ensures
            r@.len() == size,
            forall|k: int| 0 <= k < size ==> (#[trigger] r@[k]).wf(),
            forall|k: int| 0 <= k < size ==> (#[trigger] r@[k])@ == if k == one_at {
                1int
            } else {
                0int
            },
    {
        let mut column: Vec<ExactNat> = Vec::new();
        let mut j: usize = 0;
        while j < size
            invariant
                j <= size,
                column@.len() == j,
                forall|k: int| 0 <= k < j ==> (#[trigger] column@[k]).wf(),
                forall|k: int| 0 <= k < j ==> (#[trigger] column@[k])@ == if k == one_at {
                    1int
                } else {
                    0int
                },
            decreases size - j,
        {
            if j == one_at {
                column.push(ExactNat::from_u32(1));
            } else {
                column.push(ExactNat::from_u32(0));
            }
            j += 1;
        }
        column
    }

    /// The identity cocycle of dimension `size`: entry `(r, c)` is one on
    /// the diagonal and zero elsewhere.
    pub fn new(size: usize) -> (r: CocycleMatrix)
        ensures
            r.wf(),
            r.size_spec() == size,
            r@.len() == size,
            forall|c: int| 0 <= c < size ==> (#[trigger] r@[c]).len() == size,
            forall|c: int, k: int| 0 <= c < size && 0 <= k < size ==> #[trigger] r@[c][k] == if c
                == k {
                1int
            } else {
                0int
            },
    {
        let mut columns: Vec<Vec<ExactNat>> = Vec::new();
        let mut i: usize = 0;
        while i < size
            invariant
                i <= size,
                columns@.len() == i,
                forall|c: int| 0 <= c < i ==> (#[trigger] columns@[c])@.len() == size,
                forall|c: int, k: int|
                    0 <= c < i && 0 <= k < size ==> (#[trigger] columns@[c]@[k]).wf(),
                forall|c: int, k: int| 0 <= c < i && 0 <= k < size ==> (#[trigger] columns@[c]@[k])@
                    == if c == k {
                    1int
                } else {
                    0int
                },
            decreases size - i,
        {
            let column = Self::identity_column(size, i);
            columns.push(column);
            i += 1;
        }
        let r = CocycleMatrix { size, columns };
        proof {
            assert forall|c: int, k: int| 0 <= c < size && 0 <= k < size implies #[trigger] r@[c][k]
                == if c == k {
                1int
            } else {
                0int
            } by {
                assert(r@[c] == r.columns@[c]@.map_values(|e: ExactNat| e@));
            }
        }
        r
    }

    /// Replaces column `i` with the entrywise exact sum of columns `i` and
    /// `j`.  Out-of-range indices cause no mutation at all and are signalled
    /// by `None`; in range, every other column is left untouched and the
    /// call returns `Some`.
    pub fn sum_two_columns(&mut self, i: usize, j: usize) -> (r: Option<()>)
        requires
            old(self).wf(),
        ensures
            final(self).wf(),
            final(self).size_spec() == old(self).size_spec(),
            i < old(self).size_spec() && j < old(self).size_spec() ==> {
                &&& r == Some(())
                &&& final(self)@.len() == old(self)@.len()
                &&& forall|k: int| 0 <= k < old(self).size_spec() ==> #[trigger] final(self)@[i as int][k]
                    == old(self)@[i as int][k] + old(self)@[j as int][k]
                &&& forall|c: int|
                    0 <= c < old(self)@.len() && c != i ==> #[trigger] final(self)@[c] == old(
                        self,
                    )@[c]
            },
            !(i < old(self).size_spec() && j < old(self).size_spec()) ==> r is None && final(self)@
                == old(self)@,
    {
        if i >= self.size || j >= self.size {
            return None;
        }
        let size = self.size;
        let ghost pre = *self;
        let mut newcol: Vec<ExactNat> = Vec::new();
        let mut k: usize = 0;
        while k < size
            invariant
                k <= size,
                newcol@.len() == k,
                i < size,
                j < size,
                *self == pre,
                self.wf(),
                size == self.size_spec(),
                forall|m: int| 0 <= m < k ==> (#[trigger] newcol@[m]).wf(),
                forall|m: int| 0 <= m < k ==> (#[trigger] newcol@[m])@ == self@[i as int][m]
                    + self@[j as int][m],
            decreases size - k,
        {
            let mut e = self.columns[i][k].clone();
            e.add_assign(&self.columns[j][k]);
            proof {
                assert(self@[i as int][k as int] == self.columns@[i as int]@[k as int]@);
                assert(self@[j as int][k as int] == self.columns@[j as int]@[k as int]@);
            }
            newcol.push(e);
            k += 1;
        }
        self.columns.set(i, newcol);
        proof {
            assert forall|c: int| 0 <= c < pre@.len() && c != i implies #[trigger] self@[c]
                == pre@[c] by {
                assert(self.columns@[c] == pre.columns@[c]);
            }
            assert forall|k2: int| 0 <= k2 < pre.size_spec() implies #[trigger] self@[i as int][k2]
                == pre@[i as int][k2] + pre@[j as int][k2] by {
                assert(self@[i as int] == self.columns@[i as int]@.map_values(|e: ExactNat| e@));
            }
        }
        Some(())
    }

    /// Whether entry `(row, col)` — reached through column `col` — equals
    /// the machine word `v`.
    pub fn entry_eq_u32(&self, col: usize, row: usize, v: u32) -> (r: bool)
        requires
            self.wf(),
            col < self.size_spec(),
            row < self.size_spec(),
        ensures
            r == (self@[col as int][row as int] == v as int),
    {
        let e = &self.columns[col][row];
        proof {
            assert(self@[col as int][row as int] == self.columns@[col as int]@[row as int]@);
        }
        e.eq_u32(v)
    }

    /// Whether entry `(row, col)` — reached through column `col` — equals
    /// the machine word `v`.
    pub fn entry_eq_u64(&self, col: usize, row: usize, v: u64) -> (r: bool)
        requires
            self.wf(),
            col < self.size_spec(),
            row < self.size_spec(),
        ensures
            r == (self@[col as int][row as int] == v as int),
    {
        let e = &self.columns[col][row];
        proof {
            assert(self@[col as int][row as int] == self.columns@[col as int]@[row as int]@);
        }
        e.eq_u64(v)
    }
}

} // verus!

//! The validated representation of a generalized permutation with flips,
//! its irreducibility test, and the Rauzy move.

use vstd::prelude::*;
use crate::GeneralizedPermutation;
use crate::WinningSide;

verus! {

/// The errors the validating constructor of a [`FlippedPermutation`] reports.
#[derive(Debug, Clone, Copy, PartialEq, Eq, Structural)]
pub enum PermutationBuilderError {
    /// The top and bottom rows have a different number of intervals.
    UnmatchedInterval,
    /// The carried interval index is repeated within a single row.
    Repeated(u8),
    /// The carried interval index is at least the number of intervals.
    OutOfBounds(u8),
    /// More intervals than a single-byte index can address.
    TooLarge,
}

/// A row is well formed for `n` intervals: every entry is below `n` and no
/// entry is repeated.
pub open spec fn row_ok(row: Seq<u8>, n: int) -> bool {
    &&& forall|i: int| 0 <= i < row.len() ==> row[i] < n
    &&& row.no_duplicates()
}

/// The error a left-to-right scan of `row` reports from position `i` on:
/// at each position a repetition is reported before an out-of-bounds entry,
/// and `None` means the rest of the row is clean.
pub open spec fn row_error_from(row: Seq<u8>, n: int, i: int) -> Option<PermutationBuilderError>
    decreases row.len() - i,
{
    if i < 0 || i >= row.len() {
        None
    } else if exists|j: int| 0 <= j < i && row[j] == row[i] {
        Some(PermutationBuilderError::Repeated(row[i]))
    } else if row[i] >= n {
        Some(PermutationBuilderError::OutOfBounds(row[i]))
    } else {
        row_error_from(row, n, i + 1)
    }
}

/// The first error a scan of the whole of `row` reports, if any.
pub open spec fn row_error(row: Seq<u8>, n: int) -> Option<PermutationBuilderError> {
    row_error_from(row, n, 0)
}

/// The flip set the constructor distils from a raw selection: exactly the
/// selected values below `n`; out-of-range selections are dropped silently.
pub open spec fn flip_selection_set(selection: Seq<u8>, n: int) -> Set<u8> {
    Set::new(|v: u8| v < n && selection.contains(v))
}

/// A generalized permutation with flips on `n` intervals: two orderings of
/// the interval indices `0..n` and the set of flipped intervals.  Values are
/// built only through [`FlippedPermutation::new`] and never mutated.
#[derive(Debug)]
pub struct FlippedPermutation {
    top: Vec<u8>,
    bottom: Vec<u8>,
    flips: Vec<bool>,
}

impl FlippedPermutation {
    /// The top row as a sequence of interval indices.
    pub closed spec fn top_view(self) -> Seq<u8> {
        self.top@
    }

    /// The bottom row as a sequence of interval indices.
    pub closed spec fn bottom_view(self) -> Seq<u8> {
        self.bottom@
    }

    /// The per-interval flip markers; kept exactly as long as the rows.
    pub closed spec fn flips_view(self) -> Seq<bool> {
        self.flips@
    }

    /// The set of flipped intervals.
    pub open spec fn flip_set_view(self) -> Set<u8> {
        Set::new(|v: u8| v < self.flips_view().len() && self.flips_view()[v as int])
    }

    /// Structural invariant of every live value: equally long rows of at
    /// most 255 intervals, each row a duplicate-free ordering of in-range
    /// indices, and one flip marker per interval.
    pub open spec fn wf(self) -> bool {
        &&& self.top_view().len() <= 255
        &&& self.bottom_view().len() == self.top_view().len()
        &&& self.flips_view().len() == self.top_view().len()
        &&& row_ok(self.top_view(), self.top_view().len() as int)
        &&& row_ok(self.bottom_view(), self.top_view().len() as int)
    }

    /// The number of intervals.
    pub fn len(&self) -> (r: usize)
        ensures
            r == self.top_view().len(),
    {
        self.top.len()
    }

    /// Read-only access to the top row.
    pub fn top_row(&self) -> (r: &Vec<u8>)
        ensures
            r@ == self.top_view(),
    {
        &self.top
    }

    /// Read-only access to the bottom row.
    pub fn bottom_row(&self) -> (r: &Vec<u8>)
        ensures
            r@ == self.bottom_view(),
    {
        &self.bottom
    }

    /// Whether interval `v` is flipped.
    pub fn is_flipped(&self, v: u8) -> (r: bool)
        ensures
            r == self.flip_set_view().contains(v),
    {
        (v as usize) < self.flips.len() && self.flips[v as usize]
    }
}

/// A vector of `n` cleared markers.
fn new_bool_vec(n: usize) -> (r: Vec<bool>)
    ensures
        r@.len() == n,
        forall|i: int| 0 <= i < n ==> !r@[i],
{
    let mut r: Vec<bool> = Vec::new();
    let mut i: usize = 0;
    while i < n
        invariant
            i <= n,
            r@.len() == i,
            forall|k: int| 0 <= k < i ==> !r@[k],
        decreases n - i,
    {
        r.push(false);
        i += 1;
    }
    r
}

/// Scans one row left to right, reporting the first repetition or
/// out-of-bounds entry exactly as [`row_error`] describes, and otherwise
/// returning the row as an owned vector.
fn scan_row(row: &[u8], length: u8) -> (r: Result<Vec<u8>, PermutationBuilderError>)
    ensures
        match r {
            Ok(v) => v@ == row@ && row_error(row@, length as int) is None,
            Err(e) => row_error(row@, length as int) == Some(e),
        },
{
    let n = row.len();
    let mut out: Vec<u8> = Vec::new();
    let mut seen = new_bool_vec(256);
    let mut i: usize = 0;
    while i < n
        invariant
            i <= n,
            n == row@.len(),
            out@ == row@.subrange(0, i as int),
            seen@.len() == 256,
            forall|v: int| 0 <= v < 256 ==>
                (seen@[v] <==> exists|k: int| 0 <= k < i && row@[k] == v),
            row_error_from(row@, length as int, 0) == row_error_from(row@, length as int, i as int),
        decreases n - i,
    {
        let x = *vstd::slice::slice_index_get(row, i);
        if seen[x as usize] {
            proof {
                assert(exists|j: int| 0 <= j < i && row@[j] == row@[i as int]);
            }
            return Err(PermutationBuilderError::Repeated(x));
        }
        seen.set(x as usize, true);
        if x >= length {
            proof {
                assert(!(exists|j: int| 0 <= j < i && row@[j] == row@[i as int]));
            }
            return Err(PermutationBuilderError::OutOfBounds(x));
        }
        out.push(x);
        proof {
            assert(!(exists|j: int| 0 <= j < i && row@[j] == row@[i as int]));
            assert(row_error_from(row@, length as int, i as int)
                == row_error_from(row@, length as int, i + 1));
            assert(out@ =~= row@.subrange(0, i + 1));
        }
        i += 1;
    }
    proof {
        assert(row_error_from(row@, length as int, n as int) is None);
        assert(out@ =~= row@);
    }
    Ok(out)
}

impl FlippedPermutation {
    /// Validating constructor.  `top` and `bottom` must each order the
    /// interval indices `0..n` where `n` is their common length; entries of
    /// `flip_set` below `n` select the flipped intervals and entries at or
    /// above `n` are silently dropped.  The four error cases are reported
    /// exactly as scanned: the length checks first, then the first offending
    /// entry of the top row, then the first of the bottom row.
    pub fn new(top: &[u8], bottom: &[u8], flip_set: &[u8]) -> (r: Result<
        FlippedPermutation,
        PermutationBuilderError,
    >)
        ensures
            top@.len() > 255 ==> r == Err::<FlippedPermutation, _>(
                PermutationBuilderError::TooLarge,
            ),
            top@.len() <= 255 && top@.len() != bottom@.len() ==> r == Err::<
                FlippedPermutation,
                _,
            >(PermutationBuilderError::UnmatchedInterval),
            top@.len() <= 255 && top@.len() == bottom@.len() ==> (row_error(
                top@,
                top@.len() as int,
            ) matches Some(e) ==> r == Err::<FlippedPermutation, _>(e)),
            top@.len() <= 255 && top@.len() == bottom@.len() && row_error(
                top@,
                top@.len() as int,
            ) is None ==> (row_error(bottom@, top@.len() as int) matches Some(e) ==> r == Err::<
                FlippedPermutation,
                _,
            >(e)),
            r is Ok <==> (top@.len() <= 255 && top@.len() == bottom@.len() && row_ok(
                top@,
                top@.len() as int,
            ) && row_ok(bottom@, top@.len() as int)),
            r matches Ok(p) ==> {
                &&& p.wf()
                &&& p.top_view() == top@
                &&& p.bottom_view() == bottom@
                &&& p.flip_set_view() == flip_selection_set(flip_set@, top@.len() as int)
            },
    {
        let n_usize = top.len();
        if n_usize > 255 {
            return Err(PermutationBuilderError::TooLarge);
        }
        let length: u8 = n_usize as u8;

        if top.len() != bottom.len() {
            return Err(PermutationBuilderError::UnmatchedInterval);
        }

        let top_vec = match scan_row(top, length) {
            Ok(v) => v,
            Err(e) => {
                proof {
                    lemma_row_error_none_iff_ok(top@, length as int);
                }
                return Err(e);
            },
        };
        let bottom_vec = match scan_row(bottom, length) {
            Ok(v) => v,
            Err(e) => {
                proof {
                    lemma_row_error_none_iff_ok(top@, length as int);
                    lemma_row_error_none_iff_ok(bottom@, length as int);
                }
                return Err(e);
            },
        };

        let mut flips = new_bool_vec(n_usize);
        let m = flip_set.len();
        let mut i: usize = 0;
        while i < m
            invariant
                i <= m,
                m == flip_set@.len(),
                flips@.len() == n_usize,
                n_usize == length as int,
                forall|v: int| 0 <= v < n_usize ==>
                    (flips@[v] <==> exists|k: int| 0 <= k < i && flip_set@[k] == v),
            decreases m - i,
        {
            let x = *vstd::slice::slice_index_get(flip_set, i);
            if x < length {
                flips.set(x as usize, true);
            }
            i += 1;
        }

        let result = FlippedPermutation { top: top_vec, bottom: bottom_vec, flips };
        proof {
            lemma_row_error_none_iff_ok(top@, length as int);
            lemma_row_error_none_iff_ok(bottom@, length as int);
            assert(result.flip_set_view() =~= flip_selection_set(flip_set@, top@.len() as int));
        }
        Ok(result)
    }
}

/// A row scans clean exactly when it is well formed.
proof fn lemma_row_error_from_none(row: Seq<u8>, n: int, i: int)
    requires
        0 <= i <= row.len(),
    ensures
        row_error_from(row, n, i) is None <==> forall|k: int|
            i <= k < row.len() ==> (row[k] < n && !(exists|j: int| 0 <= j < k && row[j] == row[k])),
    decreases row.len() - i,
{
    if i < row.len() {
        lemma_row_error_from_none(row, n, i + 1);
    }
}

/// The whole-row scan reports no error exactly when the row is well formed.
pub proof fn lemma_row_error_none_iff_ok(row: Seq<u8>, n: int)
    ensures
        row_error(row, n) is None <==> row_ok(row, n),
{
    lemma_row_error_from_none(row, n, 0);
    if row_error(row, n) is None {
        assert forall|p: int, q: int| 0 <= p < q < row.len() implies row[p] != row[q] by {
            assert(!(exists|j: int| 0 <= j < q && row[j] == row[q]));
        }
        assert(row.no_duplicates());
    }
    if row_ok(row, n) {
        assert forall|k: int|
            0 <= k < row.len() implies (row[k] < n && !(exists|j: int|
            0 <= j < k && row[j] == row[k])) by {
            assert forall|j: int| 0 <= j < k implies row[j] != row[k] by {
                assert(row[j] != row[k]);
            }
        }
    }
}

/// A well-formed row of length `n` is onto `0..n`: its entries are `n`
/// distinct values drawn from `n` possibilities, so every value occurs.
pub proof fn lemma_row_complete(row: Seq<u8>, n: int)
    requires
        row_ok(row, n),
        row.len() == n,
        n <= 255,
    ensures
        forall|v: u8| v < n ==> row.contains(v),
{
    broadcast use vstd::set_lib::range_set_properties;

    row.unique_seq_to_set();
    let s = row.to_set();
    let full = Set::<u8>::range(0u8, n as u8);
    assert(s.len() == n);
    assert(full.len() == n);
    assert forall|v: u8| v < n implies row.contains(v) by {
        if !row.contains(v) {
            assert(!s.contains(v));
            assert(s.subset_of(full.remove(v)));
            assert(full.remove(v).len() == n - 1);
            vstd::set_lib::lemma_len_subset(s, full.remove(v));
        }
    }
}

/// Toggle membership of `v` in `s`: remove it when present, insert it when
/// absent.
pub open spec fn toggle(s: Set<u8>, v: u8) -> Set<u8> {
    if s.contains(v) {
        s.remove(v)
    } else {
        s.insert(v)
    }
}

/// Toggling membership of the same value twice restores the original set.
pub proof fn lemma_toggle_involution(s: Set<u8>, v: u8)
    ensures
        toggle(toggle(s, v), v) == s,
{
    if s.contains(v) {
        assert(toggle(toggle(s, v), v) =~= s);
    } else {
        assert(toggle(toggle(s, v), v) =~= s);
    }
}

/// Value `v` occurs among the first `i` entries of `s`.
pub open spec fn seen_in_prefix(s: Seq<u8>, i: int, v: u8) -> bool {
    exists|k: int| 0 <= k < i && s[k] == v
}

/// The first `i` top intervals and the first `i` bottom intervals are the
/// same set: the permutation decomposes after position `i`.
pub open spec fn splits_at(top: Seq<u8>, bottom: Seq<u8>, i: int) -> bool {
    top.subrange(0, i).to_set() == bottom.subrange(0, i).to_set()
}

/// No proper nonempty prefix of the two rows carries the same interval set.
pub open spec fn irreducible(top: Seq<u8>, bottom: Seq<u8>) -> bool {
    forall|i: int| 1 <= i < top.len() ==> !splits_at(top, bottom, i)
}

/// A split after position `i` is the same as prefix membership agreeing on
/// every interval.
proof fn lemma_splits_at_iff(top: Seq<u8>, bottom: Seq<u8>, i: int)
    requires
        0 <= i <= top.len(),
        i <= bottom.len(),
    ensures
        splits_at(top, bottom, i) <==> (forall|v: u8|
            seen_in_prefix(top, i, v) == seen_in_prefix(bottom, i, v)),
{
    let ts = top.subrange(0, i);
    let bs = bottom.subrange(0, i);
    assert forall|v: u8| ts.contains(v) implies seen_in_prefix(top, i, v) by {
        let k = choose|k: int| 0 <= k < ts.len() && ts[k] == v;
        assert(top[k] == v);
    }
    assert forall|v: u8| seen_in_prefix(top, i, v) implies ts.contains(v) by {
        let k = choose|k: int| 0 <= k < i && top[k] == v;
        assert(ts[k] == v);
    }
    assert forall|v: u8| bs.contains(v) implies seen_in_prefix(bottom, i, v) by {
        let k = choose|k: int| 0 <= k < bs.len() && bs[k] == v;
        assert(bottom[k] == v);
    }
    assert forall|v: u8| seen_in_prefix(bottom, i, v) implies bs.contains(v) by {
        let k = choose|k: int| 0 <= k < i && bottom[k] == v;
        assert(bs[k] == v);
    }
    if forall|v: u8| seen_in_prefix(top, i, v) == seen_in_prefix(bottom, i, v) {
        assert(ts.to_set() =~= bs.to_set());
    }
    if splits_at(top, bottom, i) {
        assert forall|v: u8| #[trigger] seen_in_prefix(top, i, v) == seen_in_prefix(
            bottom,
            i,
            v,
        ) by {
            assert(ts.to_set().contains(v) == bs.to_set().contains(v));
            assert(ts.to_set().contains(v) == ts.contains(v));
            assert(bs.to_set().contains(v) == bs.contains(v));
        }
    }
}

/// Extending a prefix by one position adds exactly that entry's value.
proof fn lemma_seen_step(s: Seq<u8>, i: int)
    requires
        0 <= i < s.len(),
    ensures
        forall|v: u8| seen_in_prefix(s, i + 1, v) <==> (seen_in_prefix(s, i, v) || s[i] == v),
{
    assert forall|v: u8| seen_in_prefix(s, i + 1, v) implies (seen_in_prefix(s, i, v) || s[i]
        == v) by {
        let k = choose|k: int| 0 <= k < i + 1 && s[k] == v;
        if k < i {
            assert(seen_in_prefix(s, i, v));
        }
    }
    assert forall|v: u8| (seen_in_prefix(s, i, v) || s[i] == v) implies seen_in_prefix(
        s,
        i + 1,
        v,
    ) by {
        if seen_in_prefix(s, i, v) {
            let k = choose|k: int| 0 <= k < i && s[k] == v;
            assert(0 <= k < i + 1 && s[k] == v);
        } else {
            assert(0 <= i < i + 1 && s[i] == v);
        }
    }
}

/// All markers in `v` are clear.
fn all_false(v: &Vec<bool>) -> (r: bool)
    ensures
        r <==> (forall|k: int| 0 <= k < v@.len() ==> !v@[k]),
{
    let n = v.len();
    let mut i: usize = 0;
    while i < n
        invariant
            i <= n,
            n == v@.len(),
            forall|k: int| 0 <= k < i ==> !v@[k],
        decreases n - i,
    {
        if v[i] {
            return false;
        }
        i += 1;
    }
    true
}

/// The single left-to-right scan deciding irreducibility: two marker rows
/// track the intervals pending on one side only, cancelling pairs as they
/// close; the permutation is reducible exactly when both rows empty out at
/// some proper prefix.
fn irreducibility_scan(top: &Vec<u8>, bottom: &Vec<u8>) -> (r: bool)
    requires
        top@.len() == bottom@.len(),
        1 <= top@.len() <= 255,
        row_ok(top@, top@.len() as int),
        row_ok(bottom@, top@.len() as int),
    ensures
        r == irreducible(top@, bottom@),
{
    let n = top.len();
    let mut top_only = new_bool_vec(n);
    let mut bottom_only = new_bool_vec(n);
    let mut i: usize = 0;
    while i < n - 1
        invariant
            i <= n - 1,
            n == top@.len(),
            n == bottom@.len(),
            1 <= n <= 255,
            row_ok(top@, n as int),
            row_ok(bottom@, n as int),
            top_only@.len() == n,
            bottom_only@.len() == n,
            forall|v: int| 0 <= v < n ==> (top_only@[v] <==> (seen_in_prefix(
                top@,
                i as int,
                v as u8,
            ) && !seen_in_prefix(bottom@, i as int, v as u8))),
            forall|v: int| 0 <= v < n ==> (bottom_only@[v] <==> (seen_in_prefix(
                bottom@,
                i as int,
                v as u8,
            ) && !seen_in_prefix(top@, i as int, v as u8))),
            forall|j: int| 1 <= j <= i ==> !splits_at(top@, bottom@, j),
        decreases n - 1 - i,
    {
        let t = top[i];
        let b = bottom[i];
        proof {
            assert(top@[i as int] < n);
            assert(bottom@[i as int] < n);
            if seen_in_prefix(top@, i as int, t) {
                let k = choose|k: int| 0 <= k < i && top@[k] == t;
                assert(top@[k] == top@[i as int]);
                assert(false);
            }
            if seen_in_prefix(bottom@, i as int, b) {
                let k = choose|k: int| 0 <= k < i && bottom@[k] == b;
                assert(bottom@[k] == bottom@[i as int]);
                assert(false);
            }
            lemma_seen_step(top@, i as int);
            lemma_seen_step(bottom@, i as int);
        }
        top_only.set(t as usize, true);
        bottom_only.set(b as usize, true);
        if bottom_only[t as usize] {
            top_only.set(t as usize, false);
            bottom_only.set(t as usize, false);
        }
        if top_only[b as usize] {
            top_only.set(b as usize, false);
            bottom_only.set(b as usize, false);
        }
        proof {
            assert forall|v: int| 0 <= v < n implies (top_only@[v] <==> (seen_in_prefix(
                top@,
                i + 1,
                v as u8,
            ) && !seen_in_prefix(bottom@, i + 1, v as u8))) by {
                assert(seen_in_prefix(top@, i + 1, v as u8) <==> (seen_in_prefix(
                    top@,
                    i as int,
                    v as u8,
                ) || top@[i as int] == v as u8));
                assert(seen_in_prefix(bottom@, i + 1, v as u8) <==> (seen_in_prefix(
                    bottom@,
                    i as int,
                    v as u8,
                ) || bottom@[i as int] == v as u8));
            }
            assert forall|v: int| 0 <= v < n implies (bottom_only@[v] <==> (seen_in_prefix(
                bottom@,
                i + 1,
                v as u8,
            ) && !seen_in_prefix(top@, i + 1, v as u8))) by {
                assert(seen_in_prefix(top@, i + 1, v as u8) <==> (seen_in_prefix(
                    top@,
                    i as int,
                    v as u8,
                ) || top@[i as int] == v as u8));
                assert(seen_in_prefix(bottom@, i + 1, v as u8) <==> (seen_in_prefix(
                    bottom@,
                    i as int,
                    v as u8,
                ) || bottom@[i as int] == v as u8));
            }
        }
        let top_empty = all_false(&top_only);
        let bottom_empty = all_false(&bottom_only);
        if top_empty && bottom_empty {
            proof {
                lemma_splits_at_iff(top@, bottom@, i + 1);
                assert forall|v: u8| #[trigger] seen_in_prefix(top@, i + 1, v) == seen_in_prefix(
                    bottom@,
                    i + 1,
                    v,
                ) by {
                    if v < n {
                        assert(!top_only@[v as int]);
                        assert(!bottom_only@[v as int]);
                    } else {
                        if seen_in_prefix(top@, i + 1, v) {
                            let k = choose|k: int| 0 <= k < i + 1 && top@[k] == v;
                            assert(top@[k] < n);
                            assert(false);
                        }
                        if seen_in_prefix(bottom@, i + 1, v) {
                            let k = choose|k: int| 0 <= k < i + 1 && bottom@[k] == v;
                            assert(bottom@[k] < n);
                            assert(false);
                        }
                    }
                }
                assert(splits_at(top@, bottom@, i + 1));
                assert(1 <= i + 1 < n);
            }
            return false;
        }
        proof {
            lemma_splits_at_iff(top@, bottom@, i + 1);
            if !top_empty {
                let v = choose|k: int| 0 <= k < n && top_only@[k];
                assert(seen_in_prefix(top@, i + 1, v as u8) != seen_in_prefix(
                    bottom@,
                    i + 1,
                    v as u8,
                ));
            } else {
                let v = choose|k: int| 0 <= k < n && bottom_only@[k];
                assert(seen_in_prefix(top@, i + 1, v as u8) != seen_in_prefix(
                    bottom@,
                    i + 1,
                    v as u8,
                ));
            }
            assert(!splits_at(top@, bottom@, i + 1));
        }
        i += 1;
    }
    true
}

/// The row the Rauzy move rebuilds from the losing row: the entries before
/// the winning interval's slot, then the winning and losing intervals (their
/// order decided by the winner's flip), then the entries strictly between
/// that slot and the row's end.
pub open spec fn rauzy_rebuilt_row(win_row: Seq<u8>, lose_row: Seq<u8>, win_flipped: bool) -> Seq<
    u8,
> {
    let win = win_row.last();
    let lose = lose_row.last();
    let k = lose_row.index_of(win);
    lose_row.subrange(0, k) + (if win_flipped {
        seq![lose, win]
    } else {
        seq![win, lose]
    }) + lose_row.subrange(k + 1, lose_row.len() - 1)
}

/// The flip set after a Rauzy move: unchanged when the winning interval is
/// unflipped, and with the losing interval's membership toggled when it is.
pub open spec fn rauzy_new_flip_set(flips: Set<u8>, win: u8, lose: u8) -> Set<u8> {
    if flips.contains(win) {
        toggle(flips, lose)
    } else {
        flips
    }
}

/// The position of the old losing row that position `i` of the rebuilt row
/// reads, for a winner found at position `k` of `n`.
spec fn rauzy_source_index(i: int, k: int, n: int, win_flipped: bool) -> int {
    if i < k {
        i
    } else if i == k {
        if win_flipped {
            n - 1
        } else {
            k
        }
    } else if i == k + 1 {
        if win_flipped {
            k
        } else {
            n - 1
        }
    } else {
        i - 1
    }
}

/// Rebuilding permutes the losing row: each position of the rebuilt row
/// reads a distinct position of the old one, so well-formedness carries
/// over.
proof fn lemma_rebuilt_row_ok(win_row: Seq<u8>, lose_row: Seq<u8>, win_flipped: bool, n: int)
    requires
        win_row.len() == n,
        lose_row.len() == n,
        1 <= n <= 255,
        row_ok(win_row, n),
        row_ok(lose_row, n),
        win_row.last() != lose_row.last(),
    ensures
        rauzy_rebuilt_row(win_row, lose_row, win_flipped).len() == n,
        row_ok(rauzy_rebuilt_row(win_row, lose_row, win_flipped), n),
{
    let win = win_row.last();
    let lose = lose_row.last();
    lemma_row_complete(lose_row, n);
    assert(win < n);
    assert(lose_row.contains(win));
    let k = lose_row.index_of(win);
    assert(exists|i: int| 0 <= i < lose_row.len() && lose_row[i] == win);
    assert(0 <= k < n && lose_row[k] == win);
    assert(k != n - 1);
    let r = rauzy_rebuilt_row(win_row, lose_row, win_flipped);
    assert(r.len() == n);
    assert forall|i: int| 0 <= i < n implies r[i] == lose_row[rauzy_source_index(
        i,
        k,
        n,
        win_flipped,
    )] && 0 <= rauzy_source_index(i, k, n, win_flipped) < n by {
        if i < k {
        } else if i == k || i == k + 1 {
            assert(lose_row[n - 1] == lose);
        } else {
            assert(r[i] == lose_row.subrange(k + 1, n - 1)[i - k - 2]);
        }
    }
    assert forall|i: int, j: int| 0 <= i < n && 0 <= j < n && i != j implies rauzy_source_index(
        i,
        k,
        n,
        win_flipped,
    ) != rauzy_source_index(j, k, n, win_flipped) by {}
    assert forall|i: int, j: int| 0 <= i < r.len() && 0 <= j < r.len() && i != j implies r[i]
        != r[j] by {
        let si = rauzy_source_index(i, k, n, win_flipped);
        let sj = rauzy_source_index(j, k, n, win_flipped);
        assert(r[i] == lose_row[si] && r[j] == lose_row[sj]);
        assert(si != sj);
    }
    assert(r.no_duplicates());
}

/// Extending a subrange by one position appends that position's entry.
proof fn lemma_subrange_push(s: Seq<u8>, lo: int, hi: int)
    requires
        0 <= lo <= hi < s.len(),
    ensures
        s.subrange(lo, hi).push(s[hi]) == s.subrange(lo, hi + 1),
{
    assert(s.subrange(lo, hi).push(s[hi]) =~= s.subrange(lo, hi + 1));
}

/// An owned copy of a row.
fn copy_u8_vec(v: &Vec<u8>) -> (r: Vec<u8>)
    ensures
        r@ == v@,
{
    let n = v.len();
    let mut r: Vec<u8> = Vec::new();
    let mut i: usize = 0;
    while i < n
        invariant
            i <= n,
            n == v@.len(),
            r@ == v@.subrange(0, i as int),
        decreases n - i,
    {
        r.push(v[i]);
        i += 1;
        proof {
            assert(r@ =~= v@.subrange(0, i as int));
        }
    }
    proof {
        assert(r@ =~= v@);
    }
    r
}

/// An owned copy of the flip markers.
fn copy_bool_vec(v: &Vec<bool>) -> (r: Vec<bool>)
    ensures
        r@ == v@,
{
    let n = v.len();
    let mut r: Vec<bool> = Vec::new();
    let mut i: usize = 0;
    while i < n
        invariant
            i <= n,
            n == v@.len(),
            r@ == v@.subrange(0, i as int),
        decreases n - i,
    {
        r.push(v[i]);
        i += 1;
        proof {
            assert(r@ =~= v@.subrange(0, i as int));
        }
    }
    proof {
        assert(r@ =~= v@);
    }
    r
}

impl GeneralizedPermutation for FlippedPermutation {
    /// Validity is the structural invariant of the representation.
    open spec fn inv(&self) -> bool {
        self.wf()
    }

    open spec fn nonempty(&self) -> bool {
        self.top_view().len() >= 1
    }

    open spec fn rauzy_defined(&self) -> bool {
        self.top_view().last() != self.bottom_view().last()
    }

    fn is_irreducible(&self) -> (r: bool)
        ensures
            r == irreducible(self.top_view(), self.bottom_view()),
    {
        irreducibility_scan(&self.top, &self.bottom)
    }

    fn rauzy_move(&self, winner: WinningSide) -> (r: Self)
        ensures
            r.top_view().len() == self.top_view().len(),
            winner == WinningSide::Top ==> r.top_view() == self.top_view() && r.bottom_view()
                == rauzy_rebuilt_row(
                self.top_view(),
                self.bottom_view(),
                self.flip_set_view().contains(self.top_view().last()),
            ) && r.flip_set_view() == rauzy_new_flip_set(
                self.flip_set_view(),
                self.top_view().last(),
                self.bottom_view().last(),
            ),
            winner == WinningSide::Bottom ==> r.bottom_view() == self.bottom_view() && r.top_view()
                == rauzy_rebuilt_row(
                self.bottom_view(),
                self.top_view(),
                self.flip_set_view().contains(self.bottom_view().last()),
            ) && r.flip_set_view() == rauzy_new_flip_set(
                self.flip_set_view(),
                self.bottom_view().last(),
                self.top_view().last(),
            ),
    {
        let n = self.top.len();
        let (win_row, lose_row): (&Vec<u8>, &Vec<u8>) = match winner {
            WinningSide::Top => (&self.top, &self.bottom),
            WinningSide::Bottom => (&self.bottom, &self.top),
        };
        let win = win_row[n - 1];
        let lose = lose_row[n - 1];
        proof {
            lemma_row_complete(lose_row@, n as int);
            assert(win < n);
            assert(lose_row@.contains(win));
            assert(win != lose);
        }
        let ghost gk = lose_row@.index_of(win);
        proof {
            assert(exists|i: int| 0 <= i < lose_row@.len() && lose_row@[i] == win);
            assert(0 <= gk < n && lose_row@[gk] == win);
            assert(gk < n - 1);
        }
        let mut rebuilt: Vec<u8> = Vec::new();
        let mut k: usize = 0;
        while lose_row[k] != win
            invariant
                0 <= k <= gk,
                gk < n - 1,
                n == lose_row@.len(),
                lose_row@[gk] == win,
                rebuilt@ == lose_row@.subrange(0, k as int),
                lose_row@.no_duplicates(),
            decreases n - k,
        {
            rebuilt.push(lose_row[k]);
            k += 1;
            proof {
                assert(rebuilt@ =~= lose_row@.subrange(0, k as int));
                if k as int > gk {
                    assert(lose_row@[k - 1] == lose_row@[gk]);
                    assert(false);
                }
            }
        }
        proof {
            if (k as int) < gk {
                assert(lose_row@[k as int] == lose_row@[gk]);
                assert(false);
            }
        }
        let win_flipped = self.flips[win as usize];
        proof {
            assert(win_flipped == self.flip_set_view().contains(win));
        }
        if !win_flipped {
            rebuilt.push(win);
            rebuilt.push(lose);
        } else {
            rebuilt.push(lose);
            rebuilt.push(win);
        }
        let ghost two = if win_flipped {
            seq![lose, win]
        } else {
            seq![win, lose]
        };
        proof {
            assert(rebuilt@ =~= lose_row@.subrange(0, gk) + two + lose_row@.subrange(
                gk + 1,
                gk + 1,
            ));
        }
        let mut new_flips = copy_bool_vec(&self.flips);
        if win_flipped {
            let cur = new_flips[lose as usize];
            new_flips.set(lose as usize, !cur);
        }
        let mut m: usize = k + 1;
        while m < n - 1
            invariant
                gk + 1 <= m <= n - 1,
                0 <= gk < n - 1,
                n == lose_row@.len(),
                rebuilt@ == lose_row@.subrange(0, gk) + two + lose_row@.subrange(gk + 1, m as int),
            decreases n - m,
        {
            let ghost pre = rebuilt@;
            rebuilt.push(lose_row[m]);
            proof {
                lemma_subrange_push(lose_row@, gk + 1, m as int);
                assert(rebuilt@ == pre.push(lose_row@[m as int]));
                assert((lose_row@.subrange(0, gk) + two + lose_row@.subrange(gk + 1, m as int))
                    .push(lose_row@[m as int]) =~= lose_row@.subrange(0, gk) + two + (
                lose_row@.subrange(gk + 1, m as int).push(lose_row@[m as int])));
                assert(rebuilt@ == lose_row@.subrange(0, gk) + two + lose_row@.subrange(
                    gk + 1,
                    m + 1,
                ));
            }
            m += 1;
        }
        proof {
            assert(rebuilt@ =~= rauzy_rebuilt_row(win_row@, lose_row@, win_flipped));
            lemma_rebuilt_row_ok(win_row@, lose_row@, win_flipped, n as int);
        }
        let new_win = copy_u8_vec(win_row);
        let result = match winner {
            WinningSide::Top => FlippedPermutation {
                top: new_win,
                bottom: rebuilt,
                flips: new_flips,
            },
            WinningSide::Bottom => FlippedPermutation {
                top: rebuilt,
                bottom: new_win,
                flips: new_flips,
            },
        };
        proof {
            assert(result.wf());
            assert(result.flip_set_view() =~= rauzy_new_flip_set(self.flip_set_view(), win, lose));
        }
        result
    }
}

/// Element-by-element equality of two rows.
fn eq_u8_vec(a: &Vec<u8>, b: &Vec<u8>) -> (r: bool)
    ensures
        r == (a@ == b@),
{
    if a.len() != b.len() {
        return false;
    }
    let n = a.len();
    let mut i: usize = 0;
    while i < n
        invariant
            i <= n,
            n == a@.len(),
            n == b@.len(),
            forall|k: int| 0 <= k < i ==> a@[k] == b@[k],
        decreases n - i,
    {
        if a[i] != b[i] {
            return false;
        }
        i += 1;
    }
    proof {
        assert(a@ =~= b@);
    }
    true
}

/// Element-by-element equality of two marker rows.
fn eq_bool_vec(a: &Vec<bool>, b: &Vec<bool>) -> (r: bool)
    ensures
        r == (a@ == b@),
{
    if a.len() != b.len() {
        return false;
    }
    let n = a.len();
    let mut i: usize = 0;
    while i < n
        invariant
            i <= n,
            n == a@.len(),
            n == b@.len(),
            forall|k: int| 0 <= k < i ==> a@[k] == b@[k],
        decreases n - i,
    {
        if a[i] != b[i] {
            return false;
        }
        i += 1;
    }
    proof {
        assert(a@ =~= b@);
    }
    true
}

impl Clone for FlippedPermutation {
    /// An exact copy: same rows, same flip set.
    fn clone(&self) -> (r: Self)
        ensures
            r.top_view() == self.top_view(),
            r.bottom_view() == self.bottom_view(),
            r.flips_view() == self.flips_view(),
            r.wf() == self.wf(),
    {
        FlippedPermutation {
            top: copy_u8_vec(&self.top),
            bottom: copy_u8_vec(&self.bottom),
            flips: copy_bool_vec(&self.flips),
        }
    }
}

impl PartialEq for FlippedPermutation {
    /// Structural equality: equal rows and equal flip markers.
    fn eq(&self, other: &Self) -> (r: bool) {
        eq_u8_vec(&self.top, &other.top) && eq_u8_vec(&self.bottom, &other.bottom) && eq_bool_vec(
            &self.flips,
            &other.flips,
        )
    }
}

impl vstd::std_specs::cmp::PartialEqSpecImpl for FlippedPermutation {
    open spec fn obeys_eq_spec() -> bool {
        true
    }

    open spec fn eq_spec(&self, other: &Self) -> bool {
        self.top_view() == other.top_view() && self.bottom_view() == other.bottom_view()
            && self.flips_view() == other.flips_view()
    }
}

impl Eq for FlippedPermutation {

}

impl FlippedPermutation {
    /// Both rows of a well-formed permutation are complete bijections onto
    /// the interval indices `0..n`, and the flip set is a subset of them.
    pub proof fn lemma_rows_bijective(self)
        requires
            self.wf(),
        ensures
            self.top_view().no_duplicates(),
            self.bottom_view().no_duplicates(),
            forall|i: int| 0 <= i < self.top_view().len() ==> self.top_view()[i]
                < self.top_view().len(),
            forall|i: int| 0 <= i < self.top_view().len() ==> self.bottom_view()[i]
                < self.top_view().len(),
            forall|v: u8| v < self.top_view().len() ==> self.top_view().contains(v),
            forall|v: u8| v < self.top_view().len() ==> self.bottom_view().contains(v),
            forall|v: u8| self.flip_set_view().contains(v) ==> v < self.top_view().len(),
    {
        lemma_row_complete(self.top_view(), self.top_view().len() as int);
        lemma_row_complete(self.bottom_view(), self.top_view().len() as int);
    }
}

} // verus!

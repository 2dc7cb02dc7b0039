use std::ops::{Deref, Range};

use vstd::prelude::*;

verus! {

/// The `k`th subrange of size `size` from `start`.
pub open spec fn cluster_range(start: int, size: int, k: int) -> Range<usize> {
    Range { start: (start + k * size) as usize, end: (start + (k + 1) * size) as usize }
}

/// A range split into consecutive subranges of one size, with the shorter rest, if any, apart.
pub struct SubrangesExact<T> {
    subranges: Vec<Range<T>>,
    remainder: Option<Range<T>>,
}

impl<T> SubrangesExact<T> {
    /// The subranges, in order.
    pub closed spec fn spec_subranges(&self) -> Seq<Range<T>> {
        self.subranges@
    }

    /// The rest of the range that is shorter than a subrange, if any.
    pub closed spec fn spec_remainder(&self) -> Option<Range<T>> {
        self.remainder
    }

    /// The rest of the range that is shorter than a subrange, if any.
    pub fn remainder(&self) -> (r: &Option<Range<T>>)
        ensures
            *r == self.spec_remainder(),
    {
        &self.remainder
    }

    /// The number of subranges.
    pub fn len(&self) -> (n: usize)
        ensures
            n == self.spec_subranges().len(),
    {
        self.subranges.len()
    }

    /// The `i`th subrange.
    pub fn get(&self, i: usize) -> (r: &Range<T>)
        requires
            i < self.spec_subranges().len(),
        ensures
            *r == self.spec_subranges()[i as int],
    {
        &self.subranges[i]
    }
}

impl<T> Deref for SubrangesExact<T> {
    type Target = Vec<Range<T>>;

    fn deref(&self) -> (r: &Vec<Range<T>>)
        ensures
            r@ == self.spec_subranges(),
    {
        &self.subranges
    }
}

/// The length of a range, 0 if it is empty or reversed.
pub open spec fn range_len(r: Range<usize>) -> int {
    if r.start < r.end {
        r.end - r.start
    } else {
        0
    }
}

/// Splits `range` like `chunks_exact` splits a slice: the subranges of `subrange_size` from the
/// start, in order, and the shorter rest as the remainder (None if there is no rest).
pub fn subranges_exact(range: Range<usize>, subrange_size: usize) -> (r: SubrangesExact<usize>)
    requires
        subrange_size >= 1,
    ensures
        ({
            let len = range_len(range);
            let n = len / (subrange_size as int);
            &&& r.spec_subranges().len() == n
            &&& forall|k: int|
                0 <= k < n ==> #[trigger] r.spec_subranges()[k] == cluster_range(
                    range.start as int,
                    subrange_size as int,
                    k,
                )
            &&& r.spec_remainder() == if len % (subrange_size as int) != 0 {
                Some(Range { start: (range.start + n * subrange_size) as usize, end: range.end })
            } else {
                None::<Range<usize>>
            }
            &&& range.start as int + n * subrange_size <= usize::MAX
            &&& n * subrange_size <= len
        }),
{
    let len: usize = if range.start < range.end { range.end - range.start } else { 0 };
    let n = len / subrange_size;
    proof {
        vstd::arithmetic::div_mod::lemma_fundamental_div_mod(len as int, subrange_size as int);
        assert(n * subrange_size <= len) by (nonlinear_arith)
            requires
                len == subrange_size * n + len % subrange_size,
                len % subrange_size >= 0,
        ;
    }
    let mut subranges: Vec<Range<usize>> = Vec::new();
    let mut k: usize = 0;
    while k < n
        invariant
            k <= n,
            n == (len as int) / (subrange_size as int),
            n * subrange_size <= len,
            len == range_len(range),
            subrange_size > 0,
            subranges@.len() == k,
            forall|j: int|
                0 <= j < k ==> #[trigger] subranges@[j] == cluster_range(
                    range.start as int,
                    subrange_size as int,
                    j,
                ),
        decreases n - k,
    {
        proof {
            assert((k + 1) * subrange_size <= n * subrange_size) by (nonlinear_arith)
                requires
                    k + 1 <= n,
            ;
            assert((k + 1) * subrange_size == k * subrange_size + subrange_size) by (nonlinear_arith);
        }
        let s = range.start + k * subrange_size;
        subranges.push(Range { start: s, end: s + subrange_size });
        k += 1;
    }
    let remainder = if len % subrange_size != 0 {
        Some(Range { start: range.start + n * subrange_size, end: range.end })
    } else {
        None
    };
    SubrangesExact { subranges, remainder }
}

/// Splitting into exactly sized subranges, much like `chunks_exact` but yielding ranges.
pub trait IntoSubrangesExact<T>: Sized {
    /// Whether `subrange_size` is usable for this range.
    spec fn subrange_size_ok(&self, subrange_size: usize) -> bool;

    fn into_subranges_exact(self, subrange_size: usize) -> SubrangesExact<T>
        requires
            self.subrange_size_ok(subrange_size),
    ;
}

impl IntoSubrangesExact<usize> for Range<usize> {
    open spec fn subrange_size_ok(&self, subrange_size: usize) -> bool {
        subrange_size >= 1
    }

    fn into_subranges_exact(self, subrange_size: usize) -> (r: SubrangesExact<usize>)
        ensures
            ({
                let len = range_len(self);
                let n = len / (subrange_size as int);
                &&& r.spec_subranges().len() == n
                &&& forall|k: int|
                    0 <= k < n ==> #[trigger] r.spec_subranges()[k] == cluster_range(
                        self.start as int,
                        subrange_size as int,
                        k,
                    )
                &&& r.spec_remainder() == if len % (subrange_size as int) != 0 {
                    Some(Range { start: (self.start + n * subrange_size) as usize, end: self.end })
                } else {
                    None::<Range<usize>>
                }
            }),
    {
        subranges_exact(self, subrange_size)
    }
}

} // verus!

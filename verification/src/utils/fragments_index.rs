use vstd::prelude::*;

use crate::validation::Fragment;

verus! {

/// The total length of a list of fragments.
pub open spec fn frags_len(frags: Seq<Fragment>) -> int
    decreases frags.len(),
{
    if frags.len() == 0 {
        0
    } else {
        frags_len(frags.drop_last()) + (frags.last().end - frags.last().start)
    }
}

/// Every fragment is a forward range.
pub open spec fn frags_ordered(frags: Seq<Fragment>) -> bool {
    forall|i: int| 0 <= i < frags.len() ==> #[trigger] frags[i].start <= frags[i].end
}

/// The index into the file data of position `idx` of the concatenated fragments.
pub open spec fn flat_index(frags: Seq<Fragment>, idx: int) -> int
    decreases frags.len(),
{
    if frags.len() == 0 {
        -1
    } else if idx < (frags[0].end - frags[0].start) {
        frags[0].start + idx
    } else {
        flat_index(frags.drop_first(), idx - (frags[0].end - frags[0].start))
    }
}

/// Indexes through a list of fragments of file data as though they were one contiguous slice,
/// optionally skipping some positions at the start and end.
pub struct FragmentsIndex<'d, 'f> {
    file_data: &'d [u8],
    frags: &'f [Fragment],
    start: usize,
    len: usize,
}

pub proof fn lemma_frags_len_nonneg(frags: Seq<Fragment>)
    requires
        frags_ordered(frags),
    ensures
        frags_len(frags) >= 0,
    decreases frags.len(),
{
    if frags.len() > 0 {
        lemma_frags_len_nonneg(frags.drop_last());
    }
}

pub proof fn lemma_frags_len_first(frags: Seq<Fragment>)
    requires
        frags.len() > 0,
    ensures
        frags_len(frags) == (frags[0].end - frags[0].start) + frags_len(frags.drop_first()),
    decreases frags.len(),
{
    if frags.len() > 1 {
        lemma_frags_len_first(frags.drop_last());
        assert(frags.drop_last().drop_first() =~= frags.drop_first().drop_last());
        assert(frags.drop_first().last() == frags.last());
        assert(frags.drop_last()[0] == frags[0]);
        assert(frags_len(frags.drop_first()) == frags_len(frags.drop_first().drop_last()) + (
        frags.last().end - frags.last().start));
    } else {
        assert(frags.drop_first().len() == 0);
        assert(frags.drop_last().len() == 0);
        assert(frags_len(frags.drop_first()) == 0);
        assert(frags_len(frags.drop_last()) == 0);
        assert(frags.last() == frags[0]);
    }
}

/// Sums the fragment lengths.
fn total_len(frags: &[Fragment]) -> (n: usize)
    requires
        frags_ordered(frags@),
        frags_len(frags@) <= usize::MAX,
    ensures
        n == frags_len(frags@),
{
    let mut counter: usize = 0;
    let mut i: usize = 0;
    while i < frags.len()
        invariant
            i <= frags@.len(),
            frags_ordered(frags@),
            frags_len(frags@) <= usize::MAX,
            counter == frags_len(frags@.take(i as int)),
        decreases frags@.len() - i,
    {
        assert(frags@.take(i + 1).drop_last() =~= frags@.take(i as int));
        proof {
            lemma_frags_len_mono(frags@, i + 1);
        }
        counter = counter + (frags[i].end - frags[i].start) as usize;
        i += 1;
    }
    assert(frags@.take(i as int) =~= frags@);
    counter
}

proof fn lemma_frags_len_mono(frags: Seq<Fragment>, n: int)
    requires
        frags_ordered(frags),
        0 <= n <= frags.len(),
    ensures
        0 <= frags_len(frags.take(n)) <= frags_len(frags),
    decreases frags.len() - n,
{
    if n < frags.len() {
        lemma_frags_len_mono(frags, n + 1);
        assert(frags.take(n + 1).drop_last() =~= frags.take(n));
        assert(frags.take(n + 1).last() == frags[n]);
        assert(frags[n].start <= frags[n].end);
        assert(frags_ordered(frags.take(n)));
        lemma_frags_len_nonneg(frags.take(n));
    } else {
        assert(frags.take(n) =~= frags);
        lemma_frags_len_nonneg(frags);
    }
}

impl<'d, 'f> FragmentsIndex<'d, 'f> {
    /// The indexed positions lie within the fragments, whose total length fits a `usize`.
    pub closed spec fn wf(&self) -> bool {
        &&& frags_ordered(self.frags@)
        &&& self.start + self.len <= frags_len(self.frags@) <= usize::MAX
    }

    pub closed spec fn spec_data(&self) -> Seq<u8> {
        self.file_data@
    }

    pub closed spec fn spec_frags(&self) -> Seq<Fragment> {
        self.frags@
    }

    pub closed spec fn spec_start(&self) -> int {
        self.start as int
    }

    pub closed spec fn spec_len(&self) -> int {
        self.len as int
    }

    /// Indexes the whole of the fragments.
    pub fn new(file_data: &'d [u8], frags: &'f [Fragment]) -> (r: Self)
        requires
            frags_ordered(frags@),
            frags_len(frags@) <= usize::MAX,
        ensures
            r.spec_data() == file_data@,
            r.spec_frags() == frags@,
            r.spec_start() == 0,
            r.spec_len() == frags_len(frags@),
            r.wf(),
    {
        let counter = total_len(frags);
        FragmentsIndex { file_data, frags, start: 0, len: counter }
    }

    /// Indexes the fragments without the first `start_offset` and the last `end_offset`
    /// positions; at least one position must remain.
    pub fn new_sliced(
        file_data: &'d [u8],
        frags: &'f [Fragment],
        start_offset: usize,
        end_offset: usize,
    ) -> (r: Self)
        requires
            frags_ordered(frags@),
            frags_len(frags@) <= usize::MAX,
            frags_len(frags@) - end_offset > start_offset,
        ensures
            r.spec_data() == file_data@,
            r.spec_frags() == frags@,
            r.spec_start() == start_offset,
            r.spec_len() == frags_len(frags@) - end_offset - start_offset,
            r.wf(),
    {
        let len = total_len(frags);
        FragmentsIndex { file_data, frags, start: start_offset, len: len - end_offset - start_offset }
    }

    /// The number of positions indexed.
    pub fn len(&self) -> (n: usize)
        ensures
            n == self.spec_len(),
    {
        self.len
    }

    /// The byte at position `index` of the indexed positions, e.g. for fragments [4..7, 10..15]
    /// position 0 is byte 4 of the file data and position 5 is byte 10.
    pub fn index(&self, index: usize) -> (r: &u8)
        requires
            self.wf(),
            index < self.spec_len(),
            0 <= flat_index(self.spec_frags(), self.spec_start() + index) < self.spec_data().len(),
        ensures
            *r == self.spec_data()[flat_index(self.spec_frags(), self.spec_start() + index)],
    {
        let idx = index + self.start;
        let mut counter: usize = 0;
        let mut i: usize = 0;
        let ghost frags = self.frags@;
        assert(frags.skip(0) =~= frags);
        while i < self.frags.len()
            invariant
                frags == self.frags@,
                frags_ordered(frags),
                i <= frags.len(),
                counter <= idx,
                idx < frags_len(frags),
                frags_len(frags) <= usize::MAX,
                idx == index + self.start,
                counter + frags_len(frags.skip(i as int)) == frags_len(frags),
                flat_index(frags.skip(i as int), idx - counter) == flat_index(frags, idx as int),
                0 <= flat_index(frags, idx as int) < self.file_data@.len(),
            decreases frags.len() - i,
        {
            let f_start = self.frags[i].start;
            let f_end = self.frags[i].end;
            let flen = (f_end - f_start) as usize;
            proof {
                lemma_frags_len_first(frags.skip(i as int));
                assert(frags.skip(i as int).drop_first() =~= frags.skip(i + 1));
                assert(frags.skip(i as int)[0] == frags[i as int]);
                lemma_frags_len_nonneg(frags.skip(i + 1));
                assert(frags_ordered(frags.skip(i + 1)));
            }
            if counter + flen > idx {
                let file_idx = (f_start + (idx - counter) as u64) as usize;
                return &self.file_data[file_idx];
            }
            counter = counter + flen;
            i += 1;
        }
        proof {
            assert(frags.skip(i as int).len() == 0);
        }
        &self.file_data[0]
    }
}

} // verus!

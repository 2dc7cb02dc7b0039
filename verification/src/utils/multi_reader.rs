use vstd::prelude::*;

verus! {

/// The slices concatenated in order.
pub open spec fn flatten(s: Seq<Seq<u8>>) -> Seq<u8>
    decreases s.len(),
{
    if s.len() == 0 {
        Seq::empty()
    } else {
        s[0] + flatten(s.drop_first())
    }
}

proof fn lemma_flatten_skip(s: Seq<Seq<u8>>, k: int)
    requires
        0 <= k < s.len(),
    ensures
        flatten(s.skip(k)) == s[k] + flatten(s.skip(k + 1)),
{
    assert(s.skip(k).drop_first() =~= s.skip(k + 1));
    assert(s.skip(k)[0] == s[k]);
}

/// Reads a list of byte slices one after another, as one stream.
pub struct MultiReader<'a> {
    data: &'a [&'a [u8]],
    slice_idx: usize,
    local_idx: usize,
}

impl<'a> MultiReader<'a> {
    /// The slices as sequences.
    pub closed spec fn slices(&self) -> Seq<Seq<u8>> {
        self.data@.map_values(|s: &[u8]| s@)
    }

    /// The position is within the slices.
    pub closed spec fn wf(&self) -> bool {
        &&& self.slice_idx <= self.data@.len()
        &&& self.slice_idx < self.data@.len() ==> self.local_idx <= self.data@[self.slice_idx as int]@.len()
        &&& self.slice_idx == self.data@.len() ==> self.local_idx == 0
    }

    /// The bytes not read yet.
    pub closed spec fn remaining(&self) -> Seq<u8> {
        if self.slice_idx < self.data@.len() {
            self.data@[self.slice_idx as int]@.skip(self.local_idx as int) + flatten(
                self.slices().skip(self.slice_idx + 1),
            )
        } else {
            Seq::empty()
        }
    }

    /// A reader at the start of the first slice.
    pub fn new(data: &'a [&'a [u8]]) -> (r: Self)
        ensures
            r.wf(),
            r.remaining() == flatten(data@.map_values(|s: &[u8]| s@)),
    {
        let r = MultiReader { data, slice_idx: 0, local_idx: 0 };
        proof {
            if data@.len() > 0 {
                lemma_flatten_skip(r.slices(), 0);
                assert(r.slices().skip(0) =~= r.slices());
                assert(data@[0]@.skip(0) =~= data@[0]@);
            } else {
                assert(r.slices() =~= Seq::<Seq<u8>>::empty());
            }
        }
        r
    }

    /// Reads the next bytes into the start of `buf`, as many as fit or remain, and returns how
    /// many were read (0 once all are read, or if `buf` is empty).
    pub fn read(&mut self, buf: &mut [u8]) -> (n: usize)
        requires
            old(self).wf(),
        ensures
            final(self).wf(),
            n == (if old(buf)@.len() < old(self).remaining().len() {
                old(buf)@.len()
            } else {
                old(self).remaining().len()
            }),
            final(buf)@ == old(self).remaining().take(n as int) + old(buf)@.skip(n as int),
            final(self).remaining() == old(self).remaining().skip(n as int),
            final(self).slices() == old(self).slices(),
    {
        let ghost rem0 = self.remaining();
        let ghost buf0 = buf@;
        if self.slice_idx == self.data.len() {
            assert(buf@ =~= rem0.take(0) + buf0.skip(0));
            assert(rem0.skip(0) =~= rem0);
            return 0;
        }
        let target = buf.len();
        let mut written: usize = 0;
        let mut done = false;
        while written < target && !done
            invariant
                self.wf(),
                self.slices() == old(self).slices(),
                self.data == old(self).data,
                target == buf@.len(),
                buf@.len() == buf0.len(),
                written <= target,
                written <= rem0.len(),
                buf@ == rem0.take(written as int) + buf0.skip(written as int),
                self.remaining() == rem0.skip(written as int),
                done ==> self.remaining().len() == 0,
                !done ==> self.slice_idx < self.data@.len(),
            decreases (target - written) + (self.data@.len() - self.slice_idx) + (if done {
                0int
            } else {
                1
            }),
        {
            let this = self.data[self.slice_idx];
            let this_len = this.len();
            let li = self.local_idx;
            let avail = this_len - li;
            let end = if target - written < avail {
                li + (target - written)
            } else {
                this_len
            };
            let ghost w0 = written as int;
            let ghost si = self.slice_idx as int;
            proof {
                lemma_flatten_skip(self.slices(), si);
            }
            let mut k = li;
            while k < end
                invariant
                    li <= k <= end <= this_len,
                    this_len == this@.len(),
                    this@ == self.data@[si]@,
                    w0 + (end - li) <= target,
                    written == w0 + (k - li),
                    buf@.len() == buf0.len(),
                    target == buf@.len(),
                    buf@ == rem0.take(w0) + this@.subrange(li as int, k as int) + buf0.skip(written as int),
                decreases end - k,
            {
                buf[written] = this[k];
                assert(this@.subrange(li as int, k + 1) =~= this@.subrange(li as int, k as int).push(this@[k as int]));
                assert(buf@ =~= rem0.take(w0) + this@.subrange(li as int, k + 1) + buf0.skip(written + 1));
                written += 1;
                k += 1;
            }
            proof {
                let rest = flatten(self.slices().skip(si + 1));
                assert(rem0.skip(w0) =~= this@.skip(li as int) + rest);
                assert(rem0.skip(w0).take(end - li) =~= this@.subrange(li as int, end as int));
                assert(rem0.skip(w0).len() == rem0.len() - w0);
                assert(written <= rem0.len());
                assert(rem0.take(written as int) =~= rem0.take(w0) + rem0.skip(w0).take(end - li));
                assert(rem0.skip(written as int) =~= rem0.skip(w0).skip(end - li));
                assert(rem0.skip(w0).skip(end - li) =~= this@.skip(end as int) + rest);
            }
            if end == this_len {
                self.slice_idx = self.slice_idx + 1;
                self.local_idx = 0;
                proof {
                    assert(rem0.skip(written as int) =~= flatten(self.slices().skip(si + 1)));
                    if self.slice_idx < self.data@.len() {
                        lemma_flatten_skip(self.slices(), si + 1);
                        assert(self.data@[si + 1]@.skip(0) =~= self.data@[si + 1]@);
                        assert(self.slices()[si + 1] == self.data@[si + 1]@);
                    } else {
                        assert(self.slices().skip(si + 1) =~= Seq::<Seq<u8>>::empty());
                    }
                }
                if self.slice_idx == self.data.len() {
                    done = true;
                }
            } else {
                self.local_idx = end;
                assert(rem0.skip(written as int) =~= this@.skip(end as int) + flatten(self.slices().skip(si + 1)));
            }
        }
        written
    }
}

} // verus!

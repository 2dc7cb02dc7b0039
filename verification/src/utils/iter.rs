use vstd::prelude::*;

verus! {

/// The windows of `s`: each window is the first `ws` items (or all if fewer), and the next
/// window starts `gap` items later, as long as that is within `s` (a window starting exactly at
/// the end is empty).
pub open spec fn gapped_windows<T>(s: Seq<T>, ws: int, gap: int) -> Seq<Seq<T>>
    decreases s.len(),
{
    let w = s.take(if ws < s.len() { ws } else { s.len() as int });
    if 0 < gap <= s.len() {
        seq![w] + gapped_windows(s.skip(gap), ws, gap)
    } else {
        seq![w]
    }
}

/// Windows of `window_size` items over a slice, each starting `window_gap` items after the
/// previous one (windows overlap where the gap is smaller than the size).
pub struct GappedWindows<'a, T> {
    inner: Option<&'a [T]>,
    window_size: usize,
    window_gap: usize,
}

/// Makes gapped windows over a slice.
pub trait ToGappedWindows<'a, T> {
    fn to_gapped_windows(&'a self, window_size: usize, window_gap: usize) -> GappedWindows<'a, T>;
}

impl<'a, T> ToGappedWindows<'a, T> for [T] {
    fn to_gapped_windows(&'a self, window_size: usize, window_gap: usize) -> (w: GappedWindows<'a, T>)
        ensures
            w.rest() == Some(self@),
            w.size() == window_size,
            w.gap() == window_gap,
    {
        GappedWindows { inner: Some(self), window_size, window_gap }
    }
}

impl<'a, T> GappedWindows<'a, T> {
    /// The items not yet passed, None once past the end.
    pub closed spec fn rest(&self) -> Option<Seq<T>> {
        match self.inner {
            Some(s) => Some(s@),
            None => None,
        }
    }

    /// The window size.
    pub closed spec fn size(&self) -> usize {
        self.window_size
    }

    /// The distance between window starts.
    pub closed spec fn gap(&self) -> usize {
        self.window_gap
    }

    /// The next window, None after the last.
    pub fn next(&mut self) -> (r: Option<&'a [T]>)
        ensures
            final(self).size() == old(self).size(),
            final(self).gap() == old(self).gap(),
            match old(self).rest() {
                None => r is None && final(self).rest() is None,
                Some(s) => {
                    &&& r is Some
                    &&& r->0@ == s.take(
                        if old(self).size() < s.len() {
                            old(self).size() as int
                        } else {
                            s.len() as int
                        },
                    )
                    &&& final(self).rest() == if old(self).gap() <= s.len() {
                        Some(s.skip(old(self).gap() as int))
                    } else {
                        None::<Seq<T>>
                    }
                },
            },
    {
        match self.inner {
            None => None,
            Some(s) => {
                let len = s.len();
                let m = if self.window_size < len {
                    self.window_size
                } else {
                    len
                };
                let ret = &s[0..m];
                self.inner = if self.window_gap <= len {
                    Some(&s[self.window_gap..len])
                } else {
                    None
                };
                Some(ret)
            },
        }
    }

    /// All the remaining windows, in order.
    pub fn collect(self) -> (r: Vec<&'a [T]>)
        requires
            self.gap() > 0,
        ensures
            r@.map_values(|w: &[T]| w@) == match self.rest() {
                Some(s) => gapped_windows(s, self.size() as int, self.gap() as int),
                None => Seq::empty(),
            },
    {
        let mut it = self;
        let mut res: Vec<&'a [T]> = Vec::new();
        let ghost total = match self.rest() {
            Some(s) => gapped_windows(s, self.size() as int, self.gap() as int),
            None => Seq::empty(),
        };
        loop
            invariant
                it.size() == self.size(),
                it.gap() == self.gap(),
                it.gap() > 0,
                total == match self.rest() {
                    Some(s) => gapped_windows(s, self.size() as int, self.gap() as int),
                    None => Seq::empty(),
                },
                total == res@.map_values(|w: &[T]| w@) + match it.rest() {
                    Some(s) => gapped_windows(s, it.size() as int, it.gap() as int),
                    None => Seq::empty(),
                },
            decreases (match it.rest() {
                Some(s) => s.len() + 1,
                None => 0,
            }),
        {
            let ghost before = it.rest();
            let ghost acc = res@.map_values(|w: &[T]| w@);
            match it.next() {
                Some(w) => {
                    res.push(w);
                    proof {
                        let s = before->0;
                        assert(res@.map_values(|w: &[T]| w@) =~= acc.push(w@));
                        let rest = match it.rest() {
                            Some(t) => gapped_windows(t, it.size() as int, it.gap() as int),
                            None => Seq::empty(),
                        };
                        assert(gapped_windows(s, it.size() as int, it.gap() as int) =~= seq![w@] + rest);
                        assert(acc + (seq![w@] + rest) =~= acc.push(w@) + rest);
                    }
                },
                None => {
                    assert(before is None);
                    assert(total =~= acc);
                    return res;
                },
            }
        }
    }
}

/// The items in chunks of `size`: full chunks only.
pub open spec fn exact_chunks<T>(s: Seq<T>, size: int) -> Seq<Seq<T>>
    decreases s.len(),
{
    if size <= 0 || s.len() < size {
        Seq::empty()
    } else {
        seq![s.take(size)] + exact_chunks(s.skip(size), size)
    }
}

/// Chunks of exactly `chunk_size` items taken from a sequence of items, in order; items left
/// over that do not fill a chunk are held back.
pub struct ChunksIterExact<T> {
    items: Vec<T>,
    chunk_size: usize,
    collector: Vec<T>,
}

/// Makes exact chunks of a sequence of items.
pub trait ToChunksExact<T> {
    fn to_chunks_exact(self, chunk_size: usize) -> ChunksIterExact<T>;
}

impl<T> ToChunksExact<T> for Vec<T> {
    fn to_chunks_exact(self, chunk_size: usize) -> (c: ChunksIterExact<T>)
        ensures
            c.remaining() == self@,
            c.held() == Seq::<T>::empty(),
            c.size() == chunk_size,
    {
        ChunksIterExact::new(self, chunk_size)
    }
}

impl<T> ChunksIterExact<T> {
    /// The items not taken yet, in order.
    pub closed spec fn remaining(&self) -> Seq<T> {
        self.items@.reverse()
    }

    /// The items taken but held back, short of a chunk.
    pub closed spec fn held(&self) -> Seq<T> {
        self.collector@
    }

    /// The chunk size.
    pub closed spec fn size(&self) -> usize {
        self.chunk_size
    }

    /// Chunks over `items`.
    pub fn new(items: Vec<T>, chunk_size: usize) -> (c: Self)
        ensures
            c.remaining() == items@,
            c.held() == Seq::<T>::empty(),
            c.size() == chunk_size,
    {
        let mut items = items;
        let mut reversed: Vec<T> = Vec::new();
        let ghost orig = items@;
        while items.len() > 0
            invariant
                orig == items@ + reversed@.reverse(),
            decreases items@.len(),
        {
            let ghost before = items@;
            let x = items.pop().unwrap();
            reversed.push(x);
            assert(before =~= items@.push(x));
            assert(reversed@.reverse() =~= seq![x] + reversed@.drop_last().reverse());
            assert(orig =~= items@ + reversed@.reverse());
        }
        assert(orig =~= reversed@.reverse());
        ChunksIterExact { items: reversed, chunk_size, collector: Vec::new() }
    }

    /// The next chunk: the held items with the next items, `chunk_size` in all; None if the items
    /// run out first, in which case the items taken are held back.
    pub fn next(&mut self) -> (r: Option<Vec<T>>)
        ensures
            final(self).size() == old(self).size(),
            old(self).remaining().len() >= old(self).size() ==> {
                &&& r is Some
                &&& r->0@ == old(self).held() + old(self).remaining().take(old(self).size() as int)
                &&& final(self).remaining() == old(self).remaining().skip(old(self).size() as int)
                &&& final(self).held() == Seq::<T>::empty()
            },
            old(self).remaining().len() < old(self).size() ==> {
                &&& r is None
                &&& final(self).remaining() == Seq::<T>::empty()
                &&& final(self).held() == old(self).held() + old(self).remaining()
            },
    {
        let ghost rem0 = self.remaining();
        let ghost held0 = self.held();
        let mut k: usize = 0;
        while k < self.chunk_size
            invariant
                k <= self.chunk_size,
                self.chunk_size == old(self).chunk_size,
                rem0 == old(self).remaining(),
                held0 == old(self).held(),
                k <= rem0.len(),
                self.remaining() == rem0.skip(k as int),
                self.held() == held0 + rem0.take(k as int),
            decreases self.chunk_size - k,
        {
            let ghost before = self.items@;
            match self.items.pop() {
                Some(x) => {
                    self.collector.push(x);
                    proof {
                        assert(before =~= self.items@.push(x));
                        assert(before.reverse() =~= seq![x] + self.items@.reverse());
                        assert(k < rem0.len());
                        assert(rem0.skip(k as int) =~= seq![x] + rem0.skip(k + 1));
                        assert(before.reverse() == rem0.skip(k as int));
                        assert(self.items@.reverse() =~= before.reverse().drop_first());
                        assert(rem0.skip(k + 1) =~= rem0.skip(k as int).drop_first());
                        assert(self.items@.reverse() =~= rem0.skip(k + 1));
                        assert(rem0.skip(k as int)[0] == rem0[k as int]);
                        assert(rem0[k as int] == x);
                        assert(rem0.take(k + 1) =~= rem0.take(k as int).push(x));
                        assert(self.held() =~= held0 + rem0.take(k + 1));
                    }
                },
                None => {
                    proof {
                        assert(before.len() == 0);
                        assert(rem0.skip(k as int).len() == 0);
                        assert(rem0.take(k as int) =~= rem0);
                        assert(self.items@.reverse() =~= Seq::<T>::empty());
                    }
                    return None;
                },
            }
            k += 1;
        }
        let mut out: Vec<T> = Vec::new();
        std::mem::swap(&mut out, &mut self.collector);
        Some(out)
    }

    /// All the remaining chunks, in order.
    pub fn collect(self) -> (r: Vec<Vec<T>>)
        requires
            self.size() > 0,
            self.held() == Seq::<T>::empty(),
        ensures
            r@.map_values(|c: Vec<T>| c@) == exact_chunks(self.remaining(), self.size() as int),
    {
        let mut it = self;
        let mut res: Vec<Vec<T>> = Vec::new();
        let ghost total = exact_chunks(self.remaining(), self.size() as int);
        loop
            invariant
                it.size() == self.size(),
                it.size() > 0,
                it.held() == Seq::<T>::empty(),
                total == exact_chunks(self.remaining(), self.size() as int),
                total == res@.map_values(|c: Vec<T>| c@) + exact_chunks(it.remaining(), it.size() as int),
            decreases it.remaining().len(),
        {
            let ghost rem = it.remaining();
            let ghost acc = res@.map_values(|c: Vec<T>| c@);
            match it.next() {
                Some(c) => {
                    let ghost cv = c@;
                    res.push(c);
                    proof {
                        assert(res@.map_values(|c: Vec<T>| c@) =~= acc.push(cv));
                        assert(cv =~= rem.take(it.size() as int));
                        assert(acc + (seq![cv] + exact_chunks(it.remaining(), it.size() as int))
                            =~= acc.push(cv) + exact_chunks(it.remaining(), it.size() as int));
                    }
                },
                None => {
                    assert(rem.len() < it.size());
                    assert(exact_chunks(rem, it.size() as int) =~= Seq::<Seq<T>>::empty());
                    assert(total =~= acc);
                    return res;
                },
            }
        }
    }
}

} // verus!

//! Consecutive chunks of a slice with the sizes given in a list.
use vstd::prelude::*;

use super::{range_view, Range};

verus! {

/// Cuts a slice of `len` items into consecutive chunks, the `k`-th one
/// `sizes[k]` items long; the last chunk is what is left when that is fewer,
/// and nothing comes after the slice or the sizes run out.
pub struct VariableChunksIterator {
    len: usize,
    position: usize,
    chunk_sizes: Vec<usize>,
    next_size: usize,
}

impl VariableChunksIterator {
    pub closed spec fn len(&self) -> nat {
        self.len as nat
    }

    /// Where the next chunk starts.
    pub closed spec fn position(&self) -> nat {
        self.position as nat
    }

    /// The sizes not used yet.
    pub closed spec fn sizes(&self) -> Seq<usize> {
        self.chunk_sizes@.subrange(self.next_size as int, self.chunk_sizes@.len() as int)
    }

    pub closed spec fn wf(&self) -> bool {
        &&& self.position <= self.len
        &&& self.next_size <= self.chunk_sizes@.len()
    }

    pub fn new<T>(slice: &[T], chunk_sizes: &[usize]) -> (it: VariableChunksIterator)
        ensures
            it.wf(),
            it.len() == slice@.len(),
            it.position() == 0,
            it.sizes() == chunk_sizes@,
    {
        let mut sizes: Vec<usize> = Vec::new();
        let mut i: usize = 0;
        while i < chunk_sizes.len()
            invariant
                i <= chunk_sizes@.len(),
                sizes@ == chunk_sizes@.subrange(0, i as int),
            decreases chunk_sizes@.len() - i,
        {
            sizes.push(chunk_sizes[i]);
            i = i + 1;
            assert(sizes@ =~= chunk_sizes@.subrange(0, i as int));
        }
        assert(sizes@.subrange(0, sizes@.len() as int) =~= chunk_sizes@);
        VariableChunksIterator { len: slice.len(), position: 0, chunk_sizes: sizes, next_size: 0 }
    }

    /// Takes the next size, if any is left.
    fn get_next_chunk_size(&mut self) -> (r: Option<usize>)
        requires
            old(self).wf(),
        ensures
            final(self).wf(),
            final(self).len() == old(self).len(),
            final(self).position() == old(self).position(),
            old(self).sizes().len() == 0 ==> r is None && final(self).sizes() == old(self).sizes(),
            old(self).sizes().len() > 0 ==> r == Some(old(self).sizes()[0]) && final(self).sizes()
                == old(self).sizes().drop_first(),
    {
        if self.next_size >= self.chunk_sizes.len() {
            return None;
        }
        let size = self.chunk_sizes[self.next_size];
        self.next_size = self.next_size + 1;
        assert(self.sizes() =~= old(self).sizes().drop_first());
        Some(size)
    }

    /// Cuts the next chunk of at most `size` items.
    fn get_next_chunk(&mut self, size: usize) -> (r: Option<Range>)
        requires
            old(self).wf(),
        ensures
            final(self).wf(),
            final(self).len() == old(self).len(),
            final(self).sizes() == old(self).sizes(),
            ({
                let p = old(self).position() as int;
                let len = old(self).len() as int;
                if p >= len {
                    r is None && final(self).position() == p
                } else {
                    let e = if p + size >= len { len } else { p + size };
                    r is Some && range_view(r->Some_0) == (p, e) && final(self).position() == e
                }
            }),
    {
        if self.position >= self.len {
            None
        } else {
            let start = self.position;
            let end = if self.len - start <= size {
                self.len
            } else {
                start + size
            };
            self.position = end;
            Some((start, end))
        }
    }

    /// The range of the next chunk.
    pub fn next(&mut self) -> (r: Option<Range>)
        requires
            old(self).wf(),
        ensures
            final(self).wf(),
            final(self).len() == old(self).len(),
            ({
                let p = old(self).position() as int;
                let len = old(self).len() as int;
                let sizes = old(self).sizes();
                if sizes.len() == 0 {
                    r is None && final(self).position() == p && final(self).sizes() == sizes
                } else if p >= len {
                    r is None && final(self).position() == p && final(self).sizes() == sizes.drop_first()
                } else {
                    let e = if p + sizes[0] >= len { len } else { p + sizes[0] };
                    &&& r is Some
                    &&& range_view(r->Some_0) == (p, e)
                    &&& final(self).position() == e
                    &&& final(self).sizes() == sizes.drop_first()
                }
            }),
    {
        let size = match self.get_next_chunk_size() {
            Some(v) => v,
            None => {
                return None;
            },
        };
        self.get_next_chunk(size)
    }
}

} // verus!

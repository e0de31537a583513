//! The pull-based byte source the decoder consumes.

use vstd::prelude::*;
use crate::message::IoError;

verus! {

/// A pull-based reader yielding bytes from some stream.
///
/// The decoder's one demand on its environment: fill a buffer, report how
/// many bytes arrived. The source carries a content model, [`stream`]: the
/// bytes it will yield from here on, in order. Every successful read serves
/// a prefix of that content, and an empty chunk (when at least one byte was
/// asked for) means the content is exhausted — so a caller that drains the
/// source knows it saw the whole stream. Implementations backed by real
/// input (a gzip-decompressed file, say) live outside the verified library;
/// [`SliceSource`] is a verified in-memory one.
///
/// [`stream`]: ByteSource::stream
pub trait ByteSource {
    /// The bytes the source will still yield, in order. Serving a chunk
    /// consumes a prefix of this content, which is also what makes a loop
    /// that drains the source terminate.
    spec fn stream(&self) -> Seq<u8>;

    /// Whether a read can ever fail. A source that reports `false` (an
    /// in-memory buffer, say) never returns an error, and stays that way.
    spec fn may_fail(&self) -> bool;

    /// Yield the next chunk of at most `max` bytes: the next prefix of the
    /// remaining content. An empty chunk, when `max` allowed at least one
    /// byte, means the content is exhausted.
    fn read_chunk(&mut self, max: usize) -> (r: Result<Vec<u8>, IoError>)
        ensures
            r matches Ok(c) ==> {
                &&& c@.len() <= max
                &&& c@.len() <= old(self).stream().len()
                &&& c@ == old(self).stream().take(c@.len() as int)
                &&& final(self).stream() == old(self).stream().skip(c@.len() as int)
                &&& (max > 0 && c@.len() == 0 ==> old(self).stream().len() == 0)
            },
            r is Err ==> old(self).may_fail(),
            final(self).may_fail() ==> old(self).may_fail(),
    ;
}

/// An in-memory byte source that serves a fixed buffer in chunks of a
/// configurable size, for replaying captured streams and for exercising the
/// decoder's refill discipline.
pub struct SliceSource {
    /// The whole stream.
    pub data: Vec<u8>,
    /// How much of `data` has been served.
    pub pos: usize,
    /// Upper bound on the size of one served chunk (0 serves nothing).
    pub chunk: usize,
}

impl SliceSource {
    /// A source that serves `data` in chunks of at most `chunk` bytes.
    pub fn new(data: Vec<u8>, chunk: usize) -> (s: SliceSource)
        ensures
            s.data == data,
            s.pos == 0,
            s.chunk == chunk,
    {
        SliceSource { data, pos: 0, chunk }
    }

    /// The bytes not yet served.
    pub open spec fn remaining(&self) -> Seq<u8> {
        if self.pos <= self.data@.len() {
            self.data@.skip(self.pos as int)
        } else {
            Seq::empty()
        }
    }
}

impl ByteSource for SliceSource {
    /// The bytes not yet served; a source with a zero chunk size serves
    /// nothing, so its content is empty.
    open spec fn stream(&self) -> Seq<u8> {
        if self.chunk == 0 {
            Seq::empty()
        } else {
            self.remaining()
        }
    }

    /// An in-memory source cannot fail.
    open spec fn may_fail(&self) -> bool {
        false
    }

    /// Serves the next `min(max, chunk, unserved)` bytes of the buffer.
    fn read_chunk(&mut self, max: usize) -> (r: Result<Vec<u8>, IoError>)
        ensures
            r matches Ok(c) ==> {
                &&& c@.len() <= max
                &&& final(self).data == old(self).data
                &&& final(self).chunk == old(self).chunk
                &&& final(self).pos == old(self).pos + c@.len()
                &&& c@ == old(self).remaining().take(c@.len() as int)
                &&& c@.len() == vstd::math::min(
                    vstd::math::min(max as int, old(self).chunk as int),
                    old(self).remaining().len() as int,
                )
            },
            r is Ok,
    {
        let mut want = if max < self.chunk {
            max
        } else {
            self.chunk
        };
        let left = if self.pos <= self.data.len() {
            self.data.len() - self.pos
        } else {
            0
        };
        if left < want {
            want = left;
        }
        let mut out: Vec<u8> = Vec::new();
        let mut i: usize = 0;
        while i < want
            invariant
                want == 0 || self.pos + want <= self.data@.len(),
                self.pos + want <= usize::MAX,
                i <= want,
                out@.len() == i,
                want == 0 || out@ == self.data@.subrange(self.pos as int, self.pos + i),
            decreases want - i,
        {
            out.push(self.data[self.pos + i]);
            i = i + 1;
        }
        proof {
            assert(out@ == self.remaining().take(want as int));
            if self.chunk > 0 {
                assert(out@ == self.stream().take(want as int));
            }
        }
        self.pos = self.pos + want;
        proof {
            if old(self).chunk > 0 {
                assert(self.stream() =~= old(self).stream().skip(want as int));
            }
        }
        Ok(out)
    }
}

/// A byte source that always fails, standing in for a stream whose backing
/// input has broken; it exercises the decoder's error path.
pub struct FailingSource {}

impl ByteSource for FailingSource {
    /// Nothing will ever come.
    open spec fn stream(&self) -> Seq<u8> {
        Seq::empty()
    }

    /// Every read fails.
    open spec fn may_fail(&self) -> bool {
        true
    }

    /// Every read fails.
    fn read_chunk(&mut self, max: usize) -> (r: Result<Vec<u8>, IoError>)
        ensures
            r is Err,
    {
        Err(IoError {})
    }
}

} // verus!

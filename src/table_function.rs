use vstd::prelude::*;

use crate::window_state::Datum;

verus! {

/// One chunk of table-function output: for each output row, the index of the
/// input row it came from and its value.
pub struct OutputChunk {
    pub indices: Vec<usize>,
    pub values: Vec<Datum>,
}

impl OutputChunk {
    /// Both columns have the same, non-zero, number of rows.
    pub open spec fn valid(&self) -> bool {
        self.indices.len() == self.values.len() && self.indices.len() > 0
    }
}

/// Row-by-row access to the chunks a table function produces. Fetching the
/// next chunk is left to the caller: `next` says when it is needed, and the
/// iterator changes only once `refill` hands the chunk over.
pub struct TableFunctionOutputIter {
    chunk: Option<OutputChunk>,
    index: usize,
}

impl TableFunctionOutputIter {
    /// The current chunk, if the stream has not ended.
    pub closed spec fn current(&self) -> Option<OutputChunk> {
        self.chunk
    }

    /// The position of the current row in the current chunk.
    pub closed spec fn position(&self) -> usize {
        self.index
    }

    pub closed spec fn wf(&self) -> bool {
        match self.chunk {
            Some(c) => c.valid() && self.index < c.indices.len(),
            None => true,
        }
    }

    /// Starts at the first row of the first chunk; `None` is an empty stream.
    pub fn new(first: Option<OutputChunk>) -> (r: TableFunctionOutputIter)
        requires
            first matches Some(c) ==> c.valid(),
        ensures
            r.wf(),
            r.current() == first,
            r.position() == 0,
    {
        TableFunctionOutputIter { chunk: first, index: 0 }
    }

    /// The current row: its input row index and value; `None` at the end.
    pub fn peek(&self) -> (r: Option<(usize, Datum)>)
        requires
            self.wf(),
        ensures
            match self.current() {
                Some(c) => r == Some(
                    (c.indices@[self.position() as int], c.values@[self.position() as int]),
                ),
                None => r is None,
            },
    {
        match &self.chunk {
            Some(c) => Some((c.indices[self.index], c.values[self.index])),
            None => None,
        }
    }

    /// Moves to the next row of the current chunk. Returns `true`, changing
    /// nothing, when the current row is the chunk's last: the caller then
    /// fetches the next chunk and passes it to `refill`.
    pub fn next(&mut self) -> (needs_chunk: bool)
        requires
            old(self).wf(),
        ensures
            final(self).wf(),
            final(self).current() == old(self).current(),
            match old(self).current() {
                Some(c) => if old(self).position() + 1 == c.indices.len() {
                    needs_chunk && final(self).position() == old(self).position()
                } else {
                    !needs_chunk && final(self).position() == old(self).position() + 1
                },
                None => !needs_chunk && final(self).position() == old(self).position(),
            },
    {
        let last = match &self.chunk {
            Some(c) => self.index + 1 == c.indices.len(),
            None => return false,
        };
        if last {
            true
        } else {
            self.index = self.index + 1;
            false
        }
    }

    /// Continues at the first row of `chunk`; `None` ends the stream.
    pub fn refill(&mut self, chunk: Option<OutputChunk>)
        requires
            chunk matches Some(c) ==> c.valid(),
        ensures
            final(self).wf(),
            final(self).current() == chunk,
            final(self).position() == 0,
    {
        self.chunk = chunk;
        self.index = 0;
    }
}

} // verus!

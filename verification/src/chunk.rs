//! Chunks: the batches of rows that flow through the pipeline.

use std::collections::VecDeque;
use vstd::prelude::*;
use crate::row::Row;
use crate::row::CELL_BYTES;

verus! {

/// Whether every row of `rows` has `width` cells.
pub open spec fn rows_have_width(rows: Seq<Row>, width: nat) -> bool {
    forall|i: int| 0 <= i < rows.len() ==> (#[trigger] rows[i]).width() == width
}

/// The estimated size in bytes of `height` rows of `width` cells, capped at
/// what a `usize` holds.
pub open spec fn estimated_bytes(height: nat, width: nat) -> int {
    if height * width * CELL_BYTES > usize::MAX {
        usize::MAX as int
    } else {
        height * width * CELL_BYTES
    }
}

/// An immutable batch of rows under one schema, which here is the number of
/// columns.
#[derive(Debug, Clone, PartialEq, Eq)]
pub struct Chunk {
    pub width: usize,
    pub rows: Vec<Row>,
}

impl View for Chunk {
    type V = Seq<Row>;

    open spec fn view(&self) -> Seq<Row> {
        self.rows@
    }
}

impl Chunk {
    /// Every row has as many cells as the schema has columns.
    pub open spec fn wf(self) -> bool {
        rows_have_width(self.rows@, self.width as nat)
    }

    /// A chunk without rows.
    pub fn empty(width: usize) -> (chunk: Chunk)
        ensures
            chunk.wf(),
            chunk.width == width,
            chunk@ == Seq::<Row>::empty(),
    {
        Chunk { width, rows: Vec::new() }
    }

    /// Builds a chunk from `rows`, or nothing if some row does not have
    /// `width` cells.
    pub fn from_rows(width: usize, rows: Vec<Row>) -> (made: Option<Chunk>)
        ensures
            made is Some <==> rows_have_width(rows@, width as nat),
            made matches Some(chunk) ==> chunk.wf() && chunk.width == width && chunk.rows == rows,
    {
        let n: usize = rows.len();
        let mut i: usize = 0;
        while i < n
            invariant
                n == rows@.len(),
                i <= n,
                forall|j: int| 0 <= j < i ==> (#[trigger] rows@[j]).width() == width,
            decreases n - i,
        {
            if rows[i].cells.len() != width {
                return None;
            }
            i += 1;
        }
        Some(Chunk { width, rows })
    }

    /// The number of rows.
    pub fn height(&self) -> (h: usize)
        ensures
            h == self@.len(),
    {
        self.rows.len()
    }

    /// The number of columns.
    pub fn width(&self) -> (w: usize)
        ensures
            w == self.width,
    {
        self.width
    }

    /// The estimated size in bytes; zero for a chunk without rows.
    pub fn estimated_size(&self) -> (bytes: usize)
        ensures
            bytes == estimated_bytes(self@.len(), self.width as nat),
    {
        let cells: Option<usize> = self.rows.len().checked_mul(self.width);
        match cells {
            None => {
                proof {
                    lemma_product_grows(self@.len() as int, self.width as int, CELL_BYTES as int);
                }
                usize::MAX
            },
            Some(c) => match c.checked_mul(CELL_BYTES) {
                None => usize::MAX,
                Some(b) => b,
            },
        }
    }

    /// The sort key of the first row, or nothing for a chunk without rows.
    pub fn first_key(&self, sort_idx: usize) -> (key: Option<Option<i64>>)
        requires
            self.wf(),
            sort_idx < self.width,
        ensures
            key == if self@.len() == 0 {
                None
            } else {
                Some(self@[0].key(sort_idx as int))
            },
    {
        if self.rows.len() == 0 {
            None
        } else {
            Some(self.rows[0].get(sort_idx))
        }
    }
}

/// The rows of all `chunks`, chunk after chunk.
pub open spec fn all_rows(chunks: Seq<Chunk>) -> Seq<Row>
    decreases chunks.len(),
{
    if chunks.len() == 0 {
        Seq::<Row>::empty()
    } else {
        all_rows(chunks.drop_last()) + chunks.last()@
    }
}

/// Whether every chunk is well formed and has `width` columns.
pub open spec fn chunks_have_width(chunks: Seq<Chunk>, width: nat) -> bool {
    forall|i: int| 0 <= i < chunks.len() ==> (#[trigger] chunks[i]).wf() && chunks[i].width == width
}

/// The chunks that hold at least one row, in their order.
pub open spec fn non_empty(chunks: Seq<Chunk>) -> Seq<Chunk> {
    chunks.filter(|c: Chunk| c@.len() > 0)
}

/// The key in column `idx` of the first row of each chunk that has one.
pub open spec fn first_keys(chunks: Seq<Chunk>, idx: int) -> Seq<Option<i64>> {
    non_empty(chunks).map_values(|c: Chunk| c@[0].key(idx))
}

/// The rows of chunks that follow one another follow one another.
pub proof fn lemma_all_rows_add(a: Seq<Chunk>, b: Seq<Chunk>)
    ensures
        all_rows(a + b) == all_rows(a) + all_rows(b),
    decreases b.len(),
{
    if b.len() == 0 {
        assert(a + b =~= a);
        assert(all_rows(a) + all_rows(b) =~= all_rows(a));
    } else {
        lemma_all_rows_add(a, b.drop_last());
        assert((a + b).drop_last() =~= a + b.drop_last());
        assert(all_rows(a + b) =~= all_rows(a) + all_rows(b));
    }
}

/// A chunk pushed behind the others adds its rows behind theirs.
pub proof fn lemma_all_rows_push(chunks: Seq<Chunk>, c: Chunk)
    ensures
        all_rows(chunks.push(c)) == all_rows(chunks) + c@,
{
    assert(chunks.push(c).drop_last() =~= chunks);
}

/// Chunks without rows add no rows.
pub proof fn lemma_all_rows_non_empty(chunks: Seq<Chunk>)
    ensures
        all_rows(non_empty(chunks)) == all_rows(chunks),
    decreases chunks.len(),
{
    reveal(Seq::filter);
    if chunks.len() > 0 {
        lemma_all_rows_non_empty(chunks.drop_last());
        let c = chunks.last();
        if c@.len() > 0 {
            lemma_all_rows_push(non_empty(chunks.drop_last()), c);
        } else {
            assert(all_rows(chunks.drop_last()) + c@ =~= all_rows(chunks.drop_last()));
        }
    }
}

/// What a chunk pushed behind the others adds to the chunks with rows.
pub proof fn lemma_non_empty_push(chunks: Seq<Chunk>, c: Chunk)
    ensures
        non_empty(chunks.push(c)) == if c@.len() > 0 {
            non_empty(chunks).push(c)
        } else {
            non_empty(chunks)
        },
{
    chunks.lemma_filter_push(c, |x: Chunk| x@.len() > 0);
}

/// What a chunk pushed behind the others adds to the first keys.
pub proof fn lemma_first_keys_push(chunks: Seq<Chunk>, c: Chunk, idx: int)
    ensures
        first_keys(chunks.push(c), idx) == if c@.len() > 0 {
            first_keys(chunks, idx).push(c@[0].key(idx))
        } else {
            first_keys(chunks, idx)
        },
{
    lemma_non_empty_push(chunks, c);
    if c@.len() > 0 {
        assert(first_keys(chunks.push(c), idx) =~= first_keys(chunks, idx).push(c@[0].key(idx)));
    }
}

/// What a filter leaves of rows of one width has that width.
pub proof fn lemma_filter_keeps_width(rows: Seq<Row>, keep: spec_fn(Row) -> bool, width: nat)
    requires
        rows_have_width(rows, width),
    ensures
        rows_have_width(rows.filter(keep), width),
    decreases rows.len(),
{
    reveal(Seq::filter);
    if rows.len() > 0 {
        lemma_filter_keeps_width(rows.drop_last(), keep, width);
    }
}

/// Stacks `chunks` into one chunk: the rows of the first, then those of the
/// second, and so on.
pub fn accumulate_vertical(chunks: VecDeque<Chunk>, width: usize) -> (df: Chunk)
    requires
        chunks_have_width(chunks@, width as nat),
    ensures
        df.wf(),
        df.width == width,
        df@ == all_rows(chunks@),
{
    let ghost start = chunks@;
    let mut chunks: VecDeque<Chunk> = chunks;
    let mut rows: Vec<Row> = Vec::new();
    proof {
        assert(start.skip(0) =~= start);
        assert(start.take(0) =~= Seq::<Chunk>::empty());
    }
    while chunks.len() > 0
        invariant
            chunks@.len() <= start.len(),
            chunks@ == start.skip(start.len() - chunks@.len()),
            rows@ == all_rows(start.take(start.len() - chunks@.len())),
            rows_have_width(rows@, width as nat),
            chunks_have_width(start, width as nat),
        decreases chunks@.len(),
    {
        let ghost done = start.len() - chunks@.len();
        let mut next: Chunk = chunks.pop_front().unwrap();
        proof {
            assert(next == start[done]);
            assert(next.wf());
            assert(start.take(done + 1) =~= start.take(done).push(next));
            assert(start.skip(done).subrange(1, start.skip(done).len() as int) =~= start.skip(done + 1));
            lemma_all_rows_push(start.take(done), next);
        }
        rows.append(&mut next.rows);
    }
    proof {
        assert(start.take(start.len() as int) =~= start);
    }
    Chunk { width, rows }
}

/// A product of naturals is no smaller than it was before a positive factor
/// joined it.
proof fn lemma_product_grows(a: int, b: int, c: int)
    requires
        0 <= a,
        0 <= b,
        1 <= c,
    ensures
        a * b * c >= a * b,
        a * b >= 0,
{
    assert(a * b >= 0) by (nonlinear_arith)
        requires
            0 <= a,
            0 <= b,
    ;
    assert(a * b * c >= a * b) by (nonlinear_arith)
        requires
            a * b >= 0,
            1 <= c,
    ;
}

} // verus!

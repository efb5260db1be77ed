//! Chunk arithmetic: how a finite byte stream is cut into fixed-size chunks
//! (the last chunk may be shorter), and the bookkeeping state that tracks a
//! stream while it is being consumed chunk by chunk.

use vstd::prelude::*;

verus! {

/// How many chunks a stream of `n` bytes yields when cut into chunks of `c`
/// bytes each, the last one possibly shorter.  Equals `n / c` rounded up.
pub open spec fn num_chunks(n: nat, c: nat) -> nat
    recommends
        c > 0,
    decreases n,
{
    if c == 0 {
        0
    } else if n == 0 {
        0
    } else if n <= c {
        1
    } else {
        1 + num_chunks((n - c) as nat, c)
    }
}

/// Chunk number `i` (0-based) of `data` when cut into chunks of `c` bytes.
pub open spec fn spec_chunk(data: Seq<u8>, c: nat, i: int) -> Seq<u8>
    recommends
        c > 0,
        0 <= i < num_chunks(data.len(), c),
{
    if i * c + c <= data.len() {
        data.subrange(i * c, i * c + c)
    } else {
        data.subrange(i * c, data.len() as int)
    }
}

/// The sizes of the successive chunks of an `n`-byte stream with chunk size `c`.
pub open spec fn chunk_sizes(n: nat, c: nat) -> Seq<nat>
    recommends
        c > 0,
    decreases n,
{
    if c == 0 {
        Seq::empty()
    } else if n == 0 {
        Seq::empty()
    } else if n <= c {
        seq![n]
    } else {
        seq![c] + chunk_sizes((n - c) as nat, c)
    }
}

pub open spec fn sum_sizes(s: Seq<nat>) -> nat
    decreases s.len(),
{
    if s.len() == 0 {
        0
    } else {
        s.first() + sum_sizes(s.drop_first())
    }
}

/// `num_chunks` is the division of `n` by `c`, rounded up.
pub proof fn lemma_num_chunks_is_div_ceil(n: nat, c: nat)
    requires
        c > 0,
    ensures
        num_chunks(n, c) == (n + c - 1) / (c as int),
    decreases n,
{
    if n == 0 {
        assert((n + c - 1) / (c as int) == 0) by (nonlinear_arith)
            requires c > 0 && n == 0;
    } else if n <= c {
        assert((n + c - 1) / (c as int) == 1) by (nonlinear_arith)
            requires 0 < n <= c;
    } else {
        lemma_num_chunks_is_div_ceil((n - c) as nat, c);
        assert((n + c - 1) / (c as int) == 1 + ((n - c) + c - 1) / (c as int)) by (nonlinear_arith)
            requires c > 0 && n > c;
    }
}

/// The chunks cover all `n` bytes, all chunks but the last are full, and
/// there are never more chunks than bytes.
pub proof fn lemma_num_chunks_bounds(n: nat, c: nat)
    requires
        c > 0,
    ensures
        num_chunks(n, c) * c >= n,
        n > 0 ==> (num_chunks(n, c) - 1) * c < n,
        num_chunks(n, c) <= n,
        n > 0 ==> num_chunks(n, c) >= 1,
    decreases n,
{
    if n == 0 {
        assert(num_chunks(n, c) == 0);
        assert(num_chunks(n, c) * c >= n) by (nonlinear_arith)
            requires
                num_chunks(n, c) == 0,
                n == 0,
        ;
    } else if n <= c {
        assert(num_chunks(n, c) == 1);
        assert(num_chunks(n, c) * c >= n) by (nonlinear_arith)
            requires
                num_chunks(n, c) == 1,
                n <= c,
        ;
        assert((num_chunks(n, c) - 1) * c < n) by (nonlinear_arith)
            requires
                num_chunks(n, c) == 1,
                n > 0,
        ;
    } else {
        let m = num_chunks((n - c) as nat, c);
        lemma_num_chunks_bounds((n - c) as nat, c);
        assert(num_chunks(n, c) == 1 + m);
        assert(num_chunks(n, c) * c >= n) by (nonlinear_arith)
            requires
                num_chunks(n, c) == 1 + m,
                m * c >= n - c,
                c > 0,
                n > c,
        ;
        assert((num_chunks(n, c) - 1) * c < n) by (nonlinear_arith)
            requires
                num_chunks(n, c) == 1 + m,
                (m - 1) * c < n - c,
                c > 0,
                n > c,
        ;
    }
}

/// A count of chunks that covers the stream and does not exceed the chunk
/// count is exactly the chunk count.
pub proof fn lemma_num_chunks_from_cover(n: nat, c: nat, k: nat)
    requires
        c > 0,
        k * c >= n,
        k <= num_chunks(n, c),
    ensures
        k == num_chunks(n, c),
{
    lemma_num_chunks_bounds(n, c);
    if k < num_chunks(n, c) {
        assert(n > 0);
        assert(k * c <= (num_chunks(n, c) - 1) * c) by (nonlinear_arith)
            requires k <= num_chunks(n, c) - 1 && c > 0;
    }
}

/// Every byte of the stream is consumed: the chunk sizes sum to the whole
/// declared length, in exactly `num_chunks` reads.
pub proof fn lemma_chunk_sizes_cover(n: nat, c: nat)
    requires
        c > 0,
    ensures
        sum_sizes(chunk_sizes(n, c)) == n,
        chunk_sizes(n, c).len() == num_chunks(n, c),
    decreases n,
{
    if n == 0 {
    } else if n <= c {
        assert(chunk_sizes(n, c).first() == n);
        assert(chunk_sizes(n, c).drop_first() =~= Seq::<nat>::empty());
        assert(sum_sizes(Seq::<nat>::empty()) == 0);
    } else {
        lemma_chunk_sizes_cover((n - c) as nat, c);
        assert(chunk_sizes(n, c).first() == c);
        assert(chunk_sizes(n, c).drop_first() =~= chunk_sizes((n - c) as nat, c));
    }
}

/// Chunk-boundary fidelity: cutting `n` bytes at chunk size `c` yields
/// exactly `n / c` rounded-up chunks; every chunk but the last is exactly
/// `c` bytes, and the last is `n mod c` bytes — or a full `c` when `c`
/// divides `n`.
pub proof fn lemma_chunk_boundary_fidelity(data: Seq<u8>, c: nat)
    requires
        c >= 1,
        data.len() > 0,
    ensures
        num_chunks(data.len(), c) == (data.len() + c - 1) / (c as int),
        forall|i: int|
            0 <= i < num_chunks(data.len(), c) - 1 ==> #[trigger] spec_chunk(data, c, i).len()
                == c,
        spec_chunk(data, c, num_chunks(data.len(), c) - 1).len() == (if data.len() % c == 0 {
            c as int
        } else {
            (data.len() % c) as int
        }),
{
    let n = data.len();
    let m = num_chunks(n, c);
    lemma_num_chunks_is_div_ceil(n, c);
    lemma_num_chunks_bounds(n, c);
    assert forall|i: int| 0 <= i < m - 1 implies #[trigger] spec_chunk(data, c, i).len() == c by {
        assert((i + 1) * c <= (m - 1) * c) by (nonlinear_arith)
            requires
                i + 1 <= m - 1,
                c >= 1,
        ;
        assert(i * c + c == (i + 1) * c) by (nonlinear_arith);
        assert(i * c >= 0) by (nonlinear_arith)
            requires
                i >= 0,
                c >= 1,
        ;
    }
    let last = m - 1;
    assert(last * c < n);
    assert(last * c + c == m * c) by (nonlinear_arith)
        requires
            last == m - 1,
    ;
    assert(last * c >= 0) by (nonlinear_arith)
        requires
            last >= 0,
            c >= 1,
    ;
    if m * c <= n {
        assert(m * c == n);
        assert(n % c == 0) by (nonlinear_arith)
            requires
                n == m * c,
                c >= 1,
                m >= 0,
        ;
        assert(spec_chunk(data, c, last).len() == c);
    } else {
        let r = n - last * c;
        assert(0 < r < c);
        assert(n % c == r) by (nonlinear_arith)
            requires
                n == last * c + r,
                0 <= r < c,
                c >= 1,
                last >= 0,
        ;
        assert(spec_chunk(data, c, last).len() == r);
    }
}

/// Tracks a finite byte source that is consumed in chunks: each step hands
/// out exactly `min(remaining, chunk_size)` bytes until nothing remains.
pub struct ChunkStream {
    pub remaining: u64,
    pub chunk_size: u64,
    pub total: u64,
}

impl ChunkStream {
    /// A positive chunk size, and no more bytes left than the stream started with.
    pub open spec fn wf(&self) -> bool {
        &&& self.chunk_size >= 1
        &&& self.remaining <= self.total
    }

    /// Bytes handed out so far.
    pub open spec fn consumed(&self) -> int {
        self.total - self.remaining
    }

    /// The size of the next chunk to be read: `min(remaining, chunk_size)`.
    pub open spec fn spec_next_len(&self) -> u64 {
        if self.remaining <= self.chunk_size {
            self.remaining
        } else {
            self.chunk_size
        }
    }

    pub fn new(total_size: u64, chunk_size: u64) -> (s: Self)
        requires
            chunk_size >= 1,
        ensures
            s.wf(),
            s.remaining == total_size,
            s.total == total_size,
            s.chunk_size == chunk_size,
    {
        ChunkStream { remaining: total_size, chunk_size, total: total_size }
    }

    /// True exactly when every byte has been handed out.
    pub fn exhausted(&self) -> (r: bool)
        ensures
            r == (self.remaining == 0),
    {
        self.remaining == 0
    }

    /// How many bytes the next read must fetch.
    pub fn next_chunk_len(&self) -> (len: u64)
        ensures
            len == self.spec_next_len(),
    {
        if self.remaining <= self.chunk_size {
            self.remaining
        } else {
            self.chunk_size
        }
    }

    /// Account for one read: exactly `min(remaining, chunk_size)` bytes
    /// leave the stream, and nothing else changes.
    pub fn advance(&mut self) -> (len: u64)
        requires
            old(self).wf(),
        ensures
            final(self).wf(),
            len == old(self).spec_next_len(),
            final(self).remaining == old(self).remaining - len,
            final(self).chunk_size == old(self).chunk_size,
            final(self).total == old(self).total,
            final(self).consumed() == old(self).consumed() + len,
    {
        let len = self.next_chunk_len();
        self.remaining = self.remaining - len;
        len
    }

    /// Download exactness: once the stream is exhausted, the bytes handed
    /// out total exactly the declared length it started with.
    pub proof fn lemma_download_exactness(&self)
        requires
            self.wf(),
            self.remaining == 0,
        ensures
            self.consumed() == self.total,
    {
    }

    pub fn get_chunk_size(&self) -> (r: u64)
        ensures
            r == self.chunk_size,
    {
        self.chunk_size
    }

    pub fn get_file_size(&self) -> (r: u64)
        ensures
            r == self.remaining,
    {
        self.remaining
    }

    pub fn get_original_file_size(&self) -> (r: u64)
        ensures
            r == self.total,
    {
        self.total
    }
}

} // verus!

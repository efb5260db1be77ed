//! The chunked transform pipeline over byte streams: sealing a stream chunk
//! by chunk into ciphertext-plus-tag pieces, opening such a stream back,
//! and the chunk-arithmetic checks on declared lengths.

use vstd::prelude::*;
use crate::chunk::{
    lemma_chunk_boundary_fidelity, lemma_num_chunks_bounds, lemma_num_chunks_from_cover,
    num_chunks, spec_chunk,
};
use crate::crypto::{ChunkCodec, aead_seal, aead_open, TAG_LEN, MAX_PLAINTEXT_LEN};
use crate::errors::{ConfigError, CryptoError};

verus! {

/// The views of a sequence of byte vectors.
pub open spec fn views_of(s: Seq<Vec<u8>>) -> Seq<Seq<u8>> {
    s.map_values(|v: Vec<u8>| v@)
}

/// The concatenation of a sequence of byte chunks, in order.
pub open spec fn concat_chunks(s: Seq<Seq<u8>>) -> Seq<u8>
    decreases s.len(),
{
    if s.len() == 0 {
        Seq::empty()
    } else {
        s.first() + concat_chunks(s.drop_first())
    }
}

pub proof fn lemma_concat_chunks_push(s: Seq<Seq<u8>>, x: Seq<u8>)
    ensures
        concat_chunks(s.push(x)) == concat_chunks(s) + x,
    decreases s.len(),
{
    if s.len() == 0 {
        assert(s.push(x).drop_first() =~= Seq::<Seq<u8>>::empty());
        assert(s.push(x).first() == x);
        assert(concat_chunks(Seq::<Seq<u8>>::empty()) == Seq::<u8>::empty());
        assert(s =~= Seq::<Seq<u8>>::empty());
        assert(x + Seq::<u8>::empty() =~= x);
        assert(Seq::<u8>::empty() + x =~= x);
    } else {
        assert(s.push(x).drop_first() =~= s.drop_first().push(x));
        lemma_concat_chunks_push(s.drop_first(), x);
        assert(s.push(x).first() == s.first());
        assert(s.first() + (concat_chunks(s.drop_first()) + x) =~= (s.first() + concat_chunks(
            s.drop_first(),
        )) + x);
    }
}

/// Chunkwise invertibility: `ct` is a stream of sealed chunks that open, in
/// order, to exactly the chunks of `pt` cut at size `c`.
pub open spec fn opens_chunkwise(
    key: Seq<u8>,
    nonce: Seq<u8>,
    aad: Seq<u8>,
    ct: Seq<u8>,
    pt: Seq<u8>,
    c: nat,
) -> bool
    decreases pt.len(),
{
    if c == 0 {
        false
    } else if pt.len() == 0 {
        ct.len() == 0
    } else {
        let k: int = if pt.len() <= c {
            pt.len() as int
        } else {
            c as int
        };
        &&& ct.len() >= k + TAG_LEN
        &&& aead_open(key, nonce, aad, ct.take(k + TAG_LEN)) == Some(pt.take(k))
        &&& opens_chunkwise(key, nonce, aad, ct.skip(k + TAG_LEN), pt.skip(k), c)
    }
}

/// What opening a stream of sealed chunks yields: the stream is cut into
/// pieces of `cw` bytes (the last may be shorter), each piece is opened,
/// and the plaintexts are concatenated; nothing, if any piece fails.
pub open spec fn open_stream(
    key: Seq<u8>,
    nonce: Seq<u8>,
    aad: Seq<u8>,
    ct: Seq<u8>,
    cw: nat,
) -> Option<Seq<u8>>
    decreases ct.len(),
{
    if cw == 0 {
        None
    } else if ct.len() == 0 {
        Some(Seq::empty())
    } else {
        let k: int = if ct.len() <= cw {
            ct.len() as int
        } else {
            cw as int
        };
        match aead_open(key, nonce, aad, ct.take(k)) {
            None => None,
            Some(p) => match open_stream(key, nonce, aad, ct.skip(k), cw) {
                None => None,
                Some(rest) => Some(p + rest),
            },
        }
    }
}

/// Appending one sealed chunk to a chunkwise-invertible stream keeps it
/// chunkwise-invertible, when every chunk so far was full.
pub proof fn lemma_opens_chunkwise_append(
    key: Seq<u8>,
    nonce: Seq<u8>,
    aad: Seq<u8>,
    ct: Seq<u8>,
    pt: Seq<u8>,
    ctc: Seq<u8>,
    ptc: Seq<u8>,
    c: nat,
)
    requires
        c >= 1,
        pt.len() % c == 0,
        opens_chunkwise(key, nonce, aad, ct, pt, c),
        1 <= ptc.len() <= c,
        ctc.len() == ptc.len() + TAG_LEN,
        aead_open(key, nonce, aad, ctc) == Some(ptc),
    ensures
        opens_chunkwise(key, nonce, aad, ct + ctc, pt + ptc, c),
    decreases pt.len(),
{
    if pt.len() == 0 {
        assert(ct.len() == 0);
        assert(ct + ctc =~= ctc);
        assert(pt + ptc =~= ptc);
        let k: int = ptc.len() as int;
        assert(ctc.take(k + TAG_LEN) =~= ctc);
        assert(ptc.take(k) =~= ptc);
        assert(ctc.skip(k + TAG_LEN).len() == 0);
        assert(ptc.skip(k).len() == 0);
        assert(opens_chunkwise(key, nonce, aad, ctc.skip(k + TAG_LEN), ptc.skip(k), c));
        assert(opens_chunkwise(key, nonce, aad, ctc, ptc, c));
    } else {
        assert(pt.len() >= c) by (nonlinear_arith)
            requires
                pt.len() % c == 0,
                pt.len() > 0,
                c >= 1,
        ;
        assert((pt.len() - c) % (c as int) == 0) by (nonlinear_arith)
            requires
                pt.len() % c == 0,
                pt.len() >= c,
                c >= 1,
        ;
        lemma_opens_chunkwise_append(
            key,
            nonce,
            aad,
            ct.skip(c as int + TAG_LEN),
            pt.skip(c as int),
            ctc,
            ptc,
            c,
        );
        assert((ct + ctc).take(c as int + TAG_LEN) =~= ct.take(c as int + TAG_LEN));
        assert((pt + ptc).take(c as int) =~= pt.take(c as int));
        assert((ct + ctc).skip(c as int + TAG_LEN) =~= ct.skip(c as int + TAG_LEN) + ctc);
        assert((pt + ptc).skip(c as int) =~= pt.skip(c as int) + ptc);
        assert((pt + ptc).len() > c);
        assert(opens_chunkwise(key, nonce, aad, ct + ctc, pt + ptc, c));
    }
}

/// A chunkwise-invertible stream opens, at the matching piece size, to the
/// plaintext it was sealed from.
pub proof fn lemma_opens_chunkwise_open_stream(
    key: Seq<u8>,
    nonce: Seq<u8>,
    aad: Seq<u8>,
    ct: Seq<u8>,
    pt: Seq<u8>,
    c: nat,
)
    requires
        c >= 1,
        opens_chunkwise(key, nonce, aad, ct, pt, c),
    ensures
        open_stream(key, nonce, aad, ct, (c + TAG_LEN) as nat) == Some(pt),
    decreases pt.len(),
{
    let cw = (c + TAG_LEN) as nat;
    if pt.len() == 0 {
        assert(ct.len() == 0);
        assert(pt =~= Seq::<u8>::empty());
    } else {
        let k: int = if pt.len() <= c {
            pt.len() as int
        } else {
            c as int
        };
        assert(opens_chunkwise(key, nonce, aad, ct.skip(k + TAG_LEN), pt.skip(k), c));
        lemma_opens_chunkwise_open_stream(
            key,
            nonce,
            aad,
            ct.skip(k + TAG_LEN),
            pt.skip(k),
            c,
        );
        if pt.len() <= c {
            assert(pt.skip(k).len() == 0);
            assert(ct.skip(k + TAG_LEN).len() == 0);
            assert(ct.len() == k + TAG_LEN);
            assert(ct.take(k + TAG_LEN) =~= ct);
            assert(pt.take(k) =~= pt);
            assert(pt.skip(k) =~= Seq::<u8>::empty());
            assert(pt.take(k) + pt.skip(k) =~= pt);
        } else {
            assert(pt.skip(k).len() > 0);
            assert(ct.skip(k + TAG_LEN).len() > 0);
            assert(ct.len() > cw);
            assert(pt.take(k) + pt.skip(k) =~= pt);
        }
    }
}

/// Seals a whole byte stream into its sequence of sealed chunks, one per
/// plaintext chunk of `chunk_size` bytes (the last possibly shorter).
/// Exactly `num_chunks` chunks come out; chunk `i` is the seal of plaintext
/// chunk `i` and is one tag longer than it; and the concatenation of the
/// output opens back, chunk by chunk, to `data`.
pub fn seal_chunks(codec: &ChunkCodec, data: &[u8], chunk_size: usize) -> (r: Vec<Vec<u8>>)
    requires
        codec.wf(),
        1 <= chunk_size <= MAX_PLAINTEXT_LEN,
    ensures
        r@.len() == num_chunks(data@.len(), chunk_size as nat),
        forall|i: int|
            0 <= i < r@.len() ==> #[trigger] r@[i]@ == aead_seal(
                codec.key@,
                codec.nonce@,
                codec.aad@,
                spec_chunk(data@, chunk_size as nat, i),
            ),
        forall|i: int|
            0 <= i < r@.len() ==> #[trigger] r@[i]@.len() == spec_chunk(
                data@,
                chunk_size as nat,
                i,
            ).len() + TAG_LEN,
        forall|i: int|
            0 <= i < r@.len() - 1 ==> #[trigger] r@[i]@.len() == chunk_size + TAG_LEN,
        data@.len() > 0 ==> r@[r@.len() - 1]@.len() == TAG_LEN + (if data@.len() % (
        chunk_size as nat) == 0 {
            chunk_size as int
        } else {
            (data@.len() % (chunk_size as nat)) as int
        }),
        opens_chunkwise(
            codec.key@,
            codec.nonce@,
            codec.aad@,
            concat_chunks(views_of(r@)),
            data@,
            chunk_size as nat,
        ),
        concat_chunks(views_of(r@)).len() == data@.len() + TAG_LEN * num_chunks(
            data@.len(),
            chunk_size as nat,
        ),
{
    let ghost n = data@.len();
    let ghost c = chunk_size as nat;
    proof {
        lemma_num_chunks_bounds(n, c);
    }
    let mut out: Vec<Vec<u8>> = Vec::new();
    let mut off: usize = 0;
    while off < data.len()
        invariant
            codec.wf(),
            1 <= chunk_size <= MAX_PLAINTEXT_LEN,
            n == data@.len(),
            c == chunk_size as nat,
            off <= data.len(),
            out@.len() <= num_chunks(n, c),
            off == out@.len() * c || (off == data.len() && out@.len() == num_chunks(n, c)),
            forall|i: int|
                0 <= i < out@.len() ==> #[trigger] out@[i]@ == aead_seal(
                    codec.key@,
                    codec.nonce@,
                    codec.aad@,
                    spec_chunk(data@, c, i),
                ),
            forall|i: int|
                0 <= i < out@.len() ==> #[trigger] out@[i]@.len() == spec_chunk(
                    data@,
                    c,
                    i,
                ).len() + TAG_LEN,
            opens_chunkwise(
                codec.key@,
                codec.nonce@,
                codec.aad@,
                concat_chunks(views_of(out@)),
                data@.take(off as int),
                c,
            ),
            concat_chunks(views_of(out@)).len() == off + TAG_LEN * out@.len(),
        decreases data.len() - off,
    {
        let ghost k = out@.len() as int;
        proof {
            if off != out@.len() * c {
                assert(off == data.len() && out@.len() == num_chunks(n, c));
                assert(false);
            }
        }
        let remaining = data.len() - off;
        let len = if remaining < chunk_size {
            remaining
        } else {
            chunk_size
        };
        let mut chunk: Vec<u8> = Vec::new();
        let mut t: usize = 0;
        while t < len
            invariant
                off + len <= data.len(),
                t <= len,
                chunk@ =~= data@.subrange(off as int, off as int + t as int),
            decreases len - t,
        {
            chunk.push(data[off + t]);
            proof {
                assert(chunk@ =~= data@.subrange(off as int, off as int + t as int + 1));
            }
            t = t + 1;
        }
        proof {
            assert(chunk@ =~= spec_chunk(data@, c, k));
        }
        let sealed = match codec.seal(chunk.as_slice()) {
            Ok(v) => v,
            Err(_) => {
                proof {
                    assert(false);
                }
                Vec::new()
            },
        };
        proof {
            let prev = concat_chunks(views_of(out@));
            assert((k * c) % (c as int) == 0) by (nonlinear_arith)
                requires
                    c >= 1,
                    k >= 0,
            ;
            assert(data@.take(off as int).len() % c == 0);
            lemma_opens_chunkwise_append(
                codec.key@,
                codec.nonce@,
                codec.aad@,
                prev,
                data@.take(off as int),
                sealed@,
                chunk@,
                c,
            );
            lemma_concat_chunks_push(views_of(out@), sealed@);
            assert(views_of(out@.push(sealed)) =~= views_of(out@).push(sealed@));
            assert(data@.take(off as int) + chunk@ =~= data@.take(off as int + len as int));
            // the next chunk count stays within the total
            lemma_num_chunks_bounds(n, c);
            if len == chunk_size {
                assert((k + 1) * c == k * c + c) by (nonlinear_arith);
                assert(k + 1 <= num_chunks(n, c)) by (nonlinear_arith)
                    requires
                        num_chunks(n, c) * c >= n,
                        k * c + c <= n,
                        c >= 1,
                        k >= 0,
                ;
            } else {
                assert((k + 1) * c == k * c + c) by (nonlinear_arith);
                assert(k + 1 <= num_chunks(n, c)) by (nonlinear_arith)
                    requires
                        num_chunks(n, c) * c >= n,
                        k * c < n,
                        c >= 1,
                        k >= 0,
                ;
                lemma_num_chunks_from_cover(n, c, (k + 1) as nat);
            }
        }
        out.push(sealed);
        off = off + len;
    }
    proof {
        assert(data@.take(off as int) =~= data@);
        if off == out@.len() * c {
            lemma_num_chunks_from_cover(n, c, out@.len() as nat);
        }
        if n > 0 {
            lemma_chunk_boundary_fidelity(data@, c);
        }
    }
    out
}

/// Opens a whole stream of sealed chunks: the stream is cut into pieces of
/// `chunk_size + TAG_LEN` bytes (the last may be shorter), each piece is
/// opened, and the plaintexts are concatenated in order.  Fails with
/// `AuthenticationFailed` exactly when some piece does not verify.
pub fn open_all_chunks(codec: &ChunkCodec, data: &[u8], chunk_size: usize) -> (r: Result<
    Vec<u8>,
    CryptoError,
>)
    requires
        codec.wf(),
        1 <= chunk_size <= MAX_PLAINTEXT_LEN,
        chunk_size + TAG_LEN <= usize::MAX,
    ensures
        match r {
            Ok(pt) => open_stream(
                codec.key@,
                codec.nonce@,
                codec.aad@,
                data@,
                (chunk_size + TAG_LEN) as nat,
            ) == Some(pt@),
            Err(e) => {
                &&& e == CryptoError::AuthenticationFailed
                &&& open_stream(
                    codec.key@,
                    codec.nonce@,
                    codec.aad@,
                    data@,
                    (chunk_size + TAG_LEN) as nat,
                ) is None
            },
        },
{
    let cw: usize = chunk_size + TAG_LEN;
    let ghost cwn = cw as nat;
    let mut out: Vec<u8> = Vec::new();
    let mut off: usize = 0;
    proof {
        assert(data@.skip(0) =~= data@);
        if let Some(rest) = open_stream(codec.key@, codec.nonce@, codec.aad@, data@, cwn) {
            assert(Seq::<u8>::empty() + rest =~= rest);
        }
    }
    while off < data.len()
        invariant
            codec.wf(),
            cw == chunk_size + TAG_LEN,
            cwn == cw as nat,
            cw >= 1,
            off <= data.len(),
            open_stream(codec.key@, codec.nonce@, codec.aad@, data@, cwn) == (
            match open_stream(codec.key@, codec.nonce@, codec.aad@, data@.skip(off as int), cwn) {
                None => None::<Seq<u8>>,
                Some(rest) => Some(out@ + rest),
            }),
        decreases data.len() - off,
    {
        let remaining = data.len() - off;
        let len = if remaining < cw {
            remaining
        } else {
            cw
        };
        let mut piece: Vec<u8> = Vec::new();
        let mut t: usize = 0;
        while t < len
            invariant
                off + len <= data.len(),
                t <= len,
                piece@ =~= data@.subrange(off as int, off as int + t as int),
            decreases len - t,
        {
            piece.push(data[off + t]);
            proof {
                assert(piece@ =~= data@.subrange(off as int, off as int + t as int + 1));
            }
            t = t + 1;
        }
        let ghost suffix = data@.skip(off as int);
        proof {
            assert(suffix.len() == remaining);
            let kk: int = if suffix.len() <= cwn {
                suffix.len() as int
            } else {
                cwn as int
            };
            assert(kk == len);
            assert(suffix.take(kk) =~= piece@);
            assert(suffix.skip(kk) =~= data@.skip(off as int + len as int));
        }
        match codec.open(piece.as_slice()) {
            Ok(mut pt) => {
                proof {
                    let os_next = open_stream(
                        codec.key@,
                        codec.nonce@,
                        codec.aad@,
                        data@.skip(off as int + len as int),
                        cwn,
                    );
                    assert(open_stream(codec.key@, codec.nonce@, codec.aad@, suffix, cwn) == (
                    match os_next {
                        None => None::<Seq<u8>>,
                        Some(rest) => Some(pt@ + rest),
                    }));
                    if let Some(rest) = os_next {
                        assert(out@ + (pt@ + rest) =~= (out@ + pt@) + rest);
                    }
                }
                out.append(&mut pt);
                off = off + len;
            },
            Err(_) => {
                return Err(CryptoError::AuthenticationFailed);
            },
        }
    }
    proof {
        assert(data@.skip(off as int) =~= Seq::<u8>::empty());
        assert(out@ + Seq::<u8>::empty() =~= out@);
    }
    Ok(out)
}

/// Seals a whole stream and concatenates the sealed chunks: the byte image
/// that the standalone encrypt path writes.  The output is the input plus
/// one tag per chunk, and opening it at the matching piece size returns the
/// input exactly.
pub fn seal_stream(codec: &ChunkCodec, data: &[u8], chunk_size: usize) -> (r: Vec<u8>)
    requires
        codec.wf(),
        1 <= chunk_size <= MAX_PLAINTEXT_LEN,
        data@.len() + TAG_LEN * num_chunks(data@.len(), chunk_size as nat) <= usize::MAX,
    ensures
        r@.len() == data@.len() + TAG_LEN * num_chunks(data@.len(), chunk_size as nat),
        opens_chunkwise(codec.key@, codec.nonce@, codec.aad@, r@, data@, chunk_size as nat),
        open_stream(
            codec.key@,
            codec.nonce@,
            codec.aad@,
            r@,
            (chunk_size + TAG_LEN) as nat,
        ) == Some(data@),
{
    let chunks = seal_chunks(codec, data, chunk_size);
    let ghost all = views_of(chunks@);
    let mut out: Vec<u8> = Vec::new();
    let mut i: usize = 0;
    while i < chunks.len()
        invariant
            all == views_of(chunks@),
            i <= chunks.len(),
            concat_chunks(all).len() <= usize::MAX,
            out@ =~= concat_chunks(all.take(i as int)),
            out@.len() <= concat_chunks(all).len(),
        decreases chunks.len() - i,
    {
        proof {
            lemma_concat_chunks_push(all.take(i as int), all[i as int]);
            assert(all.take(i as int + 1) =~= all.take(i as int).push(all[i as int]));
            lemma_concat_chunks_take_bound(all, i as int + 1);
        }
        let chunk_len = chunks[i].len();
        let mut t: usize = 0;
        while t < chunk_len
            invariant
                i < chunks.len(),
                chunk_len == chunks@[i as int]@.len(),
                t <= chunk_len,
                all == views_of(chunks@),
                out@ =~= concat_chunks(all.take(i as int)) + chunks@[i as int]@.take(t as int),
                concat_chunks(all.take(i as int + 1)).len() <= usize::MAX,
                concat_chunks(all.take(i as int + 1)) == concat_chunks(all.take(i as int))
                    + chunks@[i as int]@,
            decreases chunk_len - t,
        {
            out.push(chunks[i][t]);
            proof {
                assert(chunks@[i as int]@.take(t as int).push(chunks@[i as int]@[t as int])
                    =~= chunks@[i as int]@.take(t as int + 1));
            }
            t = t + 1;
        }
        proof {
            assert(chunks@[i as int]@.take(chunk_len as int) =~= chunks@[i as int]@);
        }
        i = i + 1;
    }
    proof {
        assert(all.take(chunks@.len() as int) =~= all);
        lemma_opens_chunkwise_open_stream(
            codec.key@,
            codec.nonce@,
            codec.aad@,
            out@,
            data@,
            chunk_size as nat,
        );
    }
    out
}

/// A prefix of a chunk sequence never concatenates to more than the whole.
proof fn lemma_concat_chunks_take_bound(s: Seq<Seq<u8>>, i: int)
    requires
        0 <= i <= s.len(),
    ensures
        concat_chunks(s.take(i)).len() <= concat_chunks(s).len(),
    decreases s.len() - i,
{
    if i == s.len() {
        assert(s.take(i) =~= s);
    } else {
        lemma_concat_chunks_push(s.take(i), s[i]);
        assert(s.take(i + 1) =~= s.take(i).push(s[i]));
        lemma_concat_chunks_take_bound(s, i + 1);
    }
}

/// Round trip over a whole stream: opening what `seal_stream` produced, at
/// the matching chunk size, returns the original bytes exactly.
pub fn seal_open_stream_round_trip(codec: &ChunkCodec, data: &[u8], chunk_size: usize) -> (r: Vec<
    u8,
>)
    requires
        codec.wf(),
        1 <= chunk_size <= MAX_PLAINTEXT_LEN,
        chunk_size + TAG_LEN <= usize::MAX,
        data@.len() + TAG_LEN * num_chunks(data@.len(), chunk_size as nat) <= usize::MAX,
    ensures
        r@ == data@,
{
    let sealed = seal_stream(codec, data, chunk_size);
    match open_all_chunks(codec, sealed.as_slice(), chunk_size) {
        Ok(pt) => pt,
        Err(_) => {
            proof {
                assert(false);
            }
            Vec::new()
        },
    }
}

/// Whether `declared_len` can be the length of a stream of sealed chunks
/// with plaintext chunk size `c`: full pieces of `c + TAG_LEN` bytes, with
/// a final piece that carries a tag and at least one plaintext byte.
pub open spec fn valid_sealed_len(declared_len: nat, c: nat) -> bool {
    ||| declared_len == 0
    ||| declared_len % ((c + TAG_LEN) as nat) == 0
    ||| declared_len % ((c + TAG_LEN) as nat) > TAG_LEN
}

/// What sealing produces, the length check accepts: a stream of `n` bytes
/// seals to exactly `n + TAG_LEN * num_chunks(n, c)` bytes, and that
/// length is always a valid declared length for chunk size `c`.
pub proof fn lemma_sealed_len_valid(n: nat, c: nat)
    requires
        c >= 1,
    ensures
        valid_sealed_len((n + TAG_LEN * num_chunks(n, c)) as nat, c),
    decreases n,
{
    let cw = (c + TAG_LEN) as int;
    if n == 0 {
    } else if n <= c {
        let l = n + TAG_LEN * num_chunks(n, c);
        assert(num_chunks(n, c) == 1);
        assert(l == n + TAG_LEN);
        if n == c {
            assert(l % cw == 0) by (nonlinear_arith)
                requires
                    l == cw,
                    cw >= 1,
            ;
        } else {
            assert(l % cw == l) by (nonlinear_arith)
                requires
                    0 <= l < cw,
            ;
        }
    } else {
        lemma_sealed_len_valid((n - c) as nat, c);
        let m = num_chunks((n - c) as nat, c);
        let lp = (n - c) + TAG_LEN * m;
        let l = n + TAG_LEN * num_chunks(n, c);
        assert(num_chunks(n, c) == 1 + m);
        assert(l == lp + cw) by (nonlinear_arith)
            requires
                l == n + TAG_LEN * (1 + m),
                lp == (n - c) + TAG_LEN * m,
                cw == c + TAG_LEN,
        ;
        assert(l % cw == lp % cw) by (nonlinear_arith)
            requires
                l == lp + cw,
                lp >= 0,
                cw >= 1,
        ;
        if lp == 0 {
            assert(l % cw == 0) by (nonlinear_arith)
                requires
                    l == cw,
                    cw >= 1,
            ;
        }
    }
}

/// Checks a remote object's declared content length against the chunk
/// arithmetic of the sealed format: accepts exactly the lengths some
/// stream of sealed chunks can have, and reports `InvalidChunkBoundary`
/// for every other length.
pub fn check_declared_length(declared_len: u64, chunk_size: usize) -> (r: Result<(), ConfigError>)
    requires
        1 <= chunk_size,
        chunk_size + TAG_LEN <= usize::MAX,
    ensures
        r is Ok <==> valid_sealed_len(declared_len as nat, chunk_size as nat),
        r is Err ==> r == Err::<(), ConfigError>(ConfigError::InvalidChunkBoundary),
{
    let cw: u64 = (chunk_size as u64) + (TAG_LEN as u64);
    let rem: u64 = declared_len % cw;
    if declared_len == 0 || rem == 0 || rem > (TAG_LEN as u64) {
        Ok(())
    } else {
        Err(ConfigError::InvalidChunkBoundary)
    }
}

} // verus!

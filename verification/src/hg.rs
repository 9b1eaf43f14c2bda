//! The `.hg` save container: a concatenation of LZ4 blocks, each preceded by
//! a 16-byte little-endian header `[magic 0xFEEDA1E5][compressed size]
//! [uncompressed size][padding]`.
use vstd::prelude::*;
use vstd::slice::slice_subrange;

verus! {

/// Largest uncompressed payload written into one block (512 KiB).
pub const MAX_UNCOMPRESSED_BLOCK_SIZE: usize = 0x80000;

/// Block magic as a number.
pub const BLOCK_MAGIC: u32 = 0xFEEDA1E5;

// ---------------------------------------------------------------------------
// LZ4 block codec (lz4_flex)
// ---------------------------------------------------------------------------

/// The bytes that `lz4_flex::block::compress` produces for `input`.
pub uninterp spec fn lz4_compressed(input: Seq<u8>) -> Seq<u8>;

/// What `lz4_flex::block::decompress(input, size)` yields: `Some(bytes)` on
/// success, `None` when it reports an error.
pub uninterp spec fn lz4_decompressed(input: Seq<u8>, size: usize) -> Option<Seq<u8>>;

/// Calls `lz4_flex::block::compress`. Trusted: the result is the crate's
/// compressed form of `input` (named `lz4_compressed`); it is at most
/// `get_maximum_output_size` (`16 + 4 + len * 110 / 100`) bytes long, since
/// the crate compresses into a buffer of that size and cuts it to what was
/// written; and decompressing it with the input's length as the size gives
/// `input` back (the block format's round trip).
#[verifier::external_body]
fn lz4_compress(input: &[u8]) -> (out: Vec<u8>)
    requires
        input@.len() <= MAX_UNCOMPRESSED_BLOCK_SIZE,
    ensures
        out@ == lz4_compressed(input@),
        out@.len() <= 20 + input@.len() * 110 / 100,
        lz4_decompressed(out@, input@.len() as usize) == Some(input@),
{
    lz4_flex::block::compress(input)
}

/// Calls `lz4_flex::block::decompress(input, size)`. With the crate's
/// default features (safe and checked decoding) every read and write is
/// bounds-checked: a malformed block, or one that needs more than `size`
/// bytes, is an error, not a panic. Trusted: it succeeds exactly when
/// `lz4_decompressed` names bytes, those are the bytes, and they are never
/// more than `size` (the output buffer is `size` bytes, cut to what was
/// written). The error text is the crate's message; nothing is stated of
/// it. The `size` bytes of the buffer are allocated up front.
#[verifier::external_body]
fn lz4_decompress(input: &[u8], size: usize) -> (out: Result<Vec<u8>, String>)
    ensures
        out is Ok <==> lz4_decompressed(input@, size) is Some,
        out matches Ok(v) ==> lz4_decompressed(input@, size) == Some(v@),
        out matches Ok(v) ==> v@.len() <= size,
{
    lz4_flex::block::decompress(input, size).map_err(|e| e.to_string())
}

// ---------------------------------------------------------------------------
// Little-endian words
// ---------------------------------------------------------------------------

/// The little-endian `u32` stored at `data[i..i + 4]`.
pub open spec fn u32le_at(data: Seq<u8>, i: int) -> int {
    data[i] as int + data[i + 1] as int * 256 + data[i + 2] as int * 65536 + data[i + 3] as int
        * 16777216
}

/// The four little-endian bytes of `n`.
pub open spec fn le_bytes(n: u32) -> Seq<u8> {
    seq![
        (n % 256) as u8,
        ((n / 256) % 256) as u8,
        ((n / 65536) % 256) as u8,
        (n / 16777216) as u8,
    ]
}

/// Reads the little-endian `u32` at the start of `b`.
pub fn u32le(b: &[u8]) -> (r: u32)
    requires
        b@.len() >= 4,
    ensures
        r as int == u32le_at(b@, 0),
{
    (b[0] as u32) + (b[1] as u32) * 256 + (b[2] as u32) * 65536 + (b[3] as u32) * 16777216
}

fn u32le_from(data: &[u8], i: usize) -> (r: u32)
    requires
        i + 4 <= data@.len(),
    ensures
        r as int == u32le_at(data@, i as int),
{
    (data[i] as u32) + (data[i + 1] as u32) * 256 + (data[i + 2] as u32) * 65536 + (data[i + 3]
        as u32) * 16777216
}

proof fn lemma_le_bytes_roundtrip(n: u32)
    ensures
        u32le_at(le_bytes(n), 0) == n as int,
{
    let b = le_bytes(n);
    assert(b[0] as int == n as int % 256);
    assert(b[1] as int == (n as int / 256) % 256);
    assert(b[2] as int == (n as int / 65536) % 256);
    assert(b[3] as int == n as int / 16777216) by (nonlinear_arith)
        requires
            n <= u32::MAX,
            b[3] as int == (n / 16777216) as u8 as int,
            (n / 16777216) < 256,
    ;
    assert(n as int % 256 + ((n as int / 256) % 256) * 256 + ((n as int / 65536) % 256) * 65536
        + (n as int / 16777216) * 16777216 == n as int) by (nonlinear_arith)
        requires
            0 <= n <= u32::MAX,
    ;
}

fn push_u32le(out: &mut Vec<u8>, n: u32)
    ensures
        final(out)@ == old(out)@ + le_bytes(n),
{
    out.push((n % 256) as u8);
    out.push(((n / 256) % 256) as u8);
    out.push(((n / 65536) % 256) as u8);
    out.push((n / 16777216) as u8);
    assert(final(out)@ =~= old(out)@ + le_bytes(n));
}

// ---------------------------------------------------------------------------
// Decoding
// ---------------------------------------------------------------------------

/// A block header's magic stands at `data[p..p + 4]`.
pub open spec fn magic_at(data: Seq<u8>, p: int) -> bool {
    &&& 0 <= p
    &&& p + 4 <= data.len()
    &&& data[p] == 0xE5u8
    &&& data[p + 1] == 0xA1u8
    &&& data[p + 2] == 0xEDu8
    &&& data[p + 3] == 0xFEu8
}

/// The first position at or after `from` where a block magic stands.
pub open spec fn next_magic(data: Seq<u8>, from: int) -> Option<int>
    decreases data.len() - from,
{
    if from < 0 || from + 4 > data.len() {
        None
    } else if magic_at(data, from) {
        Some(from)
    } else {
        next_magic(data, from + 1)
    }
}

pub proof fn lemma_next_magic(data: Seq<u8>, from: int)
    requires
        0 <= from,
    ensures
        next_magic(data, from) matches Some(q) ==> from <= q && magic_at(data, q) && forall|k: int|
            from <= k < q ==> !magic_at(data, k),
        next_magic(data, from) is None ==> forall|k: int| from <= k ==> !magic_at(data, k),
    decreases data.len() - from,
{
    if from + 4 > data.len() {
    } else if magic_at(data, from) {
    } else {
        lemma_next_magic(data, from + 1);
    }
}

/// Outcome of reading the blocks of a save container.
pub enum HgDecoded {
    /// The concatenated payload of every block read.
    Data(Seq<u8>),
    /// A block's LZ4 payload did not decompress.
    BadBlock,
    /// No block produced any byte.
    Empty,
}

pub open spec fn hg_finish(out: Seq<u8>) -> HgDecoded {
    if out.len() == 0 {
        HgDecoded::Empty
    } else {
        HgDecoded::Data(out)
    }
}

/// Reads blocks from `pos` on, having produced `out` so far. At each step
/// the next header is the first magic at or after `pos` (skipping bytes that
/// are not a header); reading stops when no full header or payload fits.
pub open spec fn hg_scan(data: Seq<u8>, pos: int, out: Seq<u8>) -> HgDecoded
    decreases data.len() - pos,
{
    if pos < 0 || pos + 16 > data.len() {
        hg_finish(out)
    } else {
        match next_magic(data, pos) {
            None => hg_finish(out),
            Some(q) => {
                if q < pos || q + 16 > data.len() {
                    hg_finish(out)
                } else {
                    let cs = u32le_at(data, q + 4);
                    let us = u32le_at(data, q + 8);
                    let body = q + 16;
                    if body + cs > data.len() {
                        hg_finish(out)
                    } else {
                        match lz4_decompressed(data.subrange(body, body + cs), us as usize) {
                            None => HgDecoded::BadBlock,
                            Some(b) => hg_scan(data, body + cs, out + b),
                        }
                    }
                }
            },
        }
    }
}

/// What a whole save container decodes to.
pub open spec fn hg_decode(data: Seq<u8>) -> HgDecoded {
    hg_scan(data, 0, Seq::empty())
}

/// The message given when a container yields no data.
pub open spec fn msg_not_a_save() -> Seq<char> {
    "failed to decompress \u{2014} not a valid save file?"@
}

/// The error message prefix of a block that fails to decompress.
pub open spec fn msg_lz4_prefix() -> Seq<char> {
    "lz4 block: "@
}

/// Decompresses a save container. `Ok` holds the payload of every block in
/// order; an undecodable block is an error starting with `"lz4 block: "`, and
/// a container without any payload is the "not a valid save file" error.
pub fn decompress_hg(data: &[u8]) -> (r: Result<Vec<u8>, String>)
    ensures
        match hg_decode(data@) {
            HgDecoded::Data(bytes) => r matches Ok(v) && v@ == bytes,
            HgDecoded::Empty => r matches Err(e) && e@ == msg_not_a_save(),
            HgDecoded::BadBlock => r matches Err(e) && e@.len() >= msg_lz4_prefix().len()
                && e@.subrange(0, msg_lz4_prefix().len() as int) == msg_lz4_prefix(),
        },
{
    let mut out: Vec<u8> = Vec::new();
    let mut pos: usize = 0;
    let len = data.len();
    while pos <= len && len - pos >= 16
        invariant
            len == data@.len(),
            pos <= len,
            hg_scan(data@, pos as int, out@) == hg_decode(data@),
        ensures
            hg_decode(data@) == hg_finish(out@),
        decreases len - pos,
    {
        proof {
            lemma_next_magic(data@, pos as int);
        }
        // find the next header at or after `pos`
        let mut q: usize = pos;
        let mut found = false;
        while q <= len && len - q >= 4 && !found
            invariant
                len == data@.len(),
                pos <= q <= len,
                pos + 16 <= len,
                found ==> q + 4 <= len && magic_at(data@, q as int),
                forall|k: int| pos <= k < q ==> !magic_at(data@, k),
            decreases len - q + (if found { 0int } else { 1int }),
        {
            if data[q] == 0xE5u8 && data[q + 1] == 0xA1u8 && data[q + 2] == 0xEDu8 && data[q + 3]
                == 0xFEu8 {
                found = true;
            } else {
                q = q + 1;
            }
        }
        if !found {
            assert(next_magic(data@, pos as int) is None) by {
                if next_magic(data@, pos as int) is Some {
                    let w = next_magic(data@, pos as int)->0;
                    assert(magic_at(data@, w));
                }
            }
            break;
        }
        assert(next_magic(data@, pos as int) == Some(q as int)) by {
            if next_magic(data@, pos as int) is None {
                assert(!magic_at(data@, q as int));
            } else {
                let w = next_magic(data@, pos as int)->0;
                if w < q {
                    assert(!magic_at(data@, w));
                }
                if w > q {
                    assert(!magic_at(data@, q as int));
                }
            }
        }
        if len - q < 16 {
            break;
        }
        let compressed_size = u32le_from(data, q + 4) as usize;
        let uncompressed_size = u32le_from(data, q + 8) as usize;
        let body = q + 16;
        if compressed_size > len - body {
            break;
        }
        let chunk = slice_subrange(data, body, body + compressed_size);
        match lz4_decompress(chunk, uncompressed_size) {
            Err(e) => {
                let mut msg = "lz4 block: ".to_owned();
                msg.append(e.as_str());
                return Err(msg);
            },
            Ok(block) => {
                let ghost before = out@;
                out.extend_from_slice(block.as_slice());
                assert(out@ =~= before + block@);
                pos = body + compressed_size;
            },
        }
    }
    if out.len() == 0 {
        return Err("failed to decompress \u{2014} not a valid save file?".to_owned());
    }
    Ok(out)
}


// ---------------------------------------------------------------------------
// Encoding
// ---------------------------------------------------------------------------

/// The 16-byte header of a block holding `cs` compressed and `us`
/// uncompressed bytes.
pub open spec fn block_header(cs: u32, us: u32) -> Seq<u8> {
    le_bytes(BLOCK_MAGIC) + le_bytes(cs) + le_bytes(us) + le_bytes(0)
}

/// Length of the chunk that starts at `off` when `len` bytes are cut into
/// blocks of at most `MAX_UNCOMPRESSED_BLOCK_SIZE`.
pub open spec fn chunk_len(len: int, off: int) -> int {
    if len - off < MAX_UNCOMPRESSED_BLOCK_SIZE as int {
        len - off
    } else {
        MAX_UNCOMPRESSED_BLOCK_SIZE as int
    }
}

/// The container bytes for `bytes[off..]`: each chunk of at most 512 KiB is
/// compressed and written behind its header.
pub open spec fn hg_encode_from(bytes: Seq<u8>, off: int) -> Seq<u8>
    decreases bytes.len() - off,
{
    if off < 0 || off >= bytes.len() {
        Seq::empty()
    } else {
        let n = chunk_len(bytes.len() as int, off);
        let chunk = bytes.subrange(off, off + n);
        let c = lz4_compressed(chunk);
        block_header(c.len() as u32, n as u32) + c + hg_encode_from(bytes, off + n)
    }
}

/// The number of blocks `len` bytes are cut into.
pub open spec fn block_count(len: nat) -> nat {
    ((len + MAX_UNCOMPRESSED_BLOCK_SIZE - 1) / (MAX_UNCOMPRESSED_BLOCK_SIZE as int)) as nat
}

proof fn lemma_magic_bytes()
    ensures
        le_bytes(BLOCK_MAGIC) == seq![0xE5u8, 0xA1u8, 0xEDu8, 0xFEu8],
{
    assert(le_bytes(BLOCK_MAGIC) =~= seq![0xE5u8, 0xA1u8, 0xEDu8, 0xFEu8]);
}

/// Reading one well-formed block at `p` appends its chunk and moves past it.
proof fn lemma_scan_block(data: Seq<u8>, p: int, out: Seq<u8>, c: Seq<u8>, chunk: Seq<u8>)
    requires
        0 <= p,
        p + 16 + c.len() <= data.len(),
        c.len() <= u32::MAX,
        chunk.len() <= u32::MAX,
        data.subrange(p, p + 16) == block_header(c.len() as u32, chunk.len() as u32),
        data.subrange(p + 16, p + 16 + c.len()) == c,
        lz4_decompressed(c, chunk.len() as usize) == Some(chunk),
    ensures
        hg_scan(data, p, out) == hg_scan(data, p + 16 + c.len(), out + chunk),
{
    let h = block_header(c.len() as u32, chunk.len() as u32);
    lemma_magic_bytes();
    assert(h[0] == data[p] && h[1] == data[p + 1] && h[2] == data[p + 2] && h[3] == data[p + 3]);
    assert(magic_at(data, p));
    assert(next_magic(data, p) == Some(p));
    lemma_le_bytes_roundtrip(c.len() as u32);
    lemma_le_bytes_roundtrip(chunk.len() as u32);
    let w1 = le_bytes(c.len() as u32);
    let w2 = le_bytes(chunk.len() as u32);
    assert(data[p + 4] == w1[0] && data[p + 5] == w1[1] && data[p + 6] == w1[2] && data[p + 7]
        == w1[3]) by {
        assert(h[4] == data[p + 4] && h[5] == data[p + 5] && h[6] == data[p + 6] && h[7] == data[p + 7]);
    }
    assert(data[p + 8] == w2[0] && data[p + 9] == w2[1] && data[p + 10] == w2[2] && data[p + 11]
        == w2[3]) by {
        assert(h[8] == data[p + 8] && h[9] == data[p + 9] && h[10] == data[p + 10] && h[11] == data[p + 11]);
    }
    assert(u32le_at(data, p + 4) == c.len());
    assert(u32le_at(data, p + 8) == chunk.len());
}

/// Every scan of `out + suffix` from the start reaches the end of `out`
/// having produced `payload`.
pub open spec fn scans_to(out: Seq<u8>, payload: Seq<u8>) -> bool {
    forall|suffix: Seq<u8>| #[trigger] hg_scan(out + suffix, 0, Seq::empty()) == hg_scan(
        out + suffix,
        out.len() as int,
        payload,
    )
}

proof fn lemma_append_block(out: Seq<u8>, payload: Seq<u8>, c: Seq<u8>, chunk: Seq<u8>)
    requires
        scans_to(out, payload),
        c.len() <= u32::MAX,
        chunk.len() <= u32::MAX,
        lz4_decompressed(c, chunk.len() as usize) == Some(chunk),
    ensures
        scans_to(out + (block_header(c.len() as u32, chunk.len() as u32) + c), payload + chunk),
{
    let block = block_header(c.len() as u32, chunk.len() as u32) + c;
    let out2 = out + block;
    assert forall|suffix: Seq<u8>| #[trigger] hg_scan(out2 + suffix, 0, Seq::empty()) == hg_scan(
        out2 + suffix,
        out2.len() as int,
        payload + chunk,
    ) by {
        let data = out2 + suffix;
        assert(data =~= out + (block + suffix));
        assert(hg_scan(out + (block + suffix), 0, Seq::empty()) == hg_scan(
            out + (block + suffix),
            out.len() as int,
            payload,
        ));
        let p = out.len() as int;
        assert(data.subrange(p, p + 16) =~= block_header(c.len() as u32, chunk.len() as u32));
        assert(data.subrange(p + 16, p + 16 + c.len()) =~= c);
        lemma_scan_block(data, p, payload, c, chunk);
    }
}

proof fn lemma_block_count(b: int, len: int)
    requires
        0 <= b,
        b * (MAX_UNCOMPRESSED_BLOCK_SIZE as int) < len <= (b + 1) * (MAX_UNCOMPRESSED_BLOCK_SIZE as int),
    ensures
        block_count(len as nat) == b + 1,
{
    let m = MAX_UNCOMPRESSED_BLOCK_SIZE as int;
    assert((len + m - 1) / m == b + 1) by (nonlinear_arith)
        requires
            m == 0x80000,
            b * m < len <= (b + 1) * m,
            0 <= b,
    ;
}

/// Compresses a payload into a save container and returns it with its block
/// count. The container is `hg_encode_from(bytes, 0)`, it has one block per
/// started 512 KiB, and reading it back gives exactly the payload
/// (or the "no data" outcome for an empty payload).
pub fn compress_blocks(json_bytes: &[u8]) -> (r: (Vec<u8>, usize))
    ensures
        r.0@ == hg_encode_from(json_bytes@, 0),
        r.1 as nat == block_count(json_bytes@.len()),
        hg_decode(r.0@) == hg_finish(json_bytes@),
{
    let mut out: Vec<u8> = Vec::new();
    let mut offset: usize = 0;
    let mut blocks: usize = 0;
    let len = json_bytes.len();
    let ghost bytes = json_bytes@;
    proof {
        assert forall|suffix: Seq<u8>| #[trigger] hg_scan(out@ + suffix, 0, Seq::empty()) == hg_scan(
            out@ + suffix,
            out@.len() as int,
            bytes.subrange(0, 0),
        ) by {
            assert(bytes.subrange(0, 0) =~= Seq::<u8>::empty());
        }
        assert(out@ + hg_encode_from(bytes, 0) =~= hg_encode_from(bytes, 0));
    }
    while offset < len
        invariant
            len == bytes.len(),
            bytes == json_bytes@,
            offset <= len,
            offset < len ==> offset as int == blocks as int * (MAX_UNCOMPRESSED_BLOCK_SIZE as int),
            offset == len ==> blocks as nat == block_count(len as nat),
            blocks <= offset,
            out@ + hg_encode_from(bytes, offset as int) == hg_encode_from(bytes, 0),
            scans_to(out@, bytes.subrange(0, offset as int)),
        decreases len - offset,
    {
        let end = if len - offset < MAX_UNCOMPRESSED_BLOCK_SIZE {
            len
        } else {
            offset + MAX_UNCOMPRESSED_BLOCK_SIZE
        };
        let chunk = slice_subrange(json_bytes, offset, end);
        let compressed = lz4_compress(chunk);
        let cs = compressed.len() as u32;
        let us = chunk.len() as u32;
        let ghost old_out = out@;
        let ghost block = block_header(cs, us) + compressed@;
        push_u32le(&mut out, BLOCK_MAGIC);
        push_u32le(&mut out, cs);
        push_u32le(&mut out, us);
        push_u32le(&mut out, 0);
        out.extend_from_slice(compressed.as_slice());
        assert(out@ =~= old_out + block);
        proof {
            assert(hg_encode_from(bytes, offset as int) =~= block + hg_encode_from(bytes, end as int));
            assert(out@ + hg_encode_from(bytes, end as int) =~= old_out + hg_encode_from(bytes, offset as int));
            lemma_append_block(old_out, bytes.subrange(0, offset as int), compressed@, chunk@);
            assert(bytes.subrange(0, offset as int) + chunk@ =~= bytes.subrange(0, end as int));
            if end == len {
                lemma_block_count(blocks as int, len as int);
            }
        }
        offset = end;
        blocks = blocks + 1;
    }
    proof {
        if len == 0 {
            assert(block_count(0) == 0);
        }
        assert(out@ + Seq::<u8>::empty() =~= out@);
        assert(bytes.subrange(0, len as int) =~= bytes);
        assert(hg_scan(out@ + Seq::<u8>::empty(), 0, Seq::empty()) == hg_scan(out@ + Seq::<u8>::empty(), out@.len() as int, bytes));
        assert(hg_scan(out@, out@.len() as int, bytes) == hg_finish(bytes));
    }
    (out, blocks)
}

} // verus!

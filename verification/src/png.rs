//! A PNG encoder: 8-bit RGBA, unfiltered scanlines, stored (uncompressed)
//! DEFLATE blocks inside a zlib stream.

use vstd::prelude::*;
use crate::paint::Canvas;

verus! {

/// `u32::to_be_bytes`.
pub open spec fn be32(x: u32) -> Seq<u8> {
    seq![(x >> 24u32) as u8, (x >> 16u32) as u8, (x >> 8u32) as u8, x as u8]
}

/// `u16::to_le_bytes`.
pub open spec fn le16(x: u16) -> Seq<u8> {
    seq![x as u8, (x >> 8u16) as u8]
}

/// One bit step of the reflected CRC-32 (polynomial 0xEDB88320).
pub open spec fn crc_shift(c: u32) -> u32 {
    if c & 1 == 1 {
        (c >> 1u32) ^ 0xEDB8_8320u32
    } else {
        c >> 1u32
    }
}

pub open spec fn crc_shifts(c: u32, n: nat) -> u32
    decreases n,
{
    if n == 0 {
        c
    } else {
        crc_shift(crc_shifts(c, (n - 1) as nat))
    }
}

/// The CRC-32 register after `data`, starting from `c`.
pub open spec fn crc_update(c: u32, data: Seq<u8>) -> u32
    decreases data.len(),
{
    if data.len() == 0 {
        c
    } else {
        crc_shifts(crc_update(c, data.drop_last()) ^ (data.last() as u32), 8)
    }
}

/// CRC-32 as PNG and zlib use it.
pub open spec fn spec_crc32(data: Seq<u8>) -> u32 {
    !crc_update(0xFFFF_FFFFu32, data)
}

/// The two Adler-32 sums after `data`.
pub open spec fn adler_sums(data: Seq<u8>) -> (u32, u32)
    decreases data.len(),
{
    if data.len() == 0 {
        (1, 0)
    } else {
        let (a, b) = adler_sums(data.drop_last());
        let a2 = ((a + data.last()) % 65521) as u32;
        (a2, ((b + a2) % 65521) as u32)
    }
}

/// Adler-32 as zlib uses it.
pub open spec fn spec_adler32(data: Seq<u8>) -> u32 {
    let (a, b) = adler_sums(data);
    (b << 16u32) | a
}

/// Stored DEFLATE blocks of at most 65535 bytes each; the last one is
/// marked final. Empty data still gets one (empty, final) block.
pub open spec fn stored_blocks(data: Seq<u8>) -> Seq<u8>
    decreases data.len(),
{
    let block = if data.len() < 0xFFFF { data.len() } else { 0xFFFF };
    let last = block >= data.len();
    let head = seq![if last { 1u8 } else { 0u8 }] + le16(block as u16) + le16(!(block as u16)) + data.take(block as int);
    if last {
        head
    } else {
        head + stored_blocks(data.skip(block as int))
    }
}

/// The bytes carried by a run of stored DEFLATE blocks `z`: each block is
/// a header byte (1 for the final block, 0 for any other), a little-endian
/// length, its one's complement, and that many bytes. `None` when `z` is
/// not such a run ending with its final block.
pub open spec fn read_stored_blocks(z: Seq<u8>) -> Option<Seq<u8>>
    decreases z.len(),
{
    if z.len() < 5 || (z[0] != 0 && z[0] != 1) {
        None
    } else {
        let len = z[1] as int + 256 * z[2] as int;
        let nlen = z[3] as int + 256 * z[4] as int;
        if nlen != 65535 - len || z.len() < 5 + len {
            None
        } else {
            let payload = z.subrange(5, 5 + len);
            let rest = z.skip(5 + len);
            if z[0] == 1 {
                if rest.len() == 0 { Some(payload) } else { None }
            } else {
                match read_stored_blocks(rest) {
                    Some(p) => Some(payload + p),
                    None => None,
                }
            }
        }
    }
}

proof fn lemma_le16_value(x: u16)
    ensures
        le16(x)[0] as int + 256 * le16(x)[1] as int == x as int,
        le16(!x)[0] as int + 256 * le16(!x)[1] as int == 65535 - x as int,
{
    assert((x as u8) as int + 256 * ((x >> 8u16) as u8) as int == x as int) by (bit_vector);
    let y: u16 = !x;
    assert(y == 65535 - x) by (bit_vector)
        requires y == !x;
    assert((y as u8) as int + 256 * ((y >> 8u16) as u8) as int == y as int) by (bit_vector);
}

/// Stored blocks carry their data unchanged: reading back the blocks
/// written for `data` gives `data`.
pub proof fn lemma_stored_blocks_round_trip(data: Seq<u8>)
    ensures
        read_stored_blocks(stored_blocks(data)) == Some(data),
    decreases data.len(),
{
    let block: int = if data.len() < 0xFFFF { data.len() as int } else { 0xFFFF };
    let last = block >= data.len();
    let b: u16 = block as u16;
    assert(b as int == block);
    let head = seq![if last { 1u8 } else { 0u8 }] + le16(b) + le16(!b) + data.take(block);
    let z = stored_blocks(data);
    lemma_le16_value(b);
    assert(head.len() == 5 + block);
    assert(head[0] == (if last { 1u8 } else { 0u8 }));
    assert(head[1] == le16(b)[0] && head[2] == le16(b)[1]);
    assert(head[3] == le16(!b)[0] && head[4] == le16(!b)[1]);
    assert(head.subrange(5, 5 + block) =~= data.take(block));
    if last {
        assert(z == head);
        assert(z.skip(5 + block).len() == 0);
        assert(data.take(block) =~= data);
    } else {
        let rest = data.skip(block);
        lemma_stored_blocks_round_trip(rest);
        assert(z == head + stored_blocks(rest));
        assert(z[0] == head[0] && z[1] == head[1] && z[2] == head[2] && z[3] == head[3] && z[4] == head[4]);
        assert(z.subrange(5, 5 + block) =~= data.take(block));
        assert(z.skip(5 + block) =~= stored_blocks(rest));
        assert(data.take(block) + rest =~= data);
    }
}

/// How many stored blocks a run of blocks `z` holds, up to its final one.
pub open spec fn count_stored_blocks(z: Seq<u8>) -> nat
    decreases z.len(),
{
    if z.len() < 5 {
        0
    } else {
        let len = z[1] as int + 256 * z[2] as int;
        if z.len() < 5 + len {
            0
        } else if z[0] == 0 {
            1 + count_stored_blocks(z.skip(5 + len))
        } else {
            1
        }
    }
}

/// One block per 65535 bytes, rounded up, and one block for no bytes.
pub open spec fn stored_block_count(n: nat) -> nat {
    if n == 0 { 1 } else { ((n + 65534) / 65535) as nat }
}

proof fn lemma_block_count_step(n: int)
    requires
        n > 65535,
    ensures
        stored_block_count(n as nat) == 1 + stored_block_count((n - 65535) as nat),
{
    assert((n + 65534) / 65535 == 1 + (n - 1) / 65535) by (nonlinear_arith)
        requires n > 65535;
}

/// The blocks written for `data` number one per 65535 bytes, rounded up
/// (one for no data), and each adds five header bytes to the data.
pub proof fn lemma_stored_blocks_shape(data: Seq<u8>)
    ensures
        count_stored_blocks(stored_blocks(data)) == stored_block_count(data.len()),
        stored_blocks(data).len() == data.len() + 5 * stored_block_count(data.len()),
    decreases data.len(),
{
    let block: int = if data.len() < 0xFFFF { data.len() as int } else { 0xFFFF };
    let last = block >= data.len();
    let b: u16 = block as u16;
    assert(b as int == block);
    let head = seq![if last { 1u8 } else { 0u8 }] + le16(b) + le16(!b) + data.take(block);
    let z = stored_blocks(data);
    lemma_le16_value(b);
    assert(head.len() == 5 + block);
    assert(head[0] == (if last { 1u8 } else { 0u8 }));
    assert(head[1] == le16(b)[0] && head[2] == le16(b)[1]);
    if last {
        assert(z == head);
        if data.len() > 0 {
            assert((data.len() + 65534) / 65535 == 1) by (nonlinear_arith)
                requires 0 < data.len() <= 65535;
        }
    } else {
        let rest = data.skip(block);
        lemma_stored_blocks_shape(rest);
        assert(z == head + stored_blocks(rest));
        assert(z[0] == head[0] && z[1] == head[1] && z[2] == head[2]);
        assert(z.skip(5 + block) =~= stored_blocks(rest));
        lemma_block_count_step(data.len() as int);
    }
}

/// A zlib stream of stored blocks: the two header bytes `78 01`, the
/// blocks, and the Adler-32 of the data, so `n` bytes of data take
/// `n + 6 + 5 * stored_block_count(n)` bytes.
pub proof fn lemma_zlib_stored_shape(data: Seq<u8>)
    ensures
        spec_zlib_stored(data).len() == data.len() + 6 + 5 * stored_block_count(data.len()),
        spec_zlib_stored(data).take(2) == seq![0x78u8, 0x01u8],
        spec_zlib_stored(data).subrange(2, spec_zlib_stored(data).len() - 4) == stored_blocks(data),
        spec_zlib_stored(data).skip(spec_zlib_stored(data).len() - 4) == be32(spec_adler32(data)),
{
    lemma_stored_blocks_shape(data);
    let z = spec_zlib_stored(data);
    let blocks = stored_blocks(data);
    assert(z == seq![0x78u8, 0x01u8] + blocks + be32(spec_adler32(data)));
    assert(z.take(2) =~= seq![0x78u8, 0x01u8]);
    assert(z.subrange(2, z.len() - 4) =~= blocks);
    assert(z.skip(z.len() - 4) =~= be32(spec_adler32(data)));
}

/// A zlib stream holding `data` in stored blocks.
pub open spec fn spec_zlib_stored(data: Seq<u8>) -> Seq<u8> {
    seq![0x78u8, 0x01u8] + stored_blocks(data) + be32(spec_adler32(data))
}

/// A PNG chunk: length, type, data, CRC of type and data.
pub open spec fn spec_chunk(kind: Seq<u8>, data: Seq<u8>) -> Seq<u8> {
    be32(data.len() as u32) + kind + data + be32(spec_crc32(kind + data))
}

pub open spec fn flat_pixels(px: Seq<[u8; 4]>) -> Seq<u8>
    decreases px.len(),
{
    if px.len() == 0 {
        seq![]
    } else {
        flat_pixels(px.drop_last()) + px.last()@
    }
}

/// The first `h` scanlines, each a filter byte 0 then the row's RGBA bytes.
pub open spec fn scanlines(px: Seq<[u8; 4]>, w: int, h: int) -> Seq<u8>
    decreases h,
{
    if h <= 0 {
        seq![]
    } else {
        scanlines(px, w, h - 1) + seq![0u8] + flat_pixels(px.subrange((h - 1) * w, h * w))
    }
}

pub open spec fn png_signature() -> Seq<u8> {
    seq![137u8, 80, 78, 71, 13, 10, 26, 10]
}

pub open spec fn spec_ihdr(w: usize, h: usize) -> Seq<u8> {
    be32(w as u32) + be32(h as u32) + seq![8u8, 6, 0, 0, 0]
}

/// The PNG file for a `w` by `h` canvas.
pub open spec fn spec_png(w: usize, h: usize, px: Seq<[u8; 4]>) -> Seq<u8> {
    png_signature()
        + spec_chunk(seq![73u8, 72, 68, 82], spec_ihdr(w, h))
        + spec_chunk(seq![73u8, 68, 65, 84], spec_zlib_stored(scanlines(px, w as int, h as int)))
        + spec_chunk(seq![73u8, 69, 78, 68], seq![])
}

/// Every encoded PNG starts with the PNG signature followed by the `IHDR`
/// chunk (its type at bytes 12 to 16) and ends with an empty `IEND` chunk.
pub proof fn lemma_png_framing(w: usize, h: usize, px: Seq<[u8; 4]>)
    ensures
        spec_png(w, h, px).len() >= 45,
        spec_png(w, h, px).take(8) == png_signature(),
        spec_png(w, h, px).subrange(12, 16) == seq![73u8, 72, 68, 82],
        spec_png(w, h, px).subrange(spec_png(w, h, px).len() - 12, spec_png(w, h, px).len() as int)
            == spec_chunk(seq![73u8, 69, 78, 68], seq![]),
{
    let sig = png_signature();
    let ihdr = spec_chunk(seq![73u8, 72, 68, 82], spec_ihdr(w, h));
    let idat = spec_chunk(seq![73u8, 68, 65, 84], spec_zlib_stored(scanlines(px, w as int, h as int)));
    let iend = spec_chunk(seq![73u8, 69, 78, 68], seq![]);
    let all = spec_png(w, h, px);
    assert(all == sig + ihdr + idat + iend);
    assert(iend.len() == 12);
    assert(ihdr.len() == 25);
    assert(all.take(8) =~= sig);
    assert(all.subrange(12, 16) =~= seq![73u8, 72, 68, 82]);
    assert(all.subrange(all.len() - 12, all.len() as int) =~= iend);
}

fn push_all(out: &mut Vec<u8>, data: &[u8])
    ensures
        final(out)@ == old(out)@ + data@,
{
    let ghost start = out@;
    let mut i: usize = 0;
    while i < data.len()
        invariant
            i <= data@.len(),
            out@ == start + data@.take(i as int),
        decreases data@.len() - i,
    {
        out.push(data[i]);
        i = i + 1;
        assert(out@ =~= start + data@.take(i as int));
    }
    assert(data@.take(i as int) =~= data@);
}

fn push_be32(out: &mut Vec<u8>, x: u32)
    ensures
        final(out)@ == old(out)@ + be32(x),
{
    let ghost start = out@;
    out.push((x >> 24u32) as u8);
    out.push((x >> 16u32) as u8);
    out.push((x >> 8u32) as u8);
    out.push(x as u8);
    assert(out@ =~= start + be32(x));
}

fn push_le16(out: &mut Vec<u8>, x: u16)
    ensures
        final(out)@ == old(out)@ + le16(x),
{
    let ghost start = out@;
    out.push(x as u8);
    out.push((x >> 8u16) as u8);
    assert(out@ =~= start + le16(x));
}

/// Encodes the canvas as a PNG file.
pub fn encode(canvas: &Canvas) -> (png: Vec<u8>)
    requires
        canvas.width * canvas.height <= canvas.pixels@.len(),
    ensures
        png@ == spec_png(canvas.width, canvas.height, canvas.pixels@),
{
    let w = canvas.width;
    let h = canvas.height;
    let total = canvas.pixels.len();
    let mut raw: Vec<u8> = Vec::new();
    let mut y: usize = 0;
    let mut row_start: usize = 0;
    while y < h
        invariant
            y <= h,
            w == canvas.width,
            h == canvas.height,
            w * h <= canvas.pixels@.len(),
            total == canvas.pixels@.len(),
            row_start == y * w,
            raw@ == scanlines(canvas.pixels@, w as int, y as int),
        decreases h - y,
    {
        proof {
            assert((y + 1) * w == y * w + w) by (nonlinear_arith);
            assert((y + 1) * w <= w * h) by (nonlinear_arith)
                requires y < h;
        }
        let ghost base = raw@;
        raw.push(0u8);
        let mut x: usize = 0;
        while x < w
            invariant
                x <= w,
                w == canvas.width,
                total == canvas.pixels@.len(),
                row_start + w <= canvas.pixels@.len(),
                raw@ == base + seq![0u8] + flat_pixels(canvas.pixels@.subrange(row_start as int, row_start + x)),
            decreases w - x,
        {
            let px = canvas.pixels[row_start + x];
            let ghost before = raw@;
            push_all(&mut raw, &px);
            proof {
                let sub = canvas.pixels@.subrange(row_start as int, row_start + x + 1);
                assert(sub.drop_last() =~= canvas.pixels@.subrange(row_start as int, row_start + x));
                assert(sub.last() == px);
            }
            x = x + 1;
            assert(raw@ =~= base + seq![0u8] + flat_pixels(canvas.pixels@.subrange(row_start as int, row_start + x)));
        }
        y = y + 1;
        row_start = row_start + w;
    }
    let mut out: Vec<u8> = Vec::new();
    push_all(&mut out, &[137, 80, 78, 71, 13, 10, 26, 10]);
    let mut ihdr: Vec<u8> = Vec::new();
    push_be32(&mut ihdr, w as u32);
    push_be32(&mut ihdr, h as u32);
    ihdr.push(8);
    ihdr.push(6);
    ihdr.push(0);
    ihdr.push(0);
    ihdr.push(0);
    write_chunk(&mut out, &[73, 72, 68, 82], ihdr.as_slice());
    let idat = zlib_stored(raw.as_slice());
    write_chunk(&mut out, &[73, 68, 65, 84], idat.as_slice());
    write_chunk(&mut out, &[73, 69, 78, 68], &[]);
    proof {
        assert(ihdr@ =~= spec_ihdr(w, h));
    }
    out
}

/// A zlib stream of stored DEFLATE blocks holding `data`.
pub fn zlib_stored(data: &[u8]) -> (z: Vec<u8>)
    ensures
        z@ == spec_zlib_stored(data@),
{
    let mut z: Vec<u8> = Vec::new();
    z.push(0x78);
    z.push(0x01);
    let ghost base = z@;
    let mut i: usize = 0;
    let n = data.len();
    assert(data@.skip(0) =~= data@);
    assert(z@.subrange(base.len() as int, z@.len() as int) =~= Seq::<u8>::empty());
    assert(z@.subrange(0, base.len() as int) =~= base);
    loop
        invariant_except_break
            i <= n,
            n == data@.len(),
            i < n || n == 0,
            stored_blocks(data@) == (z@.subrange(base.len() as int, z@.len() as int)) + stored_blocks(data@.skip(i as int)),
            z@.subrange(0, base.len() as int) == base,
            base.len() <= z@.len(),
        ensures
            z@ == base + stored_blocks(data@),
        decreases n - i,
    {
        let remaining = n - i;
        let block = if remaining < 0xFFFF { remaining } else { 0xFFFF };
        let is_last = i + block >= n;
        let ghost rest = data@.skip(i as int);
        let ghost prev = z@;
        z.push(if is_last { 1 } else { 0 });
        push_le16(&mut z, block as u16);
        push_le16(&mut z, !(block as u16));
        let mut k: usize = 0;
        while k < block
            invariant
                k <= block,
                i + block <= n,
                n == data@.len(),
                z@ == prev + seq![if is_last { 1u8 } else { 0u8 }] + le16(block as u16) + le16(!(block as u16))
                    + data@.subrange(i as int, i + k),
            decreases block - k,
        {
            z.push(data[i + k]);
            k = k + 1;
            assert(z@ =~= prev + seq![if is_last { 1u8 } else { 0u8 }] + le16(block as u16) + le16(!(block as u16))
                + data@.subrange(i as int, i + k));
        }
        proof {
            assert(rest.take(block as int) =~= data@.subrange(i as int, i + block));
            assert(rest.skip(block as int) =~= data@.skip(i + block));
            assert(z@.subrange(0, base.len() as int) =~= base) by {
                assert(prev.subrange(0, base.len() as int) == base);
            }
        }
        i = i + block;
        if is_last {
            proof {
                assert(z@ =~= base + stored_blocks(data@)) by {
                    assert(prev =~= base + prev.subrange(base.len() as int, prev.len() as int));
                }
            }
            break;
        }
        proof {
            assert(z@.subrange(base.len() as int, z@.len() as int) =~= prev.subrange(base.len() as int, prev.len() as int)
                + seq![0u8] + le16(block as u16) + le16(!(block as u16)) + rest.take(block as int));
        }
    }
    let a = adler32(data);
    push_be32(&mut z, a);
    z
}

fn write_chunk(out: &mut Vec<u8>, kind: &[u8; 4], data: &[u8])
    ensures
        final(out)@ == old(out)@ + spec_chunk(kind@, data@),
{
    push_be32(out, data.len() as u32);
    push_all(out, kind);
    push_all(out, data);
    let mut crc_input: Vec<u8> = Vec::new();
    push_all(&mut crc_input, kind);
    push_all(&mut crc_input, data);
    let c = crc32(crc_input.as_slice());
    push_be32(out, c);
    assert(crc_input@ =~= kind@ + data@);
}

/// The Adler-32 checksum of `data`.
pub fn adler32(data: &[u8]) -> (r: u32)
    ensures
        r == spec_adler32(data@),
{
    let mut a: u32 = 1;
    let mut b: u32 = 0;
    let mut i: usize = 0;
    while i < data.len()
        invariant
            i <= data@.len(),
            (a, b) == adler_sums(data@.take(i as int)),
            a < 65521,
            b < 65521,
        decreases data@.len() - i,
    {
        proof {
            assert(data@.take(i + 1).drop_last() =~= data@.take(i as int));
        }
        a = (a + data[i] as u32) % 65521;
        b = (b + a) % 65521;
        i = i + 1;
    }
    assert(data@.take(i as int) =~= data@);
    (b << 16u32) | a
}

/// The CRC-32 of `data`.
pub fn crc32(data: &[u8]) -> (r: u32)
    ensures
        r == spec_crc32(data@),
{
    let mut crc: u32 = 0xFFFF_FFFF;
    let mut i: usize = 0;
    while i < data.len()
        invariant
            i <= data@.len(),
            crc == crc_update(0xFFFF_FFFFu32, data@.take(i as int)),
        decreases data@.len() - i,
    {
        proof {
            assert(data@.take(i + 1).drop_last() =~= data@.take(i as int));
        }
        let start = crc ^ (data[i] as u32);
        crc = start;
        let mut k: u32 = 0;
        while k < 8
            invariant
                k <= 8,
                crc == crc_shifts(start, k as nat),
            decreases 8 - k,
        {
            if crc & 1 == 1 {
                crc = (crc >> 1u32) ^ 0xEDB8_8320u32;
            } else {
                crc = crc >> 1u32;
            }
            k = k + 1;
        }
        i = i + 1;
    }
    assert(data@.take(i as int) =~= data@);
    !crc
}

} // verus!

//! Raster rendering: a palette-indexed canvas and a dependency-free indexed-PNG encoder (stored
//! deflate blocks, an Adler-32 trailer, CRC-32 chunk checksums).

use vstd::prelude::*;

verus! {

/// A palette-indexed canvas, `w` by `h`, row-major.
pub struct Canvas {
    /// Width in pixels.
    pub w: usize,
    /// Height in pixels.
    pub h: usize,
    /// Palette indices, row-major.
    pub px: Vec<u8>,
}

/// Palette-indexed colour: `Rgb` is the palette slot.
#[derive(Clone, Copy, Debug, PartialEq, Eq, Structural)]
pub struct Rgb(pub u8);

/// The shared 32-entry palette, as RGB triples.
pub open spec fn palette_spec() -> Seq<u8> {
    seq![
        28u8, 28, 34, 22, 84, 48, 122, 80, 42, 74, 46, 24, 8, 8, 8, 245, 245, 245, 16, 16, 16,
        255, 230, 60, 206, 206, 206, 255, 60, 60, 184, 184, 190, 240, 208, 40, 30, 70, 200, 210,
        40, 40, 120, 60, 170, 235, 130, 30, 30, 140, 70, 150, 40, 45, 20, 20, 20, 90, 90, 96, 40,
        40, 46, 60, 60, 66, 140, 140, 146, 255, 255, 255, 80, 120, 90, 200, 160, 60, 0, 0, 0, 0,
        0, 0, 0, 0, 0, 0, 0, 0, 0, 0, 0, 0, 0, 0,
    ]
}

/// The palette as the bytes of a PLTE chunk: 32 RGB triples.
pub fn palette_bytes() -> (p: Vec<u8>)
    ensures
        p@ == palette_spec(),
{
    let p = vec![
        28u8, 28, 34, 22, 84, 48, 122, 80, 42, 74, 46, 24, 8, 8, 8, 245, 245, 245, 16, 16, 16,
        255, 230, 60, 206, 206, 206, 255, 60, 60, 184, 184, 190, 240, 208, 40, 30, 70, 200, 210,
        40, 40, 120, 60, 170, 235, 130, 30, 30, 140, 70, 150, 40, 45, 20, 20, 20, 90, 90, 96, 40,
        40, 46, 60, 60, 66, 140, 140, 146, 255, 255, 255, 80, 120, 90, 200, 160, 60, 0, 0, 0, 0,
        0, 0, 0, 0, 0, 0, 0, 0, 0, 0, 0, 0, 0, 0,
    ];
    assert(p@ =~= palette_spec());
    p
}

/// Does `(x, y)` address a pixel of a `w` by `h` canvas? Coordinates are taken as `usize`.
pub open spec fn on_canvas(x: i64, y: i64, w: usize, h: usize) -> bool {
    x >= 0 && y >= 0 && (x as usize) < w && (y as usize) < h
}

impl Canvas {
    /// The pixel buffer holds at least `w·h` indices; row `y` is `px[y·w .. (y+1)·w]`.
    pub open spec fn wf(&self) -> bool {
        self.px@.len() >= self.w * self.h
    }

    /// A canvas filled with the background colour.
    pub fn new(w: usize, h: usize, bg: Rgb) -> (c: Canvas)
        requires
            w * h <= usize::MAX,
        ensures
            c.w == w,
            c.h == h,
            c.wf(),
            c.px@.len() == w * h,
            forall|i: int| 0 <= i < w * h ==> #[trigger] c.px@[i] == bg.0,
    {
        Canvas { w, h, px: vec![bg.0; w * h] }
    }

    /// Sets one pixel; a position off the canvas is ignored.
    pub fn put(&mut self, x: i64, y: i64, c: Rgb)
        requires
            old(self).wf(),
        ensures
            final(self).wf(),
            final(self).w == old(self).w,
            final(self).h == old(self).h,
            on_canvas(x, y, old(self).w, old(self).h) ==> final(self).px@ == old(self).px@.update(
                (y as usize) * old(self).w + (x as usize),
                c.0,
            ),
            !on_canvas(x, y, old(self).w, old(self).h) ==> final(self).px@ == old(self).px@,
    {
        if x < 0 || y < 0 || x as usize >= self.w || y as usize >= self.h {
            return;
        }
        let xu = x as usize;
        let yu = y as usize;
        assert(yu * self.w + xu < self.w * self.h) by (nonlinear_arith)
            requires
                xu < self.w,
                yu < self.h,
        ;
        assert(self.px@.len() == self.px.len());
        assert(yu * self.w + xu < self.px.len());
        self.px.set(yu * self.w + xu, c.0);
    }
}

/// The colour a ball is drawn in: the cue ball white, solids and stripes sharing a colour per
/// number, the 8 (and anything else) black.
pub open spec fn ball_colour_spec(id: u8) -> u8 {
    if id == 0 {
        5
    } else if id == 1 || id == 9 {
        11
    } else if id == 2 || id == 10 {
        12
    } else if id == 3 || id == 11 {
        13
    } else if id == 4 || id == 12 {
        14
    } else if id == 5 || id == 13 {
        15
    } else if id == 6 || id == 14 {
        16
    } else if id == 7 || id == 15 {
        17
    } else {
        18
    }
}

/// The palette slot a ball is drawn in.
pub fn ball_colour(id: u8) -> (c: Rgb)
    ensures
        c.0 == ball_colour_spec(id),
{
    match id {
        0 => Rgb(5),
        1 | 9 => Rgb(11),
        2 | 10 => Rgb(12),
        3 | 11 => Rgb(13),
        4 | 12 => Rgb(14),
        5 | 13 => Rgb(15),
        6 | 14 => Rgb(16),
        7 | 15 => Rgb(17),
        _ => Rgb(18),
    }
}

/// Is a ball dark enough that its number is printed in white?
pub fn ball_colour_dark(id: u8) -> (d: bool)
    ensures
        d == (id == 4 || id == 8 || id == 12 || id == 2 || id == 10),
{
    id == 4 || id == 8 || id == 12 || id == 2 || id == 10
}

// ------------------------------------------------------------------ checksums

/// The Adler-32 sums `(a, b)` after `data`, from `(1, 0)`.
pub open spec fn adler_sums(data: Seq<u8>) -> (nat, nat)
    decreases data.len(),
{
    if data.len() == 0 {
        (1, 0)
    } else {
        let (a0, b0) = adler_sums(data.drop_last());
        let a = ((a0 + data.last()) % 65521) as nat;
        (a, ((b0 + a) % 65521) as nat)
    }
}

/// The Adler-32 checksum: `b·2^16 + a`.
pub open spec fn adler32_spec(data: Seq<u8>) -> u32 {
    (adler_sums(data).1 * 65536 + adler_sums(data).0) as u32
}

proof fn lemma_adler_bounds(data: Seq<u8>)
    ensures
        adler_sums(data).0 < 65521,
        adler_sums(data).1 < 65521,
    decreases data.len(),
{
    if data.len() > 0 {
        lemma_adler_bounds(data.drop_last());
    }
}

/// Adler-32 of `data`.
pub fn adler32(data: &[u8]) -> (r: u32)
    ensures
        r == adler32_spec(data@),
{
    let mut a: u32 = 1;
    let mut b: u32 = 0;
    let mut i: usize = 0;
    while i < data.len()
        invariant
            0 <= i <= data@.len(),
            (a as nat, b as nat) == adler_sums(data@.subrange(0, i as int)),
            a < 65521,
            b < 65521,
        decreases data@.len() - i,
    {
        assert(data@.subrange(0, i + 1).drop_last() =~= data@.subrange(0, i as int));
        a = (a + data[i] as u32) % 65521;
        b = (b + a) % 65521;
        i = i + 1;
    }
    assert(data@.subrange(0, data@.len() as int) =~= data@);
    assert((b << 16u32) | a == b * 65536 + a) by (bit_vector)
        requires
            a < 65521,
            b < 65521,
    ;
    (b << 16) | a
}

/// One bit of the reflected CRC-32 register update.
pub open spec fn crc_bit(c: u32) -> u32 {
    if c & 1 != 0 {
        0xEDB8_8320u32 ^ (c >> 1u32)
    } else {
        c >> 1u32
    }
}

/// Eight bits of the register update.
pub open spec fn crc_bits8(c: u32) -> u32 {
    crc_bit(crc_bit(crc_bit(crc_bit(crc_bit(crc_bit(crc_bit(crc_bit(c))))))))
}

/// The CRC-32 register after `data`, from all ones: each byte is folded into the low byte of the
/// register and shifted through bit by bit.
pub open spec fn crc_register(data: Seq<u8>) -> u32
    decreases data.len(),
{
    if data.len() == 0 {
        0xFFFF_FFFF
    } else {
        crc_bits8(crc_register(data.drop_last()) ^ (data.last() as u32))
    }
}

/// The CRC-32 (IEEE, reflected) of `data`.
pub open spec fn crc32_spec(data: Seq<u8>) -> u32 {
    crc_register(data) ^ 0xFFFF_FFFF
}

/// The byte-at-a-time table update agrees with eight bit steps: the high bytes of the register
/// only shift.
proof fn lemma_crc_table_step(c: u32, d: u8)
    ensures
        crc_bits8((c ^ (d as u32)) & 0xff) ^ (c >> 8u32) == crc_bits8(c ^ (d as u32)),
{
    let x = c ^ (d as u32);
    assert(c >> 8u32 == x >> 8u32) by (bit_vector)
        requires
            x == c ^ (d as u32),
            d < 256,
    ;
    assert(crc_bits8(x & 0xff) ^ (x >> 8u32) == crc_bits8(x)) by (bit_vector);
}

fn crc_bit_exec(c: u32) -> (r: u32)
    ensures
        r == crc_bit(c),
{
    if c & 1 != 0 {
        0xEDB8_8320 ^ (c >> 1)
    } else {
        c >> 1
    }
}

/// CRC-32 of `data`, byte at a time through a 256-entry table.
pub fn crc32(data: &[u8]) -> (r: u32)
    ensures
        r == crc32_spec(data@),
{
    let mut table: Vec<u32> = Vec::new();
    let mut i: u32 = 0;
    while i < 256
        invariant
            i <= 256,
            table@.len() == i,
            forall|k: int| 0 <= k < i ==> #[trigger] table@[k] == crc_bits8(k as u32),
        decreases 256 - i,
    {
        let mut c = i;
        let mut step: u32 = 0;
        while step < 8
            invariant
                step <= 8,
                step == 0 ==> c == i,
                step == 1 ==> c == crc_bit(i),
                step == 2 ==> c == crc_bit(crc_bit(i)),
                step == 3 ==> c == crc_bit(crc_bit(crc_bit(i))),
                step == 4 ==> c == crc_bit(crc_bit(crc_bit(crc_bit(i)))),
                step == 5 ==> c == crc_bit(crc_bit(crc_bit(crc_bit(crc_bit(i))))),
                step == 6 ==> c == crc_bit(crc_bit(crc_bit(crc_bit(crc_bit(crc_bit(i)))))),
                step == 7 ==> c == crc_bit(crc_bit(crc_bit(crc_bit(crc_bit(crc_bit(crc_bit(i))))))),
                step == 8 ==> c == crc_bits8(i),
            decreases 8 - step,
        {
            c = crc_bit_exec(c);
            step = step + 1;
        }
        table.push(c);
        i = i + 1;
    }
    let mut c: u32 = 0xFFFF_FFFF;
    let mut k: usize = 0;
    while k < data.len()
        invariant
            0 <= k <= data@.len(),
            table@.len() == 256,
            forall|j: int| 0 <= j < 256 ==> #[trigger] table@[j] == crc_bits8(j as u32),
            c == crc_register(data@.subrange(0, k as int)),
        decreases data@.len() - k,
    {
        let d = data[k];
        assert(data@.subrange(0, k + 1).drop_last() =~= data@.subrange(0, k as int));
        let idx = (c ^ d as u32) & 0xff;
        assert(idx < 256) by (bit_vector)
            requires
                idx == (c ^ d as u32) & 0xff,
        ;
        proof {
            lemma_crc_table_step(c, d);
            assert(table@[idx as int] == crc_bits8(idx));
        }
        c = table[idx as usize] ^ (c >> 8);
        k = k + 1;
    }
    assert(data@.subrange(0, data@.len() as int) =~= data@);
    c ^ 0xFFFF_FFFF
}

// ------------------------------------------------------------------ chunks

/// The four big-endian bytes of a 32-bit value.
pub open spec fn be32(x: u32) -> Seq<u8> {
    seq![(x / 0x100_0000) as u8, ((x / 0x1_0000) % 256) as u8, ((x / 256) % 256) as u8, (x % 256) as u8]
}

fn push_be32(out: &mut Vec<u8>, x: u32)
    ensures
        final(out)@ == old(out)@ + be32(x),
{
    out.push((x / 0x100_0000) as u8);
    out.push(((x / 0x1_0000) % 256) as u8);
    out.push(((x / 256) % 256) as u8);
    out.push((x % 256) as u8);
    assert(final(out)@ =~= old(out)@ + be32(x));
}

fn push_all(out: &mut Vec<u8>, data: &[u8])
    ensures
        final(out)@ == old(out)@ + data@,
{
    let mut i: usize = 0;
    while i < data.len()
        invariant
            0 <= i <= data@.len(),
            out@ == old(out)@ + data@.subrange(0, i as int),
        decreases data@.len() - i,
    {
        out.push(data[i]);
        assert(data@.subrange(0, i + 1) =~= data@.subrange(0, i as int).push(data@[i as int]));
        i = i + 1;
    }
    assert(data@.subrange(0, data@.len() as int) =~= data@);
}

/// A PNG chunk: the data length (big-endian, modulo 2^32), the kind, the data, and the CRC-32 of
/// kind and data.
pub open spec fn chunk_spec(kind: Seq<u8>, data: Seq<u8>) -> Seq<u8> {
    be32(data.len() as u32) + kind + data + be32(crc32_spec(kind + data))
}

/// Appends one PNG chunk.
pub fn chunk(out: &mut Vec<u8>, kind: &[u8; 4], data: &[u8])
    ensures
        final(out)@ == old(out)@ + chunk_spec(kind@, data@),
{
    push_be32(out, data.len() as u32);
    let mut body: Vec<u8> = Vec::new();
    push_all(&mut body, kind);
    push_all(&mut body, data);
    push_all(out, body.as_slice());
    let crc = crc32(body.as_slice());
    push_be32(out, crc);
    assert(final(out)@ =~= old(out)@ + chunk_spec(kind@, data@));
}


// ------------------------------------------------------------------ scanline filtering

/// Row `y` of a row-major buffer of width `w`.
pub open spec fn row_of(px: Seq<u8>, w: int, y: int) -> Seq<u8> {
    px.subrange(y * w, y * w + w)
}

/// `n` zero bytes.
pub open spec fn zeros(n: nat) -> Seq<u8> {
    Seq::new(n, |i: int| 0u8)
}

/// The Sub filter of a row: each byte minus its left neighbour (0 left of the first), modulo 256.
pub open spec fn sub_diff(row: Seq<u8>) -> Seq<u8> {
    Seq::new(row.len(), |i: int| row[i].wrapping_sub(if i == 0 { 0u8 } else { row[i - 1] }))
}

/// The number of non-zero bytes.
pub open spec fn count_nonzero(s: Seq<u8>) -> nat
    decreases s.len(),
{
    if s.len() == 0 {
        0
    } else {
        count_nonzero(s.drop_last()) + (if s.last() != 0 { 1nat } else { 0nat })
    }
}

/// The number of positions below `n` where `a` and `b` differ.
pub open spec fn count_changed(a: Seq<u8>, b: Seq<u8>, n: int) -> nat
    decreases n,
{
    if n <= 0 {
        0
    } else {
        count_changed(a, b, n - 1) + (if a[n - 1] != b[n - 1] { 1nat } else { 0nat })
    }
}

/// One filtered scanline: the Sub filter (type 1) when it leaves no more non-zero bytes than the
/// row has bytes changed from the row above, else the row unfiltered (type 0).
pub open spec fn filter_line(row: Seq<u8>, prev: Seq<u8>) -> Seq<u8> {
    let d = sub_diff(row);
    if count_nonzero(d) <= count_changed(row, prev, row.len() as int) {
        seq![1u8] + d
    } else {
        seq![0u8] + row
    }
}

/// The filtered scanlines of the first `h` rows; the row above the first is all zeros.
pub open spec fn filtered(px: Seq<u8>, w: int, h: int) -> Seq<u8>
    decreases h,
{
    if h <= 0 {
        Seq::empty()
    } else {
        filtered(px, w, h - 1) + filter_line(
            row_of(px, w, h - 1),
            if h - 1 == 0 { zeros(w as nat) } else { row_of(px, w, h - 2) },
        )
    }
}

/// Reverses the Sub filter: each byte plus the already-restored byte to its left, modulo 256.
pub open spec fn unsub(d: Seq<u8>) -> Seq<u8>
    decreases d.len(),
{
    if d.len() == 0 {
        Seq::empty()
    } else {
        let prev = unsub(d.drop_last());
        prev.push(d.last().wrapping_add(if d.len() == 1 { 0u8 } else { prev.last() }))
    }
}

/// Reads one filtered scanline back.
pub open spec fn unfilter_line(line: Seq<u8>) -> Seq<u8> {
    if line[0] == 1 {
        unsub(line.drop_first())
    } else {
        line.drop_first()
    }
}

proof fn lemma_unsub(row: Seq<u8>)
    ensures
        unsub(sub_diff(row)) == row,
    decreases row.len(),
{
    if row.len() > 0 {
        let r0 = row.drop_last();
        lemma_unsub(r0);
        assert(sub_diff(row).drop_last() =~= sub_diff(r0));
        let n = row.len() - 1;
        let left: u8 = if n == 0 { 0u8 } else { row[n - 1] };
        assert(sub_diff(row).last() == row[n].wrapping_sub(left));
        assert(row[n].wrapping_sub(left).wrapping_add(left) == row[n]);
        if n > 0 {
            assert(unsub(sub_diff(r0)).last() == r0.last());
        }
        assert(unsub(sub_diff(row)) =~= row);
    }
}

/// Reading a filtered scanline back gives the row, whichever filter was chosen.
pub proof fn scanline_filter_round_trip(row: Seq<u8>, prev: Seq<u8>)
    ensures
        unfilter_line(filter_line(row, prev)) == row,
{
    let d = sub_diff(row);
    if count_nonzero(d) <= count_changed(row, prev, row.len() as int) {
        assert((seq![1u8] + d).drop_first() =~= d);
        lemma_unsub(row);
    } else {
        assert((seq![0u8] + row).drop_first() =~= row);
    }
}

fn filter_row(px: &Vec<u8>, start: usize, w: usize, prev: &Vec<u8>, raw: &mut Vec<u8>)
    requires
        start + w <= px@.len(),
        prev@.len() == w,
    ensures
        final(raw)@ == old(raw)@ + filter_line(px@.subrange(start as int, start + w), prev@),
{
    let ghost row = px@.subrange(start as int, start + w);
    let mut diff: Vec<u8> = Vec::new();
    let mut cost_sub: usize = 0;
    let mut cost_raw: usize = 0;
    let mut i: usize = 0;
    while i < w
        invariant
            0 <= i <= w,
            start + w <= px.len(),
            prev@.len() == w,
            row == px@.subrange(start as int, start + w),
            diff@ == sub_diff(row).subrange(0, i as int),
            cost_sub == count_nonzero(diff@),
            cost_raw == count_changed(row, prev@, i as int),
            cost_sub <= i,
            cost_raw <= i,
        decreases w - i,
    {
        let v = px[start + i];
        let left = if i == 0 { 0u8 } else { px[start + i - 1] };
        let d = v.wrapping_sub(left);
        assert(d == sub_diff(row)[i as int]);
        let ghost before = diff@;
        diff.push(d);
        assert(diff@ =~= sub_diff(row).subrange(0, i + 1));
        assert(diff@.drop_last() =~= before);
        if d != 0 {
            cost_sub = cost_sub + 1;
        }
        if v != prev[i] {
            cost_raw = cost_raw + 1;
        }
        i = i + 1;
    }
    assert(diff@ =~= sub_diff(row));
    if cost_sub <= cost_raw {
        raw.push(1u8);
        push_all(raw, diff.as_slice());
        assert(final(raw)@ =~= old(raw)@ + (seq![1u8] + sub_diff(row)));
    } else {
        raw.push(0u8);
        let mut j: usize = 0;
        let ghost base = raw@;
        while j < w
            invariant
                0 <= j <= w,
                start + w <= px.len(),
                row == px@.subrange(start as int, start + w),
                raw@ == base + row.subrange(0, j as int),
            decreases w - j,
        {
            raw.push(px[start + j]);
            assert(row.subrange(0, j + 1) =~= row.subrange(0, j as int).push(row[j as int]));
            j = j + 1;
        }
        assert(row.subrange(0, w as int) =~= row);
        assert(final(raw)@ =~= old(raw)@ + (seq![0u8] + row));
    }
}

// ------------------------------------------------------------------ zlib stored blocks

/// The five header bytes of a stored deflate block of `n` bytes (`n < 65536`).
pub open spec fn block_header(last: bool, n: nat) -> Seq<u8> {
    seq![
        (if last { 1u8 } else { 0u8 }),
        (n % 256) as u8,
        (n / 256) as u8,
        (255 - n % 256) as u8,
        (255 - n / 256) as u8,
    ]
}

/// The stored deflate blocks of `raw`: blocks of 65535 bytes, the last one shorter and flagged.
/// An empty input has no block.
pub open spec fn stored_blocks(raw: Seq<u8>) -> Seq<u8>
    decreases raw.len(),
{
    if raw.len() == 0 {
        Seq::empty()
    } else {
        let n: nat = if raw.len() < 65535 { raw.len() } else { 65535 };
        block_header(n == raw.len(), n) + raw.subrange(0, n as int) + stored_blocks(
            raw.subrange(n as int, raw.len() as int),
        )
    }
}

/// A zlib stream of stored blocks: the CMF/FLG pair `78 01`, the blocks, and the Adler-32 of the
/// uncompressed data, big-endian.
pub open spec fn zlib_stored(raw: Seq<u8>) -> Seq<u8> {
    seq![0x78u8, 0x01u8] + stored_blocks(raw) + be32(adler32_spec(raw))
}

/// Reads stored deflate blocks back: a header, then `LEN` bytes whose one's complement `NLEN`
/// checks, until a block flagged last. `None` when the stream is cut short or a check fails.
pub open spec fn inflate_stored(s: Seq<u8>) -> Option<Seq<u8>>
    decreases s.len(),
{
    if s.len() < 5 {
        None
    } else {
        let n = s[1] + 256 * s[2];
        let check = s[3] + 256 * s[4];
        if n + check != 65535 || s.len() < 5 + n || (s[0] != 0 && s[0] != 1) {
            None
        } else if s[0] == 1 {
            Some(s.subrange(5, 5 + n))
        } else {
            match inflate_stored(s.subrange(5 + n, s.len() as int)) {
                Some(rest) => Some(s.subrange(5, 5 + n) + rest),
                None => None,
            }
        }
    }
}

/// Reading the stored blocks back gives the data that was framed.
pub proof fn stored_blocks_round_trip(raw: Seq<u8>)
    requires
        raw.len() > 0,
    ensures
        inflate_stored(stored_blocks(raw)) == Some(raw),
    decreases raw.len(),
{
    let n: nat = if raw.len() < 65535 { raw.len() } else { 65535 };
    let rest = raw.subrange(n as int, raw.len() as int);
    let s = stored_blocks(raw);
    let h = block_header(n == raw.len(), n);
    assert(s == h + raw.subrange(0, n as int) + stored_blocks(rest));
    assert(s[1] + 256 * s[2] == n);
    assert(s[3] + 256 * s[4] == 65535 - n);
    assert(s.subrange(5, 5 + n as int) =~= raw.subrange(0, n as int));
    if n == raw.len() {
        assert(raw.subrange(0, n as int) =~= raw);
    } else {
        assert(s.subrange(5 + n as int, s.len() as int) =~= stored_blocks(rest));
        stored_blocks_round_trip(rest);
        assert(raw.subrange(0, n as int) + rest =~= raw);
    }
}

/// Frames `raw` as a zlib stream of stored blocks.
pub fn zlib_stored_exec(raw: &Vec<u8>) -> (z: Vec<u8>)
    ensures
        z@ == zlib_stored(raw@),
{
    let mut z: Vec<u8> = Vec::new();
    z.push(0x78);
    z.push(0x01);
    let mut i: usize = 0;
    assert(raw@.subrange(0, raw@.len() as int) =~= raw@);
    assert(z@ =~= seq![0x78u8, 0x01u8]);
    while i < raw.len()
        invariant
            0 <= i <= raw@.len(),
            z@ + stored_blocks(raw@.subrange(i as int, raw@.len() as int)) == seq![0x78u8, 0x01u8] + stored_blocks(raw@),
        decreases raw@.len() - i,
    {
        let ghost tail = raw@.subrange(i as int, raw@.len() as int);
        let n: usize = if raw.len() - i < 65535 { raw.len() - i } else { 65535 };
        let last = i + n >= raw.len();
        let ghost before = z@;
        z.push(if last { 1 } else { 0 });
        z.push((n % 256) as u8);
        z.push((n / 256) as u8);
        z.push((255 - n % 256) as u8);
        z.push((255 - n / 256) as u8);
        let mut j: usize = 0;
        while j < n
            invariant
                0 <= j <= n,
                i + n <= raw.len(),
                z@ == before + block_header(last, n as nat) + raw@.subrange(i as int, i + j),
            decreases n - j,
        {
            z.push(raw[i + j]);
            assert(raw@.subrange(i as int, i + j + 1) =~= raw@.subrange(i as int, i + j).push(raw@[i + j]));
            j = j + 1;
        }
        proof {
            assert(tail.subrange(0, n as int) =~= raw@.subrange(i as int, i + n));
            assert(tail.subrange(n as int, tail.len() as int) =~= raw@.subrange(i + n, raw@.len() as int));
            assert(stored_blocks(tail) == block_header(last, n as nat) + tail.subrange(0, n as int) + stored_blocks(
                tail.subrange(n as int, tail.len() as int),
            ));
            assert(z@ + stored_blocks(raw@.subrange(i + n, raw@.len() as int)) =~= before + stored_blocks(tail));
        }
        i = i + n;
    }
    assert(stored_blocks(raw@.subrange(i as int, raw@.len() as int)) =~= Seq::<u8>::empty()) by {
        assert(raw@.subrange(i as int, raw@.len() as int).len() == 0);
    }
    assert(z@ =~= seq![0x78u8, 0x01u8] + stored_blocks(raw@));
    let a = adler32(raw.as_slice());
    push_be32(&mut z, a);
    z
}

// ------------------------------------------------------------------ the PNG file

/// The bytes of an indexed PNG of a `w` by `h` canvas: signature, header (8-bit, indexed colour),
/// palette, the zlib-framed filtered scanlines, and the end chunk.
pub open spec fn png_spec(w: usize, h: usize, px: Seq<u8>) -> Seq<u8> {
    seq![0x89u8, 80, 78, 71, 13, 10, 26, 10]
        + chunk_spec(seq![73u8, 72, 68, 82], be32(w as u32) + be32(h as u32) + seq![8u8, 3, 0, 0, 0])
        + chunk_spec(seq![80u8, 76, 84, 69], palette_spec())
        + chunk_spec(seq![73u8, 68, 65, 84], zlib_stored(filtered(px, w as int, h as int)))
        + chunk_spec(seq![73u8, 69, 78, 68], Seq::empty())
}

impl Canvas {
    /// The canvas as an indexed PNG file: each scanline filtered with Sub or left as it is,
    /// whichever leaves fewer bytes that differ, framed in stored deflate blocks.
    pub fn png_bytes(&self) -> (out: Vec<u8>)
        requires
            self.wf(),
        ensures
            out@ == png_spec(self.w, self.h, self.px@),
    {
        let w = self.w;
        let h = self.h;
        let mut raw: Vec<u8> = Vec::new();
        let mut prev_row: Vec<u8> = vec![0u8; w];
        assert(prev_row@ =~= zeros(w as nat));
        let mut y: usize = 0;
        while y < h
            invariant
                0 <= y <= h,
                w == self.w,
                h == self.h,
                self.px@.len() >= w * h,
                prev_row@.len() == w,
                prev_row@ == (if y == 0 { zeros(w as nat) } else { row_of(self.px@, w as int, y - 1) }),
                raw@ == filtered(self.px@, w as int, y as int),
            decreases h - y,
        {
            assert(y * w + w <= w * h) by (nonlinear_arith)
                requires
                    y < h,
            ;
            assert(y * w + w == (y + 1) * w) by (nonlinear_arith);
            assert(self.px@.len() == self.px.len());
            let start = y * w;
            filter_row(&self.px, start, w, &prev_row, &mut raw);
            let mut next_prev: Vec<u8> = Vec::new();
            let mut k: usize = 0;
            while k < w
                invariant
                    0 <= k <= w,
                    start + w <= self.px.len(),
                    next_prev@ == self.px@.subrange(start as int, start + k),
                decreases w - k,
            {
                next_prev.push(self.px[start + k]);
                assert(self.px@.subrange(start as int, start + k + 1) =~= self.px@.subrange(start as int, start + k).push(
                    self.px@[start + k],
                ));
                k = k + 1;
            }
            prev_row = next_prev;
            y = y + 1;
        }
        let z = zlib_stored_exec(&raw);
        let mut out: Vec<u8> = vec![0x89u8, 80, 78, 71, 13, 10, 26, 10];
        let mut ihdr: Vec<u8> = Vec::new();
        push_be32(&mut ihdr, w as u32);
        push_be32(&mut ihdr, h as u32);
        ihdr.push(8);
        ihdr.push(3);
        ihdr.push(0);
        ihdr.push(0);
        ihdr.push(0);
        assert(ihdr@ =~= be32(w as u32) + be32(h as u32) + seq![8u8, 3, 0, 0, 0]);
        chunk(&mut out, &[73u8, 72, 68, 82], ihdr.as_slice());
        let plte = palette_bytes();
        chunk(&mut out, &[80u8, 76, 84, 69], plte.as_slice());
        chunk(&mut out, &[73u8, 68, 65, 84], z.as_slice());
        let empty: Vec<u8> = Vec::new();
        chunk(&mut out, &[73u8, 69, 78, 68], empty.as_slice());
        proof {
            assert([73u8, 72, 68, 82]@ =~= seq![73u8, 72, 68, 82]);
            assert([80u8, 76, 84, 69]@ =~= seq![80u8, 76, 84, 69]);
            assert([73u8, 68, 65, 84]@ =~= seq![73u8, 68, 65, 84]);
            assert([73u8, 69, 78, 68]@ =~= seq![73u8, 69, 78, 68]);
            assert(empty@ =~= Seq::<u8>::empty());
        }
        assert(out@ =~= png_spec(self.w, self.h, self.px@));
        out
    }
}

} // verus!

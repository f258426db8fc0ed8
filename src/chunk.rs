//! A 16×16×16 chunk of blocks stored in one byte buffer: a palette of 64-bit
//! block ids, then 4096 palette indices packed `bits_per_block` bits each,
//! least significant bit first.

use vstd::prelude::*;
use crate::bits::{
    bits_value, ceil_log2, ceil_log2_exec, is_least_width, le_bytes, le_value,
    lemma_bits_value, lemma_byte_bit_update, lemma_byte_pow_8, lemma_le_bytes, lemma_two_pow_64,
    lemma_two_pow_grows, lemma_two_pow_positive, push_le_u64, read_le_u64, two_pow, value_bit,
};
use crate::guard::{range_held, MutationGuard};
use vstd::arithmetic::div_mod::lemma_small_mod;

verus! {

/// The position of a block within its chunk, as `[x, y, z]`.
#[derive(Debug, Clone, Copy)]
pub struct BlockPosInChunk(pub [u8; 3]);

/// A global block id, as the palette stores it.
#[derive(Debug, Clone, Copy, PartialEq, Eq, Structural)]
pub struct BlockID(pub u64);

/// The bytes that a chunk with `palette_size` entries needs: the palette,
/// then 4096 indices of `ceil_log2(palette_size)` bits.
pub open spec fn required_len(palette_size: nat) -> nat {
    8 * palette_size + 512 * ceil_log2(palette_size)
}

/// The slot of the block at `(x, y, z)` in the packed index array.
pub open spec fn slot_of(x: nat, y: nat, z: nat) -> nat {
    x + 16 * z + 256 * y
}

/// The first byte of the buffer that holds a bit of slot `slot`'s index, in a
/// chunk whose palette has `palette_size` entries.
pub open spec fn field_start(palette_size: nat, slot: nat) -> nat {
    8 * palette_size + (ceil_log2(palette_size) * slot) / 8
}

/// One past the last byte of the buffer that holds a bit of slot `slot`'s
/// index, in a chunk whose palette has `palette_size` entries.
pub open spec fn field_end(palette_size: nat, slot: nat) -> nat {
    8 * palette_size + (ceil_log2(palette_size) * slot + ceil_log2(palette_size) + 7) / 8
}

/// Bit `pos` of the packed array that starts at byte `region` of `buf`.
pub open spec fn bit_at(buf: Seq<u8>, region: nat, pos: nat) -> nat {
    ((buf[(region + pos / 8) as int] >> ((pos % 8) as u8)) & 1u8) as nat
}

/// The `width`-bit number whose least significant bit is bit `off` of the
/// packed array at byte `region` of `buf`.
pub open spec fn field_value(buf: Seq<u8>, region: nat, off: nat, width: nat) -> nat
    decreases width,
{
    if width == 0 {
        0
    } else {
        field_value(buf, region, off, (width - 1) as nat) + bit_at(
            buf,
            region,
            (off + width - 1) as nat,
        ) * two_pow((width - 1) as nat)
    }
}

/// Palette entry `i` of `buf`: the little-endian word at byte `8 * i`.
pub open spec fn palette_entry(buf: Seq<u8>, i: nat) -> nat {
    le_value(buf.subrange(8 * i as int, 8 * i as int + 8))
}

/// The palette region that holds `palette`: each entry's eight
/// little-endian bytes, in order.
pub open spec fn palette_bytes(palette: Seq<u64>) -> Seq<u8>
    decreases palette.len(),
{
    if palette.len() == 0 {
        Seq::empty()
    } else {
        palette_bytes(palette.drop_last()) + le_bytes(palette.last() as nat, 8)
    }
}

/// `n` zero bytes.
pub open spec fn zeros(n: nat) -> Seq<u8> {
    Seq::new(n, |i: int| 0u8)
}

/// A buffer that starts with the bytes of a palette reads back, entry by
/// entry, as that palette, whatever follows it.
pub proof fn lemma_palette_round_trip(palette: Seq<u64>, tail: Seq<u8>)
    ensures
        palette_bytes(palette).len() == 8 * palette.len(),
        forall|i: int|
            0 <= i < palette.len() ==> palette_entry(palette_bytes(palette) + tail, i as nat)
                == #[trigger] palette[i],
    decreases palette.len(),
{
    if palette.len() > 0 {
        let init = palette.drop_last();
        let last = palette.last();
        lemma_palette_round_trip(init, le_bytes(last as nat, 8) + tail);
        lemma_le_bytes(last as nat, 8);
        lemma_byte_pow_8();
        let whole = palette_bytes(palette) + tail;
        assert(whole =~= palette_bytes(init) + (le_bytes(last as nat, 8) + tail));
        assert forall|i: int| 0 <= i < palette.len() implies palette_entry(whole, i as nat)
            == #[trigger] palette[i] by {
            if i < palette.len() - 1 {
                assert(palette[i] == init[i]);
            } else {
                let n = palette.len() - 1;
                assert(whole.subrange(8 * n, 8 * n + 8) =~= le_bytes(last as nat, 8));
            }
        }
    }
}

/// Every packed index of a buffer whose index region is all zero is zero.
pub proof fn lemma_zero_field(buf: Seq<u8>, region: nat, off: nat, width: nat)
    requires
        forall|q: int| region <= q < buf.len() ==> buf[q] == 0u8,
        region + (off + width + 7) / 8 <= buf.len(),
    ensures
        field_value(buf, region, off, width) == 0,
    decreases width,
{
    if width > 0 {
        let k = (width - 1) as nat;
        let pos = off + k;
        assert(pos / 8 < (off + width + 7) / 8);
        let b = buf[(region + pos / 8) as int];
        let sh = (pos % 8) as u8;
        assert(b == 0u8);
        assert((b >> sh) & 1u8 == 0u8) by (bit_vector)
            requires
                b == 0u8,
        ;
        lemma_zero_field(buf, region, off, k);
        assert(bit_at(buf, region, pos) == 0);
        assert(field_value(buf, region, off, width) == field_value(buf, region, off, k) + bit_at(
            buf,
            region,
            pos,
        ) * two_pow(k));
    }
}

/// Fields whose bits agree have the same value.
pub proof fn lemma_field_frame(a: Seq<u8>, b: Seq<u8>, region: nat, off: nat, width: nat)
    requires
        forall|p: nat|
            off <= p < off + width ==> #[trigger] bit_at(a, region, p) == bit_at(b, region, p),
    ensures
        field_value(a, region, off, width) == field_value(b, region, off, width),
    decreases width,
{
    if width > 0 {
        let k = (width - 1) as nat;
        assert(bit_at(a, region, off + k) == bit_at(b, region, off + k));
        assert forall|p: nat| off <= p < off + k implies #[trigger] bit_at(a, region, p) == bit_at(
            b,
            region,
            p,
        ) by {}
        lemma_field_frame(a, b, region, off, k);
    }
}

/// A field whose bits are those of `v` holds the low `width` bits of `v`.
pub proof fn lemma_field_of_bits(buf: Seq<u8>, region: nat, off: nat, width: nat, v: u64)
    requires
        forall|p: nat|
            off <= p < off + width ==> #[trigger] bit_at(buf, region, p) == value_bit(
                v,
                (p - off) as nat,
            ),
    ensures
        field_value(buf, region, off, width) == bits_value(v, width),
    decreases width,
{
    if width > 0 {
        let k = (width - 1) as nat;
        assert(bit_at(buf, region, off + k) == value_bit(v, k));
        assert forall|p: nat| off <= p < off + k implies #[trigger] bit_at(buf, region, p)
            == value_bit(v, (p - off) as nat) by {}
        lemma_field_of_bits(buf, region, off, k, v);
    }
}

/// The field of any slot lies inside the buffer that a chunk with that
/// palette needs.
pub proof fn lemma_field_in_buffer(palette_size: nat, slot: nat)
    requires
        slot < 4096,
    ensures
        8 * palette_size + (ceil_log2(palette_size) * slot + ceil_log2(palette_size) + 7) / 8
            <= required_len(palette_size),
{
    let w = ceil_log2(palette_size);
    assert(w * slot + w <= 4096 * w) by (nonlinear_arith)
        requires
            slot <= 4095,
    ;
}

/// Where one block's palette index lies in a chunk's buffer.
#[derive(Debug, Clone, Copy, PartialEq, Eq, Structural)]
pub struct BlockReference {
    /// The block's slot, `x + 16 * z + 256 * y`.
    pub slot: usize,
    /// The width of the index in bits.
    pub width: u32,
    /// The index's first bit, counted from the start of the index array.
    pub bit_offset: usize,
    /// The first byte of the buffer that holds a bit of the index.
    pub byte_start: usize,
    /// One past the last byte of the buffer that holds a bit of the index.
    pub byte_end: usize,
    /// The position of the index's first bit within its first byte.
    pub first_bit: u8,
    /// The position of the index's last bit within its last byte (0 when the
    /// index is zero bits wide).
    pub last_bit: u8,
}

impl BlockReference {
    /// This reference locates slot `slot` of a chunk whose palette has
    /// `palette_size` entries.
    pub open spec fn locates(self, palette_size: nat, slot: nat) -> bool {
        let w = ceil_log2(palette_size);
        let off = w * slot;
        let region = 8 * palette_size;
        &&& slot < 4096
        &&& self.slot == slot
        &&& self.width == w
        &&& self.bit_offset == off
        &&& self.byte_start == region + off / 8
        &&& self.byte_end == region + (off + w + 7) / 8
        &&& self.first_bit == off % 8
        &&& self.last_bit == (if w == 0 {
            0
        } else {
            (off + w - 1) % 8
        })
    }
}

/// Why a buffer could not become a chunk.
#[derive(Debug, Clone, Copy, PartialEq, Eq, Structural)]
pub enum ChunkError {
    /// The buffer is shorter than the palette and the index array need.
    BufferTooShort { required: u128, actual: usize },
}

/// A chunk: the palette size, fixed for the chunk's life, and the buffer that
/// holds the palette and the packed indices.
pub struct Chunk {
    palette_size: usize,
    buffer: Vec<u8>,
}

impl Chunk {
    /// The buffer is long enough for the palette and the packed indices.
    pub open spec fn wf(&self) -> bool {
        self.bytes().len() >= required_len(self.spec_palette_size())
    }

    /// The number of palette entries.
    pub closed spec fn spec_palette_size(&self) -> nat {
        self.palette_size as nat
    }

    /// The whole buffer.
    pub closed spec fn bytes(&self) -> Seq<u8> {
        self.buffer@
    }

    /// The width of each packed index.
    pub open spec fn spec_bits_per_block(&self) -> nat {
        ceil_log2(self.spec_palette_size())
    }

    /// The byte at which the packed indices start.
    pub open spec fn region_start(&self) -> nat {
        8 * self.spec_palette_size()
    }

    /// The palette index stored for slot `slot`.
    pub open spec fn index_at(&self, slot: nat) -> nat {
        field_value(
            self.bytes(),
            self.region_start(),
            self.spec_bits_per_block() * slot,
            self.spec_bits_per_block(),
        )
    }

    /// A chunk with an empty palette and an empty buffer.
    pub fn new_empty() -> (r: Chunk)
        ensures
            r.wf(),
            r.spec_palette_size() == 0,
            r.bytes().len() == 0,
    {
        proof {
            assert(ceil_log2(0) == 0);
        }
        Chunk { palette_size: 0, buffer: Vec::new() }
    }

    /// A chunk with the given palette and every block at palette index 0.
    pub fn from_palette(palette: &Vec<u64>) -> (r: Chunk)
        requires
            8 * palette@.len() + 512 * 64 <= usize::MAX,
        ensures
            r.wf(),
            r.spec_palette_size() == palette@.len(),
            r.bytes() == palette_bytes(palette@) + zeros(
                512 * ceil_log2(palette@.len() as nat),
            ),
            forall|i: int|
                0 <= i < palette@.len() ==> palette_entry(r.bytes(), i as nat) == palette@[i],
            forall|s: nat| s < 4096 ==> #[trigger] r.index_at(s) == 0,
    {
        let n = palette.len();
        let mut buffer: Vec<u8> = Vec::new();
        let mut i: usize = 0;
        while i < n
            invariant
                i <= n,
                n == palette@.len(),
                buffer@ == palette_bytes(palette@.subrange(0, i as int)),
            decreases n - i,
        {
            push_le_u64(&mut buffer, palette[i]);
            proof {
                let next = palette@.subrange(0, i + 1);
                assert(next.drop_last() =~= palette@.subrange(0, i as int));
            }
            i = i + 1;
        }
        proof {
            assert(palette@.subrange(0, n as int) =~= palette@);
            lemma_palette_round_trip(palette@, Seq::empty());
        }
        let w = ceil_log2_exec(n);
        let fill: usize = 512 * (w as usize);
        let ghost head = buffer@;
        let mut k: usize = 0;
        while k < fill
            invariant
                k <= fill,
                buffer@ == head + zeros(k as nat),
                head.len() == 8 * n,
                8 * n + 512 * 64 <= usize::MAX,
                fill <= 512 * 64,
            decreases fill - k,
        {
            buffer.push(0u8);
            k = k + 1;
            assert(buffer@ =~= head + zeros(k as nat));
        }
        let r = Chunk { palette_size: n, buffer };
        proof {
            lemma_palette_round_trip(palette@, zeros(fill as nat));
            assert forall|s: nat| s < 4096 implies #[trigger] r.index_at(s) == 0 by {
                lemma_field_in_buffer(n as nat, s);
                lemma_zero_field(r.buffer@, (8 * n) as nat, (w * s) as nat, w as nat);
            }
        }
        r
    }

    /// The width of a palette index for a palette of `palette_size` entries:
    /// `ceil(log2(palette_size))`, and 0 for 0 and 1 entries.
    pub fn bits_for(palette_size: usize) -> (r: u32)
        ensures
            r == ceil_log2(palette_size as nat),
            is_least_width(palette_size as nat, r as nat),
    {
        ceil_log2_exec(palette_size)
    }

    /// Takes `buffer` as a chunk whose palette has `palette_size` entries.
    /// Fails when the buffer is too short for that palette and the 4096
    /// indices.
    pub fn from_parts(palette_size: usize, buffer: Vec<u8>) -> (r: Result<Chunk, ChunkError>)
        ensures
            r is Ok <==> buffer@.len() >= required_len(palette_size as nat),
            r matches Ok(c) ==> c.wf() && c.spec_palette_size() == palette_size && c.bytes() == buffer@,
            r matches Err(ChunkError::BufferTooShort { required, actual }) ==> required
                == required_len(palette_size as nat) && actual == buffer@.len(),
    {
        let bits = ceil_log2_exec(palette_size);
        let required: u128 = 8 * (palette_size as u128) + 512 * (bits as u128);
        if (buffer.len() as u128) < required {
            Err(ChunkError::BufferTooShort { required, actual: buffer.len() })
        } else {
            Ok(Chunk { palette_size, buffer })
        }
    }

    /// The number of palette entries.
    pub fn palette_size(&self) -> (r: usize)
        ensures
            r == self.spec_palette_size(),
    {
        self.palette_size
    }

    /// The length of the buffer.
    pub fn buffer_len(&self) -> (r: usize)
        requires
            self.wf(),
        ensures
            r == self.bytes().len(),
            r >= required_len(self.spec_palette_size()),
    {
        self.buffer.len()
    }

    /// The width of each packed index, computed from the palette size.
    pub fn bits_per_block(&self) -> (r: u32)
        ensures
            r == self.spec_bits_per_block(),
            is_least_width(self.spec_palette_size(), r as nat),
    {
        ceil_log2_exec(self.palette_size)
    }

    /// A copy of the palette, entry by entry.
    pub fn block_palette(&self) -> (r: Vec<u64>)
        requires
            self.wf(),
        ensures
            r@.len() == self.spec_palette_size(),
            forall|i: int|
                0 <= i < r@.len() ==> r@[i] == palette_entry(self.bytes(), i as nat),
    {
        let len = self.buffer.len();
        let mut out: Vec<u64> = Vec::with_capacity(self.palette_size);
        let mut i: usize = 0;
        while i < self.palette_size
            invariant
                i <= self.palette_size,
                self.buffer@.len() >= 8 * self.palette_size,
                len == self.buffer@.len(),
                out@.len() == i,
                forall|j: int| 0 <= j < i ==> out@[j] == palette_entry(self.buffer@, j as nat),
            decreases self.palette_size - i,
        {
            let v = read_le_u64(&self.buffer, 8 * i);
            out.push(v);
            i = i + 1;
        }
        out
    }

    /// The palette index stored where `r` points.
    pub fn block_index(&self, r: &BlockReference) -> (v: u64)
        requires
            self.wf(),
            r.locates(self.spec_palette_size(), r.slot as nat),
        ensures
            v == self.index_at(r.slot as nat),
    {
        proof {
            lemma_field_in_buffer(self.palette_size as nat, r.slot as nat);
            lemma_two_pow_64();
        }
        let len = self.buffer.len();
        let w = ceil_log2_exec(self.palette_size) as usize;
        let region: usize = 8 * self.palette_size;
        let off = r.bit_offset;
        assert(off <= 64 * 4096) by (nonlinear_arith)
            requires
                off == w * r.slot,
                w <= 64,
                r.slot < 4096,
        ;
        let mut acc: u128 = 0;
        let mut weight: u128 = 1;
        let mut j: usize = 0;
        while j < w
            invariant
                j <= w,
                w <= 64,
                w == r.width,
                off == r.bit_offset,
                off <= 64 * 4096,
                region == 8 * self.palette_size,
                len == self.buffer@.len(),
                region + (off + w + 7) / 8 <= len,
                acc == field_value(self.buffer@, region as nat, off as nat, j as nat),
                weight == two_pow(j as nat),
                acc < weight,
                two_pow(64) == 0x1_0000_0000_0000_0000,
            decreases w - j,
        {
            let pos: usize = off + j;
            assert(pos / 8 < (off + w + 7) / 8);
            let byte = self.buffer[region + pos / 8];
            let bit = (byte >> ((pos % 8) as u8)) & 1u8;
            proof {
                lemma_byte_bit_update(byte, 0, (pos % 8) as u8);
                lemma_two_pow_grows(j as nat, 64);
                assert((bit as u128) * weight <= weight) by (nonlinear_arith)
                    requires
                        bit <= 1,
                ;
            }
            acc = acc + (bit as u128) * weight;
            weight = weight * 2;
            j = j + 1;
        }
        proof {
            if w < 64 {
                lemma_two_pow_grows(w as nat, 64);
            }
        }
        acc as u64
    }

    /// Stores `value` as the palette index where `r` points. The caller
    /// holds the claim on every byte that the index touches; no byte outside
    /// them changes, and so no other block's index does.
    pub fn set_block_index(&mut self, guard: &MutationGuard, r: &BlockReference, value: u64)
        requires
            old(self).wf(),
            r.locates(old(self).spec_palette_size(), r.slot as nat),
            value < old(self).spec_palette_size(),
            guard@.len() == old(self).bytes().len(),
            range_held(guard@, r.byte_start as int, r.byte_end as int),
        ensures
            final(self).wf(),
            final(self).spec_palette_size() == old(self).spec_palette_size(),
            final(self).bytes().len() == old(self).bytes().len(),
            final(self).index_at(r.slot as nat) == value,
            forall|s: nat|
                s < 4096 && s != r.slot ==> #[trigger] final(self).index_at(s) == old(
                    self,
                ).index_at(s),
            forall|q: int|
                0 <= q < old(self).bytes().len() && !(r.byte_start <= q < r.byte_end)
                    ==> final(self).bytes()[q] == old(self).bytes()[q],
    {
        proof {
            lemma_field_in_buffer(self.palette_size as nat, r.slot as nat);
        }
        let ghost before = self.buffer@;
        let len = self.buffer.len();
        let w = ceil_log2_exec(self.palette_size) as usize;
        let region: usize = 8 * self.palette_size;
        let off = r.bit_offset;
        assert(off <= 64 * 4096) by (nonlinear_arith)
            requires
                off == w * r.slot,
                w <= 64,
                r.slot < 4096,
        ;
        let mut j: usize = 0;
        while j < w
            invariant
                j <= w,
                w <= 64,
                w == r.width,
                w == ceil_log2(self.palette_size as nat),
                off == r.bit_offset,
                off <= 64 * 4096,
                region == 8 * self.palette_size,
                r.byte_start == region + off / 8,
                r.byte_end == region + (off + w + 7) / 8,
                len == self.buffer@.len(),
                len == before.len(),
                region + (off + w + 7) / 8 <= len,
                self.palette_size == old(self).palette_size,
                before == old(self).buffer@,
                forall|p: nat|
                    region + p / 8 < len ==> #[trigger] bit_at(self.buffer@, region as nat, p) == (
                    if off <= p < off + j {
                        value_bit(value, (p - off) as nat)
                    } else {
                        bit_at(before, region as nat, p)
                    }),
                forall|q: int|
                    0 <= q < len && !(r.byte_start <= q < r.byte_end) ==> self.buffer@[q]
                        == before[q],
            decreases w - j,
        {
            let pos: usize = off + j;
            assert(pos / 8 < (off + w + 7) / 8);
            let idx: usize = region + pos / 8;
            let k: u8 = (pos % 8) as u8;
            let byte = self.buffer[idx];
            let want = (value >> (j as u64)) & 1u64;
            let updated: u8 = if want == 1 {
                byte | (1u8 << k)
            } else {
                byte & !(1u8 << k)
            };
            let ghost cur = self.buffer@;
            self.buffer.set(idx, updated);
            proof {
                assert(want == 0 || want == 1) by (bit_vector)
                    requires
                        want == (value >> (j as u64)) & 1u64,
                ;
                assert forall|p: nat| region + p / 8 < len implies #[trigger] bit_at(
                    self.buffer@,
                    region as nat,
                    p,
                ) == (if off <= p < off + j + 1 {
                    value_bit(value, (p - off) as nat)
                } else {
                    bit_at(before, region as nat, p)
                }) by {
                    let old_bit = bit_at(cur, region as nat, p);
                    if p / 8 == pos / 8 {
                        lemma_byte_bit_update(byte, k, (p % 8) as u8);
                        if p % 8 == pos % 8 {
                            assert(p == pos);
                        } else {
                            assert(p != pos);
                        }
                    } else {
                        assert(self.buffer@[(region + p / 8) as int] == cur[(region + p / 8) as int]);
                        assert(p != pos);
                    }
                }
            }
            j = j + 1;
        }
        proof {
            let after = self.buffer@;
            let ps = self.palette_size as nat;
            assert forall|p: nat| off <= p < off + w implies #[trigger] bit_at(
                after,
                region as nat,
                p,
            ) == value_bit(value, (p - off) as nat) by {
                assert(p / 8 < (off + w + 7) / 8);
            }
            lemma_field_of_bits(after, region as nat, off as nat, w as nat, value);
            lemma_bits_value(value, w as nat);
            lemma_two_pow_positive(w as nat);
            if ps > 1 {
                assert(value < two_pow(w as nat));
            } else {
                assert(value == 0);
            }
            assert(value < two_pow(w as nat));
            lemma_small_mod(value as nat, two_pow(w as nat));
            assert(self.spec_bits_per_block() == w);
            assert(self.region_start() == region);
            assert(self.spec_bits_per_block() * r.slot == off);
            assert(self.index_at(r.slot as nat) == field_value(
                after,
                region as nat,
                off as nat,
                w as nat,
            ));
            assert forall|s: nat| s < 4096 && s != r.slot implies #[trigger] self.index_at(s)
                == old(self).index_at(s) by {
                let o = (w * s) as nat;
                lemma_field_in_buffer(ps, s);
                assert forall|p: nat| o <= p < o + w implies #[trigger] bit_at(
                    after,
                    region as nat,
                    p,
                ) == bit_at(before, region as nat, p) by {
                    assert(p < off || p >= off + w) by (nonlinear_arith)
                        requires
                            o == w * s,
                            off == w * r.slot,
                            o <= p < o + w,
                            s != r.slot,
                    ;
                    assert(p / 8 < (o + w + 7) / 8);
                }
                lemma_field_frame(after, before, region as nat, o, w as nat);
            }
        }
    }

    /// The global block id at `pos`, or `None` when the stored index is not
    /// below the palette size.
    pub fn block_id(&self, pos: BlockPosInChunk) -> (r: Option<BlockID>)
        requires
            self.wf(),
            pos.0[0] < 16,
            pos.0[1] < 16,
            pos.0[2] < 16,
        ensures
            ({
                let i = self.index_at(slot_of(pos.0[0] as nat, pos.0[1] as nat, pos.0[2] as nat));
                match r {
                    Some(id) => i < self.spec_palette_size() && id.0 == palette_entry(
                        self.bytes(),
                        i,
                    ),
                    None => i >= self.spec_palette_size(),
                }
            }),
    {
        let r = self.block_at(pos.0[0], pos.0[1], pos.0[2]);
        let i = self.block_index(&r);
        if (i as u128) < (self.palette_size as u128) {
            Some(BlockID(read_le_u64(&self.buffer, 8 * (i as usize))))
        } else {
            None
        }
    }

    /// Locates the index of the block at `(x, y, z)`, each below 16.
    pub fn block_at(&self, x: u8, y: u8, z: u8) -> (r: BlockReference)
        requires
            self.wf(),
            x < 16,
            y < 16,
            z < 16,
        ensures
            r.locates(self.spec_palette_size(), slot_of(x as nat, y as nat, z as nat)),
            r.byte_end <= self.bytes().len(),
    {
        let len = self.buffer.len();
        let w = ceil_log2_exec(self.palette_size);
        let slot: usize = x as usize + 16 * (z as usize) + 256 * (y as usize);
        proof {
            assert(w as nat * slot <= 64 * 4095) by (nonlinear_arith)
                requires
                    w <= 64,
                    slot <= 4095,
            ;
            assert(w as nat * slot + w <= 4096 * w) by (nonlinear_arith)
                requires
                    slot <= 4095,
            ;
        }
        let off: usize = (w as usize) * slot;
        let region: usize = 8 * self.palette_size;
        let last_bit: u8 = if w == 0 {
            0
        } else {
            ((off + w as usize - 1) % 8) as u8
        };
        BlockReference {
            slot,
            width: w,
            bit_offset: off,
            byte_start: region + off / 8,
            byte_end: region + (off + w as usize + 7) / 8,
            first_bit: (off % 8) as u8,
            last_bit,
        }
    }
}

/// Every position of a chunk has its own slot, and the slots are exactly
/// `0..4096`: `slot_of` is a bijection from the 16×16×16 positions onto them.
pub proof fn lemma_slots_bijective()
    ensures
        forall|x: nat, y: nat, z: nat|
            x < 16 && y < 16 && z < 16 ==> #[trigger] slot_of(x, y, z) < 4096,
        forall|x1: nat, y1: nat, z1: nat, x2: nat, y2: nat, z2: nat|
            x1 < 16 && y1 < 16 && z1 < 16 && x2 < 16 && y2 < 16 && z2 < 16 && #[trigger] slot_of(
                x1,
                y1,
                z1,
            ) == #[trigger] slot_of(x2, y2, z2) ==> x1 == x2 && y1 == y2 && z1 == z2,
        forall|s: nat|
            s < 4096 ==> s / 256 < 16 && #[trigger] slot_of(s % 16, s / 256, (s / 16) % 16) == s,
{
    assert forall|x1: nat, y1: nat, z1: nat, x2: nat, y2: nat, z2: nat|
        x1 < 16 && y1 < 16 && z1 < 16 && x2 < 16 && y2 < 16 && z2 < 16 && #[trigger] slot_of(
            x1,
            y1,
            z1,
        ) == #[trigger] slot_of(x2, y2, z2) implies x1 == x2 && y1 == y2 && z1 == z2 by {
        assert(y1 == y2) by (nonlinear_arith)
            requires
                x1 < 16 && z1 < 16 && x2 < 16 && z2 < 16,
                x1 + 16 * z1 + 256 * y1 == x2 + 16 * z2 + 256 * y2,
        ;
        assert(z1 == z2) by (nonlinear_arith)
            requires
                x1 < 16 && x2 < 16,
                x1 + 16 * z1 == x2 + 16 * z2,
        ;
    }
    assert forall|s: nat| s < 4096 implies s / 256 < 16 && #[trigger] slot_of(
        s % 16,
        s / 256,
        (s / 16) % 16,
    ) == s by {
        assert(s % 16 + 16 * ((s / 16) % 16) + 256 * (s / 256) == s && s / 256 < 16)
            by (nonlinear_arith)
            requires
                s < 4096,
        ;
    }
}

} // verus!

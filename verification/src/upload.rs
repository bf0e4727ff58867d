//! The layout of the data in GPU buffers.
use crate::arc::scene::InstanceData as ArcInstance;
use crate::arc::segment::GpuSegment;
use crate::number::Real32;
use crate::slug::outline::GpuCurve;
use crate::slug::scene::InstanceData as SlugInstance;
use vstd::prelude::*;

verus! {

/// A record that is laid out in a buffer as 32-bit words.
pub trait Record: Sized {
    /// The words of the record, in the order of the shader's structure.
    spec fn words(&self) -> Seq<u32>;

    /// The number of words of every record of the type.
    spec fn stride() -> nat;

    proof fn law_stride(&self)
        ensures
            self.words().len() == Self::stride(),
    ;

    /// The number of bytes of every record of the type.
    fn byte_stride() -> (r: usize)
        ensures
            r == 4 * Self::stride(),
    ;

    /// Appends the words of the record.
    fn push_words(&self, out: &mut Vec<u32>)
        ensures
            final(out)@ == old(out)@ + self.words(),
    ;
}

pub open spec fn words4(v: [Real32; 4]) -> Seq<u32> {
    seq![v[0].bits, v[1].bits, v[2].bits, v[3].bits]
}

fn push4(v: &[Real32; 4], out: &mut Vec<u32>)
    ensures
        final(out)@ == old(out)@ + words4(*v),
{
    out.push(v[0].bits);
    out.push(v[1].bits);
    out.push(v[2].bits);
    out.push(v[3].bits);
    assert(out@ =~= old(out)@ + words4(*v));
}

impl Record for GpuSegment {
    open spec fn words(&self) -> Seq<u32> {
        seq![self.kind, self.sign.bits, self.direction.bits, self.x_max.bits] + words4(self.param0)
            + words4(self.param1)
    }

    open spec fn stride() -> nat {
        12
    }

    proof fn law_stride(&self) {
    }

    fn byte_stride() -> usize {
        48
    }

    fn push_words(&self, out: &mut Vec<u32>) {
        out.push(self.kind);
        out.push(self.sign.bits);
        out.push(self.direction.bits);
        out.push(self.x_max.bits);
        push4(&self.param0, out);
        push4(&self.param1, out);
        assert(out@ =~= old(out)@ + self.words());
    }
}

impl Record for GpuCurve {
    open spec fn words(&self) -> Seq<u32> {
        words4(self.p12) + words4(self.p3)
    }

    open spec fn stride() -> nat {
        8
    }

    proof fn law_stride(&self) {
    }

    fn byte_stride() -> usize {
        32
    }

    fn push_words(&self, out: &mut Vec<u32>) {
        push4(&self.p12, out);
        push4(&self.p3, out);
        assert(out@ =~= old(out)@ + self.words());
    }
}

/// A band: the index of its first entry and their number.
impl Record for [u32; 2] {
    open spec fn words(&self) -> Seq<u32> {
        seq![self[0], self[1]]
    }

    open spec fn stride() -> nat {
        2
    }

    proof fn law_stride(&self) {
    }

    fn byte_stride() -> usize {
        8
    }

    fn push_words(&self, out: &mut Vec<u32>) {
        out.push(self[0]);
        out.push(self[1]);
        assert(out@ =~= old(out)@ + self.words());
    }
}

/// A box.
impl Record for [Real32; 4] {
    open spec fn words(&self) -> Seq<u32> {
        words4(*self)
    }

    open spec fn stride() -> nat {
        4
    }

    proof fn law_stride(&self) {
    }

    fn byte_stride() -> usize {
        16
    }

    fn push_words(&self, out: &mut Vec<u32>) {
        push4(self, out);
    }
}

/// The number of a curve.
impl Record for u32 {
    open spec fn words(&self) -> Seq<u32> {
        seq![*self]
    }

    open spec fn stride() -> nat {
        1
    }

    proof fn law_stride(&self) {
    }

    fn byte_stride() -> usize {
        4
    }

    fn push_words(&self, out: &mut Vec<u32>) {
        out.push(*self);
        assert(out@ =~= old(out)@ + self.words());
    }
}

impl Record for ArcInstance {
    open spec fn words(&self) -> Seq<u32> {
        seq![self.pos[0].bits, self.pos[1].bits, self.scale.bits, self.band_start] + words4(
            self.color,
        ) + words4(self.bbox)
    }

    open spec fn stride() -> nat {
        12
    }

    proof fn law_stride(&self) {
    }

    fn byte_stride() -> usize {
        48
    }

    fn push_words(&self, out: &mut Vec<u32>) {
        out.push(self.pos[0].bits);
        out.push(self.pos[1].bits);
        out.push(self.scale.bits);
        out.push(self.band_start);
        push4(&self.color, out);
        push4(&self.bbox, out);
        assert(out@ =~= old(out)@ + self.words());
    }
}

impl Record for SlugInstance {
    open spec fn words(&self) -> Seq<u32> {
        seq![self.pos[0].bits, self.pos[1].bits, self.scale.bits, self.glyph_id] + words4(
            self.color,
        )
    }

    open spec fn stride() -> nat {
        8
    }

    proof fn law_stride(&self) {
    }

    fn byte_stride() -> usize {
        32
    }

    fn push_words(&self, out: &mut Vec<u32>) {
        out.push(self.pos[0].bits);
        out.push(self.pos[1].bits);
        out.push(self.scale.bits);
        out.push(self.glyph_id);
        push4(&self.color, out);
        assert(out@ =~= old(out)@ + self.words());
    }
}

/// Where the position of an instance begins, in bytes.
pub const POSITION_AT: u64 = 0;

/// Where the scale of an instance stands.
pub const SCALE_AT: u64 = 8;

/// Where the first band of an instance, or its glyph, stands.
pub const GLYPH_AT: u64 = 12;

/// Where the color of an instance begins.
pub const COLOR_AT: u64 = 16;

/// Where the box of an instance begins.
pub const BOX_AT: u64 = 32;

/// The `n` words from this byte on.
pub open spec fn words_at(words: Seq<u32>, at: u64, n: int) -> Seq<u32> {
    words.subrange(at as int / 4, at as int / 4 + n)
}

/// The fields of an arc instance stand where vertex attributes look for them, and
/// fill the record.
pub proof fn law_arc_fields(instance: ArcInstance)
    ensures
        words_at(instance.words(), POSITION_AT, 2) == seq![
            instance.pos[0].bits,
            instance.pos[1].bits,
        ],
        words_at(instance.words(), SCALE_AT, 1) == seq![instance.scale.bits],
        words_at(instance.words(), GLYPH_AT, 1) == seq![instance.band_start],
        words_at(instance.words(), COLOR_AT, 4) == words4(instance.color),
        words_at(instance.words(), BOX_AT, 4) == words4(instance.bbox),
        BOX_AT + 16 == 4 * ArcInstance::stride(),
{
}

/// The fields of a slug instance stand where vertex attributes look for them, and
/// fill the record.
pub proof fn law_slug_fields(instance: SlugInstance)
    ensures
        words_at(instance.words(), POSITION_AT, 2) == seq![
            instance.pos[0].bits,
            instance.pos[1].bits,
        ],
        words_at(instance.words(), SCALE_AT, 1) == seq![instance.scale.bits],
        words_at(instance.words(), GLYPH_AT, 1) == seq![instance.glyph_id],
        words_at(instance.words(), COLOR_AT, 4) == words4(instance.color),
        COLOR_AT + 16 == 4 * SlugInstance::stride(),
{
}

/// What all instances are drawn with.
#[derive(Copy, Clone)]
pub struct Uniforms {
    pub screen_size: [Real32; 2],
    pub zoom: Real32,
    pub time: Real32,
}

impl Record for Uniforms {
    open spec fn words(&self) -> Seq<u32> {
        seq![self.screen_size[0].bits, self.screen_size[1].bits, self.zoom.bits, self.time.bits]
    }

    open spec fn stride() -> nat {
        4
    }

    proof fn law_stride(&self) {
    }

    fn byte_stride() -> usize {
        16
    }

    fn push_words(&self, out: &mut Vec<u32>) {
        out.push(self.screen_size[0].bits);
        out.push(self.screen_size[1].bits);
        out.push(self.zoom.bits);
        out.push(self.time.bits);
        assert(out@ =~= old(out)@ + self.words());
    }
}

/// The words of the records, one behind the other.
pub open spec fn words_of<T: Record>(records: Seq<T>) -> Seq<u32>
    decreases records.len(),
{
    if records.len() == 0 {
        seq![]
    } else {
        words_of(records.drop_last()) + records.last().words()
    }
}

/// Where word `j` of record `i` stands.
pub open spec fn place_of<T: Record>(i: int, j: int) -> int {
    T::stride() * i + j
}

/// Word `j` of record `i` stands at its place, and there are no other words.
pub proof fn law_record_layout<T: Record>(records: Seq<T>)
    ensures
        words_of(records).len() == place_of::<T>(records.len() as int, 0),
        forall|i: int, j: int|
            0 <= i < records.len() && 0 <= j < T::stride() ==> {
                &&& 0 <= #[trigger] place_of::<T>(i, j) < words_of(records).len()
                &&& words_of(records)[place_of::<T>(i, j)] == records[i].words()[j]
            },
    decreases records.len(),
{
    let s = T::stride() as int;
    if records.len() > 0 {
        let front = records.drop_last();
        let n = front.len() as int;
        law_record_layout(front);
        records.last().law_stride();
        assert(s * n + s == s * (n + 1)) by (nonlinear_arith);
        assert(0 <= s * n) by (nonlinear_arith)
            requires
                0 <= s,
                0 <= n,
        ;
        assert forall|i: int, j: int| 0 <= i < records.len() && 0 <= j < s implies {
            &&& 0 <= #[trigger] place_of::<T>(i, j) < words_of(records).len()
            &&& words_of(records)[place_of::<T>(i, j)] == records[i].words()[j]
        } by {
            if i < n {
                assert(front[i] == records[i]);
                assert(0 <= place_of::<T>(i, j) < words_of(front).len());
            }
        }
    } else {
        assert(s * 0 == 0);
    }
}

/// Byte `k` of a word, counted from the least significant one.
pub open spec fn byte_of(word: u32, k: int) -> u8 {
    (if k == 0 {
        word as int % 0x100
    } else if k == 1 {
        word as int / 0x100 % 0x100
    } else if k == 2 {
        word as int / 0x1_0000 % 0x100
    } else {
        word as int / 0x100_0000
    }) as u8
}

/// The bytes of the words, each word with its least significant byte first or
/// last.
pub open spec fn bytes_of(words: Seq<u32>, least_first: bool) -> Seq<u8> {
    Seq::new(
        4 * words.len(),
        |i: int|
            byte_of(
                words[i / 4],
                if least_first {
                    i % 4
                } else {
                    3 - i % 4
                },
            ),
    )
}

/// `bytemuck::cast_slice` from words to bytes: the memory of the slice, byte by
/// byte, so every word stands in the byte order of the machine. Which of the two
/// orders that is, is not said. A cast to bytes cannot fail.
#[verifier::external_body]
fn cast_words(words: &[u32]) -> (r: &[u8])
    ensures
        r@ == bytes_of(words@, true) || r@ == bytes_of(words@, false),
{
    bytemuck::cast_slice(words)
}

/// The contents of a buffer with these records.
pub fn buffer_bytes<T: Record>(records: &Vec<T>) -> (r: Vec<u8>)
    ensures
        r@ == bytes_of(words_of(records@), true) || r@ == bytes_of(words_of(records@), false),
{
    let words = buffer_words(records);
    let bytes = cast_words(words.as_slice());
    let mut r: Vec<u8> = Vec::new();
    for i in 0..bytes.len()
        invariant
            r@ == bytes@.take(i as int),
    {
        r.push(bytes[i]);
        assert(bytes@.take(i + 1) =~= bytes@.take(i as int).push(bytes@[i as int]));
    }
    assert(bytes@.take(bytes@.len() as int) =~= bytes@);
    r
}

/// The words of these records.
pub fn buffer_words<T: Record>(records: &Vec<T>) -> (r: Vec<u32>)
    ensures
        r@ == words_of(records@),
{
    let mut r: Vec<u32> = Vec::new();
    for i in 0..records.len()
        invariant
            r@ == words_of(records@.take(i as int)),
    {
        assert(records@.take(i + 1).drop_last() =~= records@.take(i as int));
        records[i].push_words(&mut r);
    }
    assert(records@.take(records.len() as int) =~= records@);
    r
}

/// The bytes that the buffers of an arc scene take.
pub fn arc_vram_bytes(segments: usize, bands: usize, instances: usize) -> (r: usize)
    requires
        48 * segments + 8 * bands + 48 * instances <= usize::MAX,
    ensures
        r == 48 * segments + 8 * bands + 48 * instances,
{
    48 * segments + 8 * bands + 48 * instances
}

/// The bytes that the buffers of a slug scene take.
pub fn slug_vram_bytes(
    curves: usize,
    indices: usize,
    boxes: usize,
    bands: usize,
    instances: usize,
) -> (r: usize)
    requires
        32 * curves + 4 * indices + 16 * boxes + 8 * bands + 32 * instances <= usize::MAX,
    ensures
        r == 32 * curves + 4 * indices + 16 * boxes + 8 * bands + 32 * instances,
{
    32 * curves + 4 * indices + 16 * boxes + 8 * bands + 32 * instances
}

/// The length of a buffer, in bytes.
pub open spec fn buffer_len<T: Record>(records: Seq<T>) -> int {
    bytes_of(words_of(records), true).len() as int
}

proof fn lemma_buffer_len<T: Record>(records: Seq<T>, stride: nat)
    requires
        T::stride() == stride,
    ensures
        buffer_len(records) == 4 * (stride * records.len()),
{
    law_record_layout(records);
}

/// The bytes counted for an arc scene are those of its buffers.
pub proof fn law_arc_vram(
    segments: Seq<GpuSegment>,
    bands: Seq<[u32; 2]>,
    instances: Seq<ArcInstance>,
)
    ensures
        buffer_len(segments) + buffer_len(bands) + buffer_len(instances) == 48 * segments.len() + 8
            * bands.len() + 48 * instances.len(),
{
    lemma_buffer_len(segments, 12);
    lemma_buffer_len(bands, 2);
    lemma_buffer_len(instances, 12);
}

/// The bytes counted for a slug scene are those of its buffers.
pub proof fn law_slug_vram(
    curves: Seq<GpuCurve>,
    indices: Seq<u32>,
    boxes: Seq<[Real32; 4]>,
    bands: Seq<[u32; 2]>,
    instances: Seq<SlugInstance>,
)
    ensures
        buffer_len(curves) + buffer_len(indices) + buffer_len(boxes) + buffer_len(bands)
            + buffer_len(instances) == 32 * curves.len() + 4 * indices.len() + 16 * boxes.len() + 8
            * bands.len() + 32 * instances.len(),
{
    lemma_buffer_len(curves, 8);
    lemma_buffer_len(indices, 1);
    lemma_buffer_len(boxes, 4);
    lemma_buffer_len(bands, 2);
    lemma_buffer_len(instances, 8);
}

} // verus!

//! The archive container: metadata paired with a pyramid, framed by a magic
//! number and DEFLATE-compressed on the wire.

use crate::interpolator::InterpolationType;
use crate::quantizator::QuantizationLevel;
use vstd::prelude::*;

verus! {

/// Everything a decoder needs beside the pyramid itself: the dimensions and
/// level count are not recoverable from the raw residual bytes.
#[derive(Clone, Copy, Debug, PartialEq, Eq, Structural)]
pub struct Metadata {
    pub quantization_level: QuantizationLevel,
    pub interpolation: InterpolationType,
    pub width: u32,
    pub height: u32,
    pub scale_level: usize,
}

impl Metadata {
    /// The record invariant: a nonempty image, at least one refinement level,
    /// and dimensions the machine can address. The depth cap keeps every
    /// traversal stride inside 32 bits.
    pub open spec fn valid(&self) -> bool {
        &&& self.width >= 1
        &&& self.height >= 1
        &&& 1 <= self.scale_level <= 31
        &&& self.width * self.height <= usize::MAX
    }
}

/// How the codec fails. Stream-level failures stay with the caller that owns
/// the stream; the codec itself works on in-memory bytes.
#[derive(Clone, Copy, Debug, PartialEq, Eq, Structural)]
pub enum CodecError {
    /// The archive does not start with the magic number.
    FormatError,
    /// The archive is truncated or its fields are malformed.
    SerializationError,
    /// Metadata and pyramid disagree with each other or with the traversal
    /// engine's predicted shape: a caller error, failed fast.
    ContractViolation,
}

} // verus!
// The wire format. Little-endian throughout: a magic word, the metadata with
// fixed-width fields and 32-bit enum tags, then the pyramid — a 64-bit level
// count, and for each level a 64-bit byte count and its raw bytes —
// DEFLATE-compressed. The spec functions below are the format's definition;
// serializer and parser are both proven against them.

verus! {

/// The four bytes of `v`, least significant first.
pub open spec fn le32(v: u32) -> Seq<u8> {
    seq![
        (v % 256) as u8,
        ((v / 256) % 256) as u8,
        ((v / 0x10000) % 256) as u8,
        ((v / 0x1000000) % 256) as u8,
    ]
}

/// The eight bytes of `v`, least significant first.
pub open spec fn le64(v: u64) -> Seq<u8> {
    seq![
        (v % 256) as u8,
        ((v / 256) % 256) as u8,
        ((v / 0x10000) % 256) as u8,
        ((v / 0x1000000) % 256) as u8,
        ((v / 0x100000000) % 256) as u8,
        ((v / 0x10000000000) % 256) as u8,
        ((v / 0x1000000000000) % 256) as u8,
        ((v / 0x100000000000000) % 256) as u8,
    ]
}

/// The value four little-endian bytes spell.
pub open spec fn u32_of_le(b: Seq<u8>) -> u32
    recommends
        b.len() == 4,
{
    (b[0] + b[1] * 0x100 + b[2] * 0x10000 + b[3] * 0x1000000) as u32
}

/// The value eight little-endian bytes spell.
pub open spec fn u64_of_le(b: Seq<u8>) -> u64
    recommends
        b.len() == 8,
{
    (b[0] + b[1] * 0x100 + b[2] * 0x10000 + b[3] * 0x1000000 + b[4] * 0x100000000 + b[5]
        * 0x10000000000 + b[6] * 0x1000000000000 + b[7] * 0x100000000000000) as u64
}

pub proof fn lemma_le32_inverse(v: u32)
    ensures
        u32_of_le(le32(v)) == v,
{
    assert(u32_of_le(le32(v)) == v) by (bit_vector);
}

pub proof fn lemma_le64_inverse(v: u64)
    ensures
        u64_of_le(le64(v)) == v,
{
    assert(u64_of_le(le64(v)) == v) by (bit_vector);
}

} // verus!
verus! {

/// The archive's magic word.
pub const ARCHIVE_MAGIC: u32 = 0xBAADA555;

/// The 32-bit tag a quantization level is stored as.
pub open spec fn quantization_tag(q: QuantizationLevel) -> u32 {
    match q {
        QuantizationLevel::Lossless => 0,
        QuantizationLevel::Low => 1,
        QuantizationLevel::Medium => 2,
        QuantizationLevel::High => 3,
    }
}

/// The 32-bit tag an interpolation kind is stored as.
pub open spec fn interpolation_tag(i: InterpolationType) -> u32 {
    match i {
        InterpolationType::Crossed => 0,
        InterpolationType::Line => 1,
        InterpolationType::Previous => 2,
    }
}

/// The metadata record on the wire: two enum tags, the dimensions, and the
/// level count as a 64-bit value.
pub open spec fn meta_bytes(m: Metadata) -> Seq<u8> {
    le32(quantization_tag(m.quantization_level)) + le32(interpolation_tag(m.interpolation))
        + le32(m.width) + le32(m.height) + le64(m.scale_level as u64)
}

/// The levels on the wire, each a 64-bit byte count followed by its bytes.
pub open spec fn levels_bytes(levels: Seq<Seq<u8>>) -> Seq<u8>
    decreases levels.len(),
{
    if levels.len() == 0 {
        Seq::empty()
    } else {
        le64(levels[0].len() as u64) + levels[0] + levels_bytes(levels.skip(1))
    }
}

/// The pyramid on the wire, before compression.
pub open spec fn pyramid_bytes(p: Seq<Seq<u8>>) -> Seq<u8> {
    le64(p.len() as u64) + levels_bytes(p)
}

/// What DEFLATE at best compression produces for `data`: a fixed function of
/// the input bytes alone.
pub uninterp spec fn deflate_of(data: Seq<u8>) -> Seq<u8>;

/// A whole archive on the wire.
pub open spec fn archive_bytes(m: Metadata, p: Seq<Seq<u8>>) -> Seq<u8> {
    le32(ARCHIVE_MAGIC) + meta_bytes(m) + deflate_of(pyramid_bytes(p))
}

/// The pyramid's counts fit the wire format's 64-bit fields. Every pyramid
/// held in memory satisfies this.
pub open spec fn pyramid_encodable(p: Seq<Seq<u8>>) -> bool {
    &&& p.len() <= u64::MAX
    &&& (forall|l: int| 0 <= l < p.len() ==> (#[trigger] p[l]).len() <= u64::MAX)
}

/// Relies on flate2's `write::DeflateEncoder` with `Compression::best`: it
/// writes the DEFLATE compression of exactly the bytes written to it, a
/// deterministic function of those bytes, and writing into a `Vec` sink
/// cannot fail.
#[verifier::external_body]
fn deflate_compress(data: &Vec<u8>) -> (r: Vec<u8>)
    ensures
        r@ == deflate_of(data@),
{
    let mut encoder = flate2::write::DeflateEncoder::new(
        Vec::new(),
        flate2::Compression::best(),
    );
    std::io::Write::write_all(&mut encoder, data.as_slice()).unwrap();
    encoder.finish().unwrap()
}

/// Relies on flate2's `read::DeflateDecoder`: decompressing a DEFLATE stream
/// yields exactly the bytes that were compressed, and a malformed stream
/// reports an error instead.
#[verifier::external_body]
fn deflate_decompress(data: &Vec<u8>) -> (r: Option<Vec<u8>>)
    ensures
        match r {
            Some(v) => forall|source: Seq<u8>| data@ == deflate_of(source) ==> v@ == source,
            None => forall|source: Seq<u8>| data@ != deflate_of(source),
        },
{
    let mut decoder = flate2::read::DeflateDecoder::new(data.as_slice());
    let mut out = Vec::new();
    match std::io::Read::read_to_end(&mut decoder, &mut out) {
        Ok(_) => Some(out),
        Err(_) => None,
    }
}

/// Append the four little-endian bytes of `v`.
fn push_u32_le(out: &mut Vec<u8>, v: u32)
    ensures
        final(out)@ == old(out)@ + le32(v),
{
    out.push((v % 256) as u8);
    out.push(((v / 256) % 256) as u8);
    out.push(((v / 0x10000) % 256) as u8);
    out.push(((v / 0x1000000) % 256) as u8);
    proof {
        assert(out@ =~= old(out)@ + le32(v));
    }
}

/// Append the eight little-endian bytes of `v`.
fn push_u64_le(out: &mut Vec<u8>, v: u64)
    ensures
        final(out)@ == old(out)@ + le64(v),
{
    out.push((v % 256) as u8);
    out.push(((v / 256) % 256) as u8);
    out.push(((v / 0x10000) % 256) as u8);
    out.push(((v / 0x1000000) % 256) as u8);
    out.push(((v / 0x100000000) % 256) as u8);
    out.push(((v / 0x10000000000) % 256) as u8);
    out.push(((v / 0x1000000000000) % 256) as u8);
    out.push(((v / 0x100000000000000) % 256) as u8);
    proof {
        assert(out@ =~= old(out)@ + le64(v));
    }
}

/// Append a copy of `data`.
fn push_bytes(out: &mut Vec<u8>, data: &Vec<u8>)
    ensures
        final(out)@ == old(out)@ + data@,
{
    let mut j: usize = 0;
    while j < data.len()
        invariant
            j <= data@.len(),
            out@ == old(out)@ + data@.take(j as int),
        decreases data@.len() - j,
    {
        out.push(data[j]);
        proof {
            assert(old(out)@ + data@.take(j as int) + seq![data@[j as int]] =~= old(out)@
                + data@.take(j as int + 1));
        }
        j = j + 1;
    }
    proof {
        assert(data@.take(data@.len() as int) =~= data@);
    }
}

} // verus!
verus! {

/// One metadata record paired with the pyramid it describes: what one encode
/// produces and one decode consumes.
#[derive(Debug)]
pub struct Archive {
    pub metadata: Metadata,
    pub grid: Vec<Vec<u8>>,
}

/// Whether two owned pyramids hold the same bytes.
fn pyramids_equal(a: &Vec<Vec<u8>>, b: &Vec<Vec<u8>>) -> (r: bool)
    ensures
        r == (crate::codec::pyramid_view(a@) == crate::codec::pyramid_view(b@)),
{
    let ghost av = crate::codec::pyramid_view(a@);
    let ghost bv = crate::codec::pyramid_view(b@);
    if a.len() != b.len() {
        proof {
            assert(av.len() != bv.len());
        }
        return false;
    }
    let mut l: usize = 0;
    while l < a.len()
        invariant
            l <= a@.len(),
            a@.len() == b@.len(),
            av == crate::codec::pyramid_view(a@),
            bv == crate::codec::pyramid_view(b@),
            forall|i: int| 0 <= i < l ==> #[trigger] av[i] == bv[i],
        decreases a@.len() - l,
    {
        let left = &a[l];
        let right = &b[l];
        if left.len() != right.len() {
            proof {
                assert(av[l as int].len() != bv[l as int].len());
            }
            return false;
        }
        let mut j: usize = 0;
        while j < left.len()
            invariant
                j <= left@.len(),
                left@.len() == right@.len(),
                0 <= l < av.len(),
                av.len() == bv.len(),
                av == crate::codec::pyramid_view(a@),
                bv == crate::codec::pyramid_view(b@),
                left@ == av[l as int],
                right@ == bv[l as int],
                forall|i: int| 0 <= i < j ==> #[trigger] left@[i] == right@[i],
            decreases left@.len() - j,
        {
            if left[j] != right[j] {
                proof {
                    assert(av[l as int][j as int] != bv[l as int][j as int]);
                }
                return false;
            }
            j = j + 1;
        }
        proof {
            assert(av[l as int] =~= bv[l as int]);
        }
        l = l + 1;
    }
    proof {
        assert(av =~= bv);
    }
    true
}

impl PartialEq for Archive {
    fn eq(&self, other: &Archive) -> (r: bool) {
        self.metadata == other.metadata && pyramids_equal(&self.grid, &other.grid)
    }
}

impl vstd::std_specs::cmp::PartialEqSpecImpl for Archive {
    open spec fn obeys_eq_spec() -> bool {
        true
    }

    open spec fn eq_spec(&self, other: &Archive) -> bool {
        self.metadata == other.metadata && crate::codec::pyramid_view(self.grid@)
            == crate::codec::pyramid_view(other.grid@)
    }
}

impl Archive {
    /// Frame and compress the archive: the magic word, the metadata, then the
    /// DEFLATE-compressed pyramid. The result is the wire format's bytes,
    /// exactly.
    pub fn serialize_to_bytes(&self) -> (r: Vec<u8>)
        ensures
            r@ == archive_bytes(self.metadata, crate::codec::pyramid_view(self.grid@)),
            pyramid_encodable(crate::codec::pyramid_view(self.grid@)),
    {
        let ghost pv = crate::codec::pyramid_view(self.grid@);
        let mut out: Vec<u8> = Vec::new();
        push_u32_le(&mut out, ARCHIVE_MAGIC);
        let quantization_tag_value: u32 = match self.metadata.quantization_level {
            QuantizationLevel::Lossless => 0,
            QuantizationLevel::Low => 1,
            QuantizationLevel::Medium => 2,
            QuantizationLevel::High => 3,
        };
        push_u32_le(&mut out, quantization_tag_value);
        let interpolation_tag_value: u32 = match self.metadata.interpolation {
            InterpolationType::Crossed => 0,
            InterpolationType::Line => 1,
            InterpolationType::Previous => 2,
        };
        push_u32_le(&mut out, interpolation_tag_value);
        push_u32_le(&mut out, self.metadata.width);
        push_u32_le(&mut out, self.metadata.height);
        push_u64_le(&mut out, self.metadata.scale_level as u64);
        proof {
            assert(out@ =~= le32(ARCHIVE_MAGIC) + meta_bytes(self.metadata));
        }

        let mut payload: Vec<u8> = Vec::new();
        push_u64_le(&mut payload, self.grid.len() as u64);
        proof {
            assert(pv.skip(0) =~= pv);
            assert(payload@ =~= le64(pv.len() as u64) + levels_bytes(pv.skip(0)).take(0));
        }
        let mut l: usize = 0;
        while l < self.grid.len()
            invariant
                l <= self.grid@.len(),
                pv == crate::codec::pyramid_view(self.grid@),
                payload@ + levels_bytes(pv.skip(l as int)) == le64(pv.len() as u64)
                    + levels_bytes(pv),
                forall|i: int| 0 <= i < l ==> (#[trigger] pv[i]).len() <= u64::MAX,
            decreases self.grid@.len() - l,
        {
            let level = &self.grid[l];
            push_u64_le(&mut payload, level.len() as u64);
            push_bytes(&mut payload, level);
            proof {
                assert(pv.skip(l as int)[0] == pv[l as int]);
                assert(pv.skip(l as int).skip(1) =~= pv.skip(l as int + 1));
                assert(payload@ + levels_bytes(pv.skip(l as int + 1)) =~= le64(pv.len() as u64)
                    + levels_bytes(pv));
            }
            l = l + 1;
        }
        proof {
            assert(pv.skip(pv.len() as int) =~= Seq::<Seq<u8>>::empty());
            assert(payload@ =~= pyramid_bytes(pv));
        }
        let compressed = deflate_compress(&payload);
        push_bytes(&mut out, &compressed);
        proof {
            assert(out@ =~= archive_bytes(self.metadata, pv));
        }
        out
    }
}

} // verus!
// Parsing: a recursive specification of what a well-formed byte string means,
// an executable parser proven to compute it, and the inverse lemmas that give
// the round trip.

verus! {

/// Parse `count` levels from `b` starting at `pos`: the levels and the
/// position after them, or nothing if the bytes run out.
pub open spec fn parse_levels(b: Seq<u8>, pos: int, count: int) -> Option<(Seq<Seq<u8>>, int)>
    decreases count,
{
    if count <= 0 {
        Some((Seq::empty(), pos))
    } else if pos < 0 || pos + 8 > b.len() {
        None
    } else {
        let n = u64_of_le(b.subrange(pos, pos + 8)) as int;
        if pos + 8 + n > b.len() {
            None
        } else {
            match parse_levels(b, pos + 8 + n, count - 1) {
                Some(rest) => Some((seq![b.subrange(pos + 8, pos + 8 + n)] + rest.0, rest.1)),
                None => None,
            }
        }
    }
}

/// Parse a whole pyramid: the level count, then that many levels. Trailing
/// bytes are ignored, as the streaming format allows.
pub open spec fn parse_pyramid(b: Seq<u8>) -> Option<Seq<Seq<u8>>> {
    if b.len() < 8 {
        None
    } else {
        let count = u64_of_le(b.subrange(0, 8)) as int;
        match parse_levels(b, 8, count) {
            Some(r) => Some(r.0),
            None => None,
        }
    }
}

/// A piece of a byte string that is known to hold `whole` at `pos`.
proof fn lemma_subrange_chunk(b: Seq<u8>, pos: int, whole: Seq<u8>, off: int, part: Seq<u8>)
    requires
        0 <= pos,
        pos + whole.len() <= b.len(),
        b.subrange(pos, pos + whole.len() as int) == whole,
        0 <= off,
        off + part.len() <= whole.len(),
        part == whole.subrange(off, off + part.len() as int),
    ensures
        b.subrange(pos + off, pos + off + part.len() as int) == part,
{
    assert forall|i: int|
        0 <= i < part.len() implies b.subrange(pos + off, pos + off + part.len() as int)[i]
        == part[i] by {
        assert(b.subrange(pos, pos + whole.len() as int)[off + i] == b[pos + off + i]);
        assert(whole.subrange(off, off + part.len() as int)[i] == whole[off + i]);
    }
    assert(b.subrange(pos + off, pos + off + part.len() as int) =~= part);
}

/// Parsing the levels the serializer wrote recovers them exactly, wherever
/// they sit in a larger buffer.
#[verifier::rlimit(100)]
#[verifier::spinoff_prover]
pub proof fn lemma_parse_levels_inverse(b: Seq<u8>, pos: int, p: Seq<Seq<u8>>)
    requires
        pyramid_encodable(p),
        0 <= pos,
        pos + levels_bytes(p).len() <= b.len(),
        b.subrange(pos, pos + levels_bytes(p).len()) == levels_bytes(p),
    ensures
        parse_levels(b, pos, p.len() as int) == Some::<(Seq<Seq<u8>>, int)>(
            (p, pos + levels_bytes(p).len()),
        ),
    decreases p.len(),
{
    if p.len() == 0 {
    } else {
        let lb = levels_bytes(p);
        let rest_lb = levels_bytes(p.skip(1));
        let m = p[0].len() as int;
        assert(lb == le64(p[0].len() as u64) + p[0] + rest_lb);
        assert(le64(p[0].len() as u64) =~= lb.subrange(0, 8));
        lemma_subrange_chunk(b, pos, lb, 0, le64(p[0].len() as u64));
        assert(b.subrange(pos, pos + 8) == le64(p[0].len() as u64));
        lemma_le64_inverse(p[0].len() as u64);
        let n = u64_of_le(b.subrange(pos, pos + 8)) as int;
        assert(n == m);
        assert(p[0] =~= lb.subrange(8, 8 + m));
        lemma_subrange_chunk(b, pos, lb, 8, p[0]);
        assert(b.subrange(pos + 8, pos + 8 + n) == p[0]);
        assert(rest_lb =~= lb.subrange(8 + m, 8 + m + rest_lb.len() as int));
        lemma_subrange_chunk(b, pos, lb, 8 + m, rest_lb);
        assert(b.subrange(pos + 8 + n, pos + 8 + n + rest_lb.len() as int) == rest_lb);
        lemma_parse_levels_inverse(b, pos + 8 + n, p.skip(1));
        assert(seq![p[0]] + p.skip(1) =~= p);
    }
}

/// Parsing what the serializer wrote for a pyramid recovers it exactly.
pub proof fn lemma_parse_pyramid_inverse(p: Seq<Seq<u8>>)
    requires
        pyramid_encodable(p),
    ensures
        parse_pyramid(pyramid_bytes(p)) == Some(p),
{
    let b = pyramid_bytes(p);
    assert(b.subrange(0, 8) =~= le64(p.len() as u64));
    lemma_le64_inverse(p.len() as u64);
    assert(b.subrange(8, 8 + levels_bytes(p).len() as int) =~= levels_bytes(p));
    lemma_parse_levels_inverse(b, 8, p);
}

/// Read four little-endian bytes.
fn read_u32_le(bytes: &Vec<u8>, pos: usize) -> (r: u32)
    requires
        pos + 4 <= bytes@.len(),
    ensures
        r == u32_of_le(bytes@.subrange(pos as int, pos as int + 4)),
{
    let _len = bytes.len();
    (bytes[pos] as u32) + (bytes[pos + 1] as u32) * 0x100 + (bytes[pos + 2] as u32) * 0x10000 + (
    bytes[pos + 3] as u32) * 0x1000000
}

/// Read eight little-endian bytes.
fn read_u64_le(bytes: &Vec<u8>, pos: usize) -> (r: u64)
    requires
        pos + 8 <= bytes@.len(),
    ensures
        r == u64_of_le(bytes@.subrange(pos as int, pos as int + 8)),
{
    let _len = bytes.len();
    (bytes[pos] as u64) + (bytes[pos + 1] as u64) * 0x100 + (bytes[pos + 2] as u64) * 0x10000 + (
    bytes[pos + 3] as u64) * 0x1000000 + (bytes[pos + 4] as u64) * 0x100000000 + (bytes[pos
        + 5] as u64) * 0x10000000000 + (bytes[pos + 6] as u64) * 0x1000000000000 + (bytes[pos
        + 7] as u64) * 0x100000000000000
}

/// Copy `n` bytes starting at `start`.
fn copy_range(bytes: &Vec<u8>, start: usize, n: usize) -> (r: Vec<u8>)
    requires
        start + n <= bytes@.len(),
    ensures
        r@ == bytes@.subrange(start as int, start as int + n as int),
{
    let total = bytes.len();
    let mut out: Vec<u8> = Vec::new();
    let mut j: usize = 0;
    while j < n
        invariant
            j <= n,
            start + n <= bytes@.len(),
            bytes@.len() == total,
            out@ == bytes@.subrange(start as int, start as int + j as int),
        decreases n - j,
    {
        out.push(bytes[start + j]);
        proof {
            assert(out@ =~= bytes@.subrange(start as int, start as int + j as int + 1));
        }
        j = j + 1;
    }
    out
}

} // verus!
verus! {

/// Parse an uncompressed pyramid payload, computing exactly what the
/// specification parser means.
fn parse_pyramid_bytes(payload: &Vec<u8>) -> (r: Option<Vec<Vec<u8>>>)
    ensures
        match r {
            Some(grid) => parse_pyramid(payload@) == Some(crate::codec::pyramid_view(grid@)),
            None => parse_pyramid(payload@) is None,
        },
{
    let total = payload.len();
    if total < 8 {
        return None;
    }
    let count = read_u64_le(payload, 0);
    proof {
        assert(payload@.subrange(0, 8) =~= payload@.subrange(0int, 0int + 8));
    }
    let mut grid: Vec<Vec<u8>> = Vec::new();
    let mut pos: usize = 8;
    let mut k: u64 = 0;
    let ghost whole = parse_levels(payload@, 8, count as int);
    proof {
        assert(crate::codec::pyramid_view(grid@) =~= Seq::<Seq<u8>>::empty());
    }
    while k < count
        invariant
            8 <= pos <= payload@.len(),
            payload@.len() == total,
            k <= count,
            whole == parse_levels(payload@, 8, count as int),
            payload@.len() >= 8,
            count == u64_of_le(payload@.subrange(0, 8)),
            ({
                match parse_levels(payload@, pos as int, (count - k) as int) {
                    Some(rest) => whole == Some::<(Seq<Seq<u8>>, int)>(
                        (crate::codec::pyramid_view(grid@) + rest.0, rest.1),
                    ),
                    None => whole is None,
                }
            }),
        decreases count - k,
    {
        let ghost grid_before = crate::codec::pyramid_view(grid@);
        if total - pos < 8 {
            proof {
                assert(parse_levels(payload@, pos as int, (count - k) as int) is None);
                assert(parse_pyramid(payload@) is None);
            }
            return None;
        }
        let n64 = read_u64_le(payload, pos);
        if n64 > (total - pos - 8) as u64 {
            proof {
                assert(parse_levels(payload@, pos as int, (count - k) as int) is None);
                assert(parse_pyramid(payload@) is None);
            }
            return None;
        }
        let n = n64 as usize;
        let level = copy_range(payload, pos + 8, n);
        grid.push(level);
        proof {
            let rem = parse_levels(payload@, pos as int, (count - k) as int);
            let after = parse_levels(
                payload@,
                pos as int + 8 + n as int,
                (count - k) as int - 1,
            );
            let chunk = payload@.subrange(pos as int + 8, pos as int + 8 + n as int);
            assert(crate::codec::pyramid_view(grid@) =~= grid_before + seq![chunk]);
            if after is Some {
                assert(rem matches Some(x) && x == (
                    seq![chunk] + after.unwrap().0,
                    after.unwrap().1,
                ));
                assert(grid_before + (seq![chunk] + after.unwrap().0)
                    =~= crate::codec::pyramid_view(grid@) + after.unwrap().0);
            } else {
                assert(rem is None);
            }
        }
        pos = pos + 8 + n;
        k = k + 1;
    }
    proof {
        assert(crate::codec::pyramid_view(grid@) + Seq::<Seq<u8>>::empty()
            =~= crate::codec::pyramid_view(grid@));
        assert(parse_pyramid(payload@) == Some(crate::codec::pyramid_view(grid@)));
    }
    Some(grid)
}

} // verus!
verus! {

/// What the serializer's framing pins down about any archive's bytes.
proof fn lemma_archive_prefix(m: Metadata, p: Seq<Seq<u8>>, b: Seq<u8>)
    requires
        b == archive_bytes(m, p),
    ensures
        b.len() >= 28,
        b.subrange(0, 4) == le32(ARCHIVE_MAGIC),
        b.subrange(4, 8) == le32(quantization_tag(m.quantization_level)),
        b.subrange(8, 12) == le32(interpolation_tag(m.interpolation)),
        b.subrange(12, 16) == le32(m.width),
        b.subrange(16, 20) == le32(m.height),
        b.subrange(20, 28) == le64(m.scale_level as u64),
        b.subrange(28, b.len() as int) == deflate_of(pyramid_bytes(p)),
{
    assert(b.subrange(0, 4) =~= le32(ARCHIVE_MAGIC));
    assert(b.subrange(4, 8) =~= le32(quantization_tag(m.quantization_level)));
    assert(b.subrange(8, 12) =~= le32(interpolation_tag(m.interpolation)));
    assert(b.subrange(12, 16) =~= le32(m.width));
    assert(b.subrange(16, 20) =~= le32(m.height));
    assert(b.subrange(20, 28) =~= le64(m.scale_level as u64));
    assert(b.subrange(28, b.len() as int) =~= deflate_of(pyramid_bytes(p)));
}

impl Archive {
    /// Check the magic word, decode the metadata, decompress and parse the
    /// pyramid. Succeeds on exactly the bytes the serializer writes; a
    /// wrong magic word is a format error no matter what follows it, and a
    /// format error arises no other way. Any other malformed input — too
    /// short, an impossible enum tag, a depth that does not fit, a payload
    /// the decompressor or the pyramid parser rejects — is a serialization
    /// error, never a contract violation and never a best-effort archive.
    /// On success the 28-byte header is pinned to the returned metadata; the
    /// decompressed payload is not pinned for inputs the serializer never
    /// produces, because the decompressor's result is only specified on
    /// images of the compressor.
    pub fn deserialize_from_bytes(bytes: &Vec<u8>) -> (r: Result<Archive, CodecError>)
        ensures
            forall|m: Metadata, p: Seq<Seq<u8>>|
                bytes@ == #[trigger] archive_bytes(m, p) && pyramid_encodable(p) ==> (r matches Ok(
                    a,
                ) && a.metadata == m && crate::codec::pyramid_view(a.grid@) == p),
            bytes@.len() >= 4 ==> ((r matches Err(e) && e == CodecError::FormatError) <==> u32_of_le(
                bytes@.subrange(0, 4),
            ) != ARCHIVE_MAGIC),
            bytes@.len() < 4 ==> (r matches Err(e) && e == CodecError::SerializationError),
            r matches Err(e) ==> (e == CodecError::FormatError || e
                == CodecError::SerializationError),
            r matches Ok(a) ==> ({
                &&& bytes@.len() >= 28
                &&& u32_of_le(bytes@.subrange(0, 4)) == ARCHIVE_MAGIC
                &&& u32_of_le(bytes@.subrange(4, 8)) == quantization_tag(
                    a.metadata.quantization_level,
                )
                &&& u32_of_le(bytes@.subrange(8, 12)) == interpolation_tag(
                    a.metadata.interpolation,
                )
                &&& u32_of_le(bytes@.subrange(12, 16)) == a.metadata.width
                &&& u32_of_le(bytes@.subrange(16, 20)) == a.metadata.height
                &&& u64_of_le(bytes@.subrange(20, 28)) == a.metadata.scale_level as u64
            }),
    {
        let total = bytes.len();
        if total < 4 {
            proof {
                assert forall|m: Metadata, p: Seq<Seq<u8>>|
                    bytes@ == #[trigger] archive_bytes(m, p) && pyramid_encodable(p) implies false by {
                    lemma_archive_prefix(m, p, bytes@);
                }
            }
            return Err(CodecError::SerializationError);
        }
        let magic = read_u32_le(bytes, 0);
        proof {
            assert(bytes@.subrange(0, 4) =~= bytes@.subrange(0int, 0int + 4));
        }
        if magic != ARCHIVE_MAGIC {
            proof {
                lemma_le32_inverse(ARCHIVE_MAGIC);
                assert forall|m: Metadata, p: Seq<Seq<u8>>|
                    bytes@ == #[trigger] archive_bytes(m, p) && pyramid_encodable(p) implies false by {
                    lemma_archive_prefix(m, p, bytes@);
                }
            }
            return Err(CodecError::FormatError);
        }
        proof {
            lemma_le32_inverse(ARCHIVE_MAGIC);
        }
        if total < 28 {
            proof {
                assert forall|m: Metadata, p: Seq<Seq<u8>>|
                    bytes@ == #[trigger] archive_bytes(m, p) && pyramid_encodable(p) implies false by {
                    lemma_archive_prefix(m, p, bytes@);
                }
            }
            return Err(CodecError::SerializationError);
        }
        let quantization_value = read_u32_le(bytes, 4);
        let interpolation_value = read_u32_le(bytes, 8);
        let width = read_u32_le(bytes, 12);
        let height = read_u32_le(bytes, 16);
        let scale64 = read_u64_le(bytes, 20);
        let quantization_level: QuantizationLevel = match quantization_value {
            0 => QuantizationLevel::Lossless,
            1 => QuantizationLevel::Low,
            2 => QuantizationLevel::Medium,
            3 => QuantizationLevel::High,
            _ => {
                proof {
                    assert forall|m: Metadata, p: Seq<Seq<u8>>|
                        bytes@ == #[trigger] archive_bytes(m, p) && pyramid_encodable(
                            p,
                        ) implies false by {
                        lemma_archive_prefix(m, p, bytes@);
                        lemma_le32_inverse(quantization_tag(m.quantization_level));
                    }
                }
                return Err(CodecError::SerializationError);
            },
        };
        let interpolation: InterpolationType = match interpolation_value {
            0 => InterpolationType::Crossed,
            1 => InterpolationType::Line,
            2 => InterpolationType::Previous,
            _ => {
                proof {
                    assert forall|m: Metadata, p: Seq<Seq<u8>>|
                        bytes@ == #[trigger] archive_bytes(m, p) && pyramid_encodable(
                            p,
                        ) implies false by {
                        lemma_archive_prefix(m, p, bytes@);
                        lemma_le32_inverse(interpolation_tag(m.interpolation));
                    }
                }
                return Err(CodecError::SerializationError);
            },
        };
        if scale64 > usize::MAX as u64 {
            proof {
                assert forall|m: Metadata, p: Seq<Seq<u8>>|
                    bytes@ == #[trigger] archive_bytes(m, p) && pyramid_encodable(p) implies false by {
                    lemma_archive_prefix(m, p, bytes@);
                    lemma_le64_inverse(m.scale_level as u64);
                }
            }
            return Err(CodecError::SerializationError);
        }
        let scale_level = scale64 as usize;
        let rest = copy_range(bytes, 28, total - 28);
        let decompressed = deflate_decompress(&rest);
        let payload = match decompressed {
            Some(payload) => payload,
            None => {
                proof {
                    assert forall|m: Metadata, p: Seq<Seq<u8>>|
                        bytes@ == #[trigger] archive_bytes(m, p) && pyramid_encodable(
                            p,
                        ) implies false by {
                        lemma_archive_prefix(m, p, bytes@);
                        assert(rest@ == deflate_of(pyramid_bytes(p)));
                    }
                }
                return Err(CodecError::SerializationError);
            },
        };
        let parsed = parse_pyramid_bytes(&payload);
        let grid = match parsed {
            Some(grid) => grid,
            None => {
                proof {
                    assert forall|m: Metadata, p: Seq<Seq<u8>>|
                        bytes@ == #[trigger] archive_bytes(m, p) && pyramid_encodable(
                            p,
                        ) implies false by {
                        lemma_archive_prefix(m, p, bytes@);
                        assert(rest@ == deflate_of(pyramid_bytes(p)));
                        assert(payload@ == pyramid_bytes(p));
                        lemma_parse_pyramid_inverse(p);
                    }
                }
                return Err(CodecError::SerializationError);
            },
        };
        let metadata = Metadata { quantization_level, interpolation, width, height, scale_level };
        let result = Archive { metadata, grid };
        proof {
            assert forall|m: Metadata, p: Seq<Seq<u8>>|
                bytes@ == #[trigger] archive_bytes(m, p) && pyramid_encodable(
                    p,
                ) implies result.metadata == m && crate::codec::pyramid_view(result.grid@)
                == p by {
                lemma_archive_prefix(m, p, bytes@);
                lemma_le32_inverse(quantization_tag(m.quantization_level));
                lemma_le32_inverse(interpolation_tag(m.interpolation));
                lemma_le32_inverse(m.width);
                lemma_le32_inverse(m.height);
                lemma_le64_inverse(m.scale_level as u64);
                assert(rest@ == deflate_of(pyramid_bytes(p)));
                assert(payload@ == pyramid_bytes(p));
                lemma_parse_pyramid_inverse(p);
                assert(parse_pyramid(payload@) == Some(p));
                assert(crate::codec::pyramid_view(result.grid@) == p);
                assert(quantization_value == quantization_tag(m.quantization_level));
                assert(quantization_level == m.quantization_level);
                assert(interpolation == m.interpolation);
                assert(width == m.width);
                assert(height == m.height);
                assert(scale_level == m.scale_level);
            }
        }
        Ok(result)
    }
}

} // verus!

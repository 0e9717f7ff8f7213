//! The mathematical model of encoding and decoding: what one visited pixel
//! contributes, how a whole level folds over its traversal, and how levels
//! chain. The executable encoder and decoder each prove they compute exactly
//! these functions, so their agreement — and the codec's error bound — are
//! facts about this model.

use crate::interpolator::Interpolator;
use crate::quantizator::Quantizator;
use crate::traversal::{base_coords, level_coords};
use crate::grid::zero_seq;
use vstd::prelude::*;
use vstd::wrapping::u8_specs;

verus! {

/// Whether the plain sum of two bytes leaves the byte range: the wrap class
/// of a residual addition.
pub open spec fn add_wraps(a: u8, b: u8) -> bool {
    a + b > 255
}

/// The residual byte the encoder stores for one visited pixel: the quantized
/// wrapped difference, unless quantization would change the wrap class of
/// the reconstruction — then the raw difference is kept, so that encoder and
/// decoder never diverge.
pub open spec fn stored_residual<Q: Quantizator>(qz: Q, actual: u8, prediction: u8) -> u8 {
    let diff = u8_specs::wrapping_sub(actual, prediction);
    let quantized = qz.spec_quantize(diff);
    if add_wraps(prediction, quantized) != add_wraps(prediction, diff) {
        diff
    } else {
        quantized
    }
}

/// One level of encoding, folding over the level's coordinates: returns the
/// residual bytes stored and the surface after the level, where each visit
/// writes back exactly the value the decoder will reconstruct.
pub open spec fn encode_level<I: Interpolator, Q: Quantizator>(
    ip: I,
    qz: Q,
    img: Seq<u8>,
    s: Seq<u8>,
    coords: Seq<(u32, u32)>,
    levels: int,
    level: int,
    width: u32,
    height: u32,
) -> (Seq<u8>, Seq<u8>)
    decreases coords.len(),
{
    if coords.len() == 0 {
        (Seq::empty(), s)
    } else {
        let c = coords[0];
        let idx = c.1 * width + c.0;
        let prediction = ip.spec_interpolate(levels, level + 1, c.0, c.1, s, width, height);
        let stored = stored_residual(qz, img[idx], prediction);
        let s2 = s.update(idx, u8_specs::wrapping_add(prediction, stored));
        let rest = encode_level(ip, qz, img, s2, coords.skip(1), levels, level, width, height);
        (seq![stored] + rest.0, rest.1)
    }
}

/// One level of decoding: consume one residual byte per coordinate, in the
/// same order, writing prediction plus residual back into the surface.
pub open spec fn decode_level<I: Interpolator>(
    ip: I,
    residuals: Seq<u8>,
    s: Seq<u8>,
    coords: Seq<(u32, u32)>,
    levels: int,
    level: int,
    width: u32,
    height: u32,
) -> Seq<u8>
    decreases coords.len(),
{
    if coords.len() == 0 {
        s
    } else {
        let c = coords[0];
        let idx = c.1 * width + c.0;
        let prediction = ip.spec_interpolate(levels, level + 1, c.0, c.1, s, width, height);
        let s2 = s.update(idx, u8_specs::wrapping_add(prediction, residuals[0]));
        decode_level(ip, residuals.skip(1), s2, coords.skip(1), levels, level, width, height)
    }
}

/// Write `vals` into the surface at `coords`, in order.
pub open spec fn write_values(
    s: Seq<u8>,
    coords: Seq<(u32, u32)>,
    vals: Seq<u8>,
    width: u32,
) -> Seq<u8>
    decreases coords.len(),
{
    if coords.len() == 0 {
        s
    } else {
        let c = coords[0];
        write_values(s.update(c.1 * width + c.0, vals[0]), coords.skip(1), vals.skip(1), width)
    }
}

/// The bytes of the coarsest level: the source pixels at its coordinates.
pub open spec fn base_values(img: Seq<u8>, coords: Seq<(u32, u32)>, width: u32) -> Seq<u8> {
    coords.map_values(|c: (u32, u32)| img[c.1 * width + c.0])
}

/// Encoding from refinement level `level` up: the residual levels produced
/// and the final surface.
pub open spec fn encode_levels<I: Interpolator, Q: Quantizator>(
    ip: I,
    qz: Q,
    img: Seq<u8>,
    s: Seq<u8>,
    level: int,
    levels: int,
    width: u32,
    height: u32,
) -> (Seq<Seq<u8>>, Seq<u8>)
    decreases levels - level,
{
    if level < 0 || level >= levels {
        (Seq::empty(), s)
    } else {
        let coords = level_coords(levels as nat, level as nat, width, height);
        let one = encode_level(ip, qz, img, s, coords, levels, level, width, height);
        let rest = encode_levels(ip, qz, img, one.1, level + 1, levels, width, height);
        (seq![one.0] + rest.0, rest.1)
    }
}

/// The whole encode: the pyramid (coarsest level first) and the surface the
/// encoder — and therefore the decoder — ends with.
pub open spec fn encode_spec<I: Interpolator, Q: Quantizator>(
    ip: I,
    qz: Q,
    img: Seq<u8>,
    levels: nat,
    width: u32,
    height: u32,
) -> (Seq<Seq<u8>>, Seq<u8>) {
    let base = base_coords(levels, width, height);
    let vals = base_values(img, base, width);
    let s0 = write_values(zero_seq((width * height) as nat), base, vals, width);
    let rest = encode_levels(ip, qz, img, s0, 0, levels as int, width, height);
    (seq![vals] + rest.0, rest.1)
}

/// Decoding from refinement level `level` up.
pub open spec fn decode_levels<I: Interpolator>(
    ip: I,
    pyramid: Seq<Seq<u8>>,
    s: Seq<u8>,
    level: int,
    levels: int,
    width: u32,
    height: u32,
) -> Seq<u8>
    decreases levels - level,
{
    if level < 0 || level >= levels {
        s
    } else {
        let coords = level_coords(levels as nat, level as nat, width, height);
        let s2 = decode_level(ip, pyramid[level + 1], s, coords, levels, level, width, height);
        decode_levels(ip, pyramid, s2, level + 1, levels, width, height)
    }
}

/// The whole decode: replay the coarsest level, then every refinement level
/// in the encoder's order.
pub open spec fn decode_spec<I: Interpolator>(
    ip: I,
    pyramid: Seq<Seq<u8>>,
    levels: nat,
    width: u32,
    height: u32,
) -> Seq<u8> {
    let base = base_coords(levels, width, height);
    let s0 = write_values(zero_seq((width * height) as nat), base, pyramid[0], width);
    decode_levels(ip, pyramid, s0, 0, levels as int, width, height)
}

/// A pyramid has the shape the traversal engine predicts: one level per
/// refinement step plus the coarsest, each exactly as long as its visit
/// count.
pub open spec fn pyramid_shape_ok(
    pyramid: Seq<Seq<u8>>,
    levels: nat,
    width: u32,
    height: u32,
) -> bool {
    &&& pyramid.len() == levels + 1
    &&& pyramid[0].len() == base_coords(levels, width, height).len()
    &&& (forall|l: int|
        0 <= l < levels ==> (#[trigger] pyramid[l + 1]).len() == level_coords(
            levels,
            l as nat,
            width,
            height,
        ).len())
}

/// The view of an owned pyramid.
pub open spec fn pyramid_view(pyramid: Seq<Vec<u8>>) -> Seq<Seq<u8>> {
    pyramid.map_values(|level: Vec<u8>| level@)
}

} // verus!
// Shape facts: each level of the model is exactly as long as its traversal.

verus! {

/// One encoded level stores exactly one byte per visited coordinate.
pub proof fn lemma_encode_level_len<I: Interpolator, Q: Quantizator>(
    ip: I,
    qz: Q,
    img: Seq<u8>,
    s: Seq<u8>,
    coords: Seq<(u32, u32)>,
    levels: int,
    level: int,
    width: u32,
    height: u32,
)
    ensures
        encode_level(ip, qz, img, s, coords, levels, level, width, height).0.len()
            == coords.len(),
    decreases coords.len(),
{
    if coords.len() > 0 {
        let c = coords[0];
        let idx = c.1 * width + c.0;
        let prediction = ip.spec_interpolate(levels, level + 1, c.0, c.1, s, width, height);
        let stored = stored_residual(qz, img[idx], prediction);
        let s2 = s.update(idx, u8_specs::wrapping_add(prediction, stored));
        lemma_encode_level_len(ip, qz, img, s2, coords.skip(1), levels, level, width, height);
    }
}

/// Encoding from `level` up yields one residual level per refinement step,
/// each as long as that step's traversal.
pub proof fn lemma_encode_levels_shape<I: Interpolator, Q: Quantizator>(
    ip: I,
    qz: Q,
    img: Seq<u8>,
    s: Seq<u8>,
    level: int,
    levels: int,
    width: u32,
    height: u32,
)
    requires
        0 <= level <= levels,
    ensures
        encode_levels(ip, qz, img, s, level, levels, width, height).0.len() == levels - level,
        forall|k: int|
            0 <= k < levels - level ==> (#[trigger] encode_levels(
                ip,
                qz,
                img,
                s,
                level,
                levels,
                width,
                height,
            ).0[k]).len() == level_coords(levels as nat, (level + k) as nat, width, height).len(),
    decreases levels - level,
{
    if level < levels {
        let coords = level_coords(levels as nat, level as nat, width, height);
        let one = encode_level(ip, qz, img, s, coords, levels, level, width, height);
        lemma_encode_level_len(ip, qz, img, s, coords, levels, level, width, height);
        lemma_encode_levels_shape(ip, qz, img, one.1, level + 1, levels, width, height);
        let whole = encode_levels(ip, qz, img, s, level, levels, width, height);
        let rest = encode_levels(ip, qz, img, one.1, level + 1, levels, width, height);
        assert forall|k: int| 0 <= k < levels - level implies (#[trigger] whole.0[k]).len()
            == level_coords(levels as nat, (level + k) as nat, width, height).len() by {
            if k >= 1 {
                assert(whole.0[k] == rest.0[k - 1]);
            }
        }
    }
}

/// What the encoder emits has the shape the traversal engine predicts.
pub proof fn lemma_encode_spec_shape<I: Interpolator, Q: Quantizator>(
    ip: I,
    qz: Q,
    img: Seq<u8>,
    levels: nat,
    width: u32,
    height: u32,
)
    ensures
        pyramid_shape_ok(
            encode_spec(ip, qz, img, levels, width, height).0,
            levels,
            width,
            height,
        ),
{
    let base = base_coords(levels, width, height);
    let vals = base_values(img, base, width);
    let s0 = write_values(zero_seq((width * height) as nat), base, vals, width);
    lemma_encode_levels_shape(ip, qz, img, s0, 0, levels as int, width, height);
    let whole = encode_spec(ip, qz, img, levels, width, height);
    let rest = encode_levels(ip, qz, img, s0, 0, levels as int, width, height);
    assert forall|l: int| 0 <= l < levels implies (#[trigger] whole.0[l + 1]).len()
        == level_coords(levels, l as nat, width, height).len() by {
        assert(whole.0[l + 1] == rest.0[l]);
    }
}

} // verus!
// Agreement: the decoder replays the encoder's surface exactly, level by
// level, because both write the same value at the same coordinate from
// identical surfaces.

verus! {

/// The row-major index a coordinate writes to.
pub open spec fn c_idx(c: (u32, u32), width: u32) -> int {
    c.1 * width + c.0
}

/// Decoding the residuals a level produced, from the same surface the
/// encoder started that level with, yields the encoder's surface.
pub proof fn lemma_level_agreement<I: Interpolator, Q: Quantizator>(
    ip: I,
    qz: Q,
    img: Seq<u8>,
    s: Seq<u8>,
    coords: Seq<(u32, u32)>,
    levels: int,
    level: int,
    width: u32,
    height: u32,
)
    ensures
        decode_level(
            ip,
            encode_level(ip, qz, img, s, coords, levels, level, width, height).0,
            s,
            coords,
            levels,
            level,
            width,
            height,
        ) == encode_level(ip, qz, img, s, coords, levels, level, width, height).1,
    decreases coords.len(),
{
    if coords.len() > 0 {
        let c = coords[0];
        let idx = c.1 * width + c.0;
        let pred = ip.spec_interpolate(levels, level + 1, c.0, c.1, s, width, height);
        let stored = stored_residual(qz, img[idx], pred);
        let s2 = s.update(idx, u8_specs::wrapping_add(pred, stored));
        let encr = encode_level(ip, qz, img, s2, coords.skip(1), levels, level, width, height);
        lemma_level_agreement(ip, qz, img, s2, coords.skip(1), levels, level, width, height);
        assert((seq![stored] + encr.0)[0] == stored);
        assert((seq![stored] + encr.0).skip(1) =~= encr.0);
    }
}

/// Decoding level by level reproduces the encoder's surface, provided the
/// pyramid holds exactly the residual levels the encoder produced from the
/// same starting surface.
pub proof fn lemma_levels_agreement<I: Interpolator, Q: Quantizator>(
    ip: I,
    qz: Q,
    img: Seq<u8>,
    pyramid: Seq<Seq<u8>>,
    s: Seq<u8>,
    level: int,
    levels: int,
    width: u32,
    height: u32,
)
    requires
        0 <= level <= levels,
        forall|l: int|
            level <= l < levels ==> #[trigger] pyramid[l + 1] == encode_levels(
                ip,
                qz,
                img,
                s,
                level,
                levels,
                width,
                height,
            ).0[l - level],
    ensures
        decode_levels(ip, pyramid, s, level, levels, width, height) == encode_levels(
            ip,
            qz,
            img,
            s,
            level,
            levels,
            width,
            height,
        ).1,
    decreases levels - level,
{
    if level < levels {
        let coords = level_coords(levels as nat, level as nat, width, height);
        let one = encode_level(ip, qz, img, s, coords, levels, level, width, height);
        let rest = encode_levels(ip, qz, img, one.1, level + 1, levels, width, height);
        lemma_encode_levels_shape(ip, qz, img, s, level, levels, width, height);
        lemma_encode_levels_shape(ip, qz, img, one.1, level + 1, levels, width, height);
        assert(pyramid[level + 1] == (seq![one.0] + rest.0)[0]);
        assert(pyramid[level + 1] == one.0);
        lemma_level_agreement(ip, qz, img, s, coords, levels, level, width, height);
        assert(decode_level(ip, pyramid[level + 1], s, coords, levels, level, width, height)
            == one.1);
        assert forall|l: int| level + 1 <= l < levels implies #[trigger] pyramid[l + 1]
            == encode_levels(ip, qz, img, one.1, level + 1, levels, width, height).0[l - level
            - 1] by {
            assert(pyramid[l + 1] == (seq![one.0] + rest.0)[l - level]);
            assert((seq![one.0] + rest.0)[l - level] == rest.0[l - level - 1]);
        }
        lemma_levels_agreement(ip, qz, img, pyramid, one.1, level + 1, levels, width, height);
    }
}

/// Law: decoding what the encoder produced reproduces the encoder's final
/// surface — the two passes stay bit-for-bit synchronized.
pub proof fn lemma_decode_matches_encode<I: Interpolator, Q: Quantizator>(
    ip: I,
    qz: Q,
    img: Seq<u8>,
    levels: nat,
    width: u32,
    height: u32,
)
    ensures
        decode_spec(ip, encode_spec(ip, qz, img, levels, width, height).0, levels, width, height)
            == encode_spec(ip, qz, img, levels, width, height).1,
{
    let base = base_coords(levels, width, height);
    let vals = base_values(img, base, width);
    let s0 = write_values(zero_seq((width * height) as nat), base, vals, width);
    let enc = encode_levels(ip, qz, img, s0, 0, levels as int, width, height);
    let pyr = encode_spec(ip, qz, img, levels, width, height).0;
    lemma_encode_levels_shape(ip, qz, img, s0, 0, levels as int, width, height);
    assert(pyr[0] == (seq![vals] + enc.0)[0]);
    assert(pyr[0] == vals);
    assert forall|l: int| 0 <= l < levels implies #[trigger] pyr[l + 1] == encode_levels(
        ip,
        qz,
        img,
        s0,
        0,
        levels as int,
        width,
        height,
    ).0[l - 0] by {
        assert(pyr[l + 1] == (seq![vals] + enc.0)[l + 1]);
        assert((seq![vals] + enc.0)[l + 1] == enc.0[l]);
    }
    lemma_levels_agreement(ip, qz, img, pyr, s0, 0, levels as int, width, height);
}

} // verus!
// The error bound: every value the encoder writes back — and therefore every
// value the decoder reconstructs — stays within the quantizer's bound of the
// source pixel.

verus! {

/// Two bytes within `e` of each other.
pub open spec fn byte_close(a: u8, b: u8, e: u8) -> bool {
    a <= b + e && b <= a + e
}

/// One reconstruction step is close: prediction plus stored residual lands
/// within the quantizer's bound of the actual pixel, and exactly on it for a
/// lossless quantizer. This is where the wrap-class rule earns its keep: it
/// makes the wrapped sums comparable as plain integers.
pub proof fn lemma_step_close<Q: Quantizator>(qz: Q, actual: u8, prediction: u8)
    requires
        qz.wf(),
    ensures
        byte_close(
            u8_specs::wrapping_add(prediction, stored_residual(qz, actual, prediction)),
            actual,
            qz.spec_error(),
        ),
        qz.spec_error() == 0 ==> u8_specs::wrapping_add(
            prediction,
            stored_residual(qz, actual, prediction),
        ) == actual,
{
    let diff = u8_specs::wrapping_sub(actual, prediction);
    qz.lemma_quantize_bounded(diff);
}

/// After one encoded level, every pixel is either untouched or close to the
/// source, and every pixel the level visited is close.
pub proof fn lemma_encode_level_close<I: Interpolator, Q: Quantizator>(
    ip: I,
    qz: Q,
    img: Seq<u8>,
    s: Seq<u8>,
    coords: Seq<(u32, u32)>,
    levels: int,
    level: int,
    width: u32,
    height: u32,
)
    requires
        qz.wf(),
        img.len() == width * height,
        s.len() == img.len(),
        forall|k: int|
            0 <= k < coords.len() ==> (#[trigger] coords[k]).0 < width && coords[k].1 < height,
    ensures
        ({
            let s2 = encode_level(ip, qz, img, s, coords, levels, level, width, height).1;
            &&& s2.len() == s.len()
            &&& (forall|k: int|
                0 <= k < s.len() ==> #[trigger] s2[k] == s[k] || byte_close(
                    s2[k],
                    img[k],
                    qz.spec_error(),
                ))
            &&& (forall|k: int|
                0 <= k < coords.len() ==> byte_close(
                    s2[c_idx(#[trigger] coords[k], width)],
                    img[c_idx(coords[k], width)],
                    qz.spec_error(),
                ))
        }),
    decreases coords.len(),
{
    if coords.len() > 0 {
        let c = coords[0];
        let idx = c.1 * width + c.0;
        crate::grid::lemma_pix_index_bounds(width, height, c.0, c.1);
        let pred = ip.spec_interpolate(levels, level + 1, c.0, c.1, s, width, height);
        let stored = stored_residual(qz, img[idx], pred);
        let s1 = s.update(idx, u8_specs::wrapping_add(pred, stored));
        lemma_step_close(qz, img[idx], pred);
        lemma_encode_level_close(
            ip,
            qz,
            img,
            s1,
            coords.skip(1),
            levels,
            level,
            width,
            height,
        );
        let s2 = encode_level(ip, qz, img, s, coords, levels, level, width, height).1;
        assert(s2 == encode_level(
            ip,
            qz,
            img,
            s1,
            coords.skip(1),
            levels,
            level,
            width,
            height,
        ).1);
        assert forall|k: int|
            0 <= k < coords.len() implies byte_close(
            s2[c_idx(#[trigger] coords[k], width)],
            img[c_idx(coords[k], width)],
            qz.spec_error(),
        ) by {
            if k == 0 {
                assert(byte_close(s1[idx], img[idx], qz.spec_error()));
                assert(s2[idx] == s1[idx] || byte_close(s2[idx], img[idx], qz.spec_error()));
            } else {
                assert(coords[k] == coords.skip(1)[k - 1]);
            }
        }
    }
}

/// After encoding from `level` up: every pixel is either untouched or close,
/// and every pixel any of those levels visits is close.
pub proof fn lemma_encode_levels_close<I: Interpolator, Q: Quantizator>(
    ip: I,
    qz: Q,
    img: Seq<u8>,
    s: Seq<u8>,
    level: int,
    levels: int,
    width: u32,
    height: u32,
)
    requires
        qz.wf(),
        img.len() == width * height,
        s.len() == img.len(),
        0 <= level <= levels,
    ensures
        ({
            let s2 = encode_levels(ip, qz, img, s, level, levels, width, height).1;
            &&& s2.len() == s.len()
            &&& (forall|k: int|
                0 <= k < s.len() ==> #[trigger] s2[k] == s[k] || byte_close(
                    s2[k],
                    img[k],
                    qz.spec_error(),
                ))
            &&& (forall|l: int, k: int|
                level <= l < levels && 0 <= k < level_coords(
                    levels as nat,
                    l as nat,
                    width,
                    height,
                ).len() ==> byte_close(
                    s2[c_idx(#[trigger] level_coords(levels as nat, l as nat, width, height)[k], width)],
                    img[c_idx(level_coords(levels as nat, l as nat, width, height)[k], width)],
                    qz.spec_error(),
                ))
        }),
    decreases levels - level,
{
    if level < levels {
        let coords = level_coords(levels as nat, level as nat, width, height);
        crate::traversal::lemma_level_coords_bounds(levels as nat, level as nat, width, height);
        lemma_encode_level_close(ip, qz, img, s, coords, levels, level, width, height);
        let s1 = encode_level(ip, qz, img, s, coords, levels, level, width, height).1;
        lemma_encode_levels_close(ip, qz, img, s1, level + 1, levels, width, height);
        let s2 = encode_levels(ip, qz, img, s, level, levels, width, height).1;
        assert forall|l: int, k: int|
            level <= l < levels && 0 <= k < level_coords(
                levels as nat,
                l as nat,
                width,
                height,
            ).len() implies byte_close(
            s2[c_idx(#[trigger] level_coords(levels as nat, l as nat, width, height)[k], width)],
            img[c_idx(level_coords(levels as nat, l as nat, width, height)[k], width)],
            qz.spec_error(),
        ) by {
            let cc = level_coords(levels as nat, l as nat, width, height)[k];
            if l == level {
                crate::grid::lemma_pix_index_bounds(width, height, cc.0, cc.1);
                assert(byte_close(s1[c_idx(cc, width)], img[c_idx(cc, width)], qz.spec_error()));
                assert(s2[c_idx(cc, width)] == s1[c_idx(cc, width)] || byte_close(
                    s2[c_idx(cc, width)],
                    img[c_idx(cc, width)],
                    qz.spec_error(),
                ));
            }
        }
    }
}

/// Writing the source pixels at some coordinates leaves exactly the source
/// value at each of them, and touches nothing else.
pub proof fn lemma_write_base_exact(
    s: Seq<u8>,
    img: Seq<u8>,
    coords: Seq<(u32, u32)>,
    width: u32,
    height: u32,
)
    requires
        img.len() == width * height,
        s.len() == img.len(),
        forall|k: int|
            0 <= k < coords.len() ==> (#[trigger] coords[k]).0 < width && coords[k].1 < height,
    ensures
        ({
            let s2 = write_values(s, coords, base_values(img, coords, width), width);
            &&& s2.len() == s.len()
            &&& (forall|k: int|
                0 <= k < coords.len() ==> s2[c_idx(#[trigger] coords[k], width)] == img[c_idx(
                    coords[k],
                    width,
                )])
            &&& (forall|k: int|
                0 <= k < s.len() ==> #[trigger] s2[k] == s[k] || exists|j: int|
                    0 <= j < coords.len() && c_idx(#[trigger] coords[j], width) == k)
        }),
    decreases coords.len(),
{
    if coords.len() > 0 {
        let c = coords[0];
        let idx = c.1 * width + c.0;
        crate::grid::lemma_pix_index_bounds(width, height, c.0, c.1);
        let vals = base_values(img, coords, width);
        let s1 = s.update(idx, vals[0]);
        assert(vals[0] == img[idx]);
        assert(vals.skip(1) =~= base_values(img, coords.skip(1), width));
        lemma_write_base_exact(s1, img, coords.skip(1), width, height);
        let s2 = write_values(s, coords, vals, width);
        assert(s2 == write_values(s1, coords.skip(1), base_values(img, coords.skip(1), width), width));
        assert forall|k: int|
            0 <= k < coords.len() implies s2[c_idx(#[trigger] coords[k], width)] == img[c_idx(
            coords[k],
            width,
        )] by {
            if k == 0 {
                if s2[idx] != s1[idx] {
                    let j = choose|j: int|
                        0 <= j < coords.skip(1).len() && c_idx(coords.skip(1)[j], width) == idx;
                    assert(s2[c_idx(coords.skip(1)[j], width)] == img[c_idx(
                        coords.skip(1)[j],
                        width,
                    )]);
                }
            } else {
                assert(coords[k] == coords.skip(1)[k - 1]);
            }
        }
        assert forall|k: int|
            0 <= k < s.len() implies #[trigger] s2[k] == s[k] || exists|j: int|
            0 <= j < coords.len() && c_idx(#[trigger] coords[j], width) == k by {
            if s2[k] != s[k] {
                if s2[k] == s1[k] {
                    assert(k == idx);
                    assert(c_idx(coords[0], width) == k);
                } else {
                    let j = choose|j: int|
                        0 <= j < coords.skip(1).len() && c_idx(coords.skip(1)[j], width) == k;
                    assert(coords.skip(1)[j] == coords[j + 1]);
                    assert(c_idx(coords[j + 1], width) == k);
                }
            }
        }
    }
}

} // verus!

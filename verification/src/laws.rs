//! The codec's top-level laws, stated over the model that the executable
//! encoder and decoder are proven to compute: decoding an encoded image never
//! strays from the source by more than the quantizer's error bound, and a
//! lossless quantizer reproduces the source exactly.

use crate::codec::{
    base_values, byte_close, c_idx, decode_spec, encode_spec, lemma_decode_matches_encode,
    lemma_encode_levels_close, lemma_write_base_exact, write_values,
};
use crate::grid::{lemma_pix_index_bounds, zero_seq};
use crate::interpolator::Interpolator;
use crate::quantizator::Quantizator;
use crate::traversal::{
    base_coords, lemma_base_coords_bounds, lemma_traversal_covers, level_coords,
};
use vstd::prelude::*;

verus! {

/// The surface the encoder ends with is within the quantizer's bound of the
/// source at every pixel: the coarsest level is copied exactly, and every
/// other pixel is visited by exactly the level the traversal assigns it,
/// where the stored residual keeps it close.
pub proof fn lemma_encode_surface_close<I: Interpolator, Q: Quantizator>(
    ip: I,
    qz: Q,
    img: Seq<u8>,
    levels: nat,
    width: u32,
    height: u32,
)
    requires
        qz.wf(),
        img.len() == width * height,
        1 <= levels <= 31,
        width >= 1,
        height >= 1,
    ensures
        encode_spec(ip, qz, img, levels, width, height).1.len() == img.len(),
        forall|x: u32, y: u32|
            x < width && y < height ==> byte_close(
                #[trigger] encode_spec(ip, qz, img, levels, width, height).1[y * width + x],
                img[y * width + x],
                qz.spec_error(),
            ),
{
    let base = base_coords(levels, width, height);
    let vals = base_values(img, base, width);
    let s0 = write_values(zero_seq((width * height) as nat), base, vals, width);
    let sf = encode_spec(ip, qz, img, levels, width, height).1;
    lemma_base_coords_bounds(levels, width, height);
    lemma_write_base_exact(zero_seq((width * height) as nat), img, base, width, height);
    lemma_encode_levels_close(ip, qz, img, s0, 0, levels as int, width, height);
    assert forall|x: u32, y: u32| x < width && y < height implies byte_close(
        #[trigger] sf[y * width + x],
        img[y * width + x],
        qz.spec_error(),
    ) by {
        lemma_pix_index_bounds(width, height, x, y);
        lemma_traversal_covers(levels, width, height, x, y);
        let idx = y * width + x;
        assert(c_idx((x, y), width) == idx);
        if base.contains((x, y)) {
            let k = choose|k: int| 0 <= k < base.len() && base[k] == (x, y);
            assert(s0[c_idx(base[k], width)] == img[c_idx(base[k], width)]);
            assert(sf[idx] == s0[idx] || byte_close(sf[idx], img[idx], qz.spec_error()));
        } else {
            let l = choose|l: int|
                0 <= l < levels && #[trigger] level_coords(
                    levels,
                    l as nat,
                    width,
                    height,
                ).contains((x, y));
            let cs = level_coords(levels, l as nat, width, height);
            let k = choose|k: int| 0 <= k < cs.len() && cs[k] == (x, y);
            assert(byte_close(
                sf[c_idx(cs[k], width)],
                img[c_idx(cs[k], width)],
                qz.spec_error(),
            ));
        }
    }
}

/// Law (bounded error): a pixel decoded from an encoded pyramid differs from
/// the source pixel by at most the quantizer's error bound.
pub proof fn lemma_bounded_error<I: Interpolator, Q: Quantizator>(
    ip: I,
    qz: Q,
    img: Seq<u8>,
    levels: nat,
    width: u32,
    height: u32,
    x: u32,
    y: u32,
)
    requires
        qz.wf(),
        img.len() == width * height,
        1 <= levels <= 31,
        width >= 1,
        height >= 1,
        x < width,
        y < height,
    ensures
        byte_close(
            decode_spec(
                ip,
                encode_spec(ip, qz, img, levels, width, height).0,
                levels,
                width,
                height,
            )[y * width + x],
            img[y * width + x],
            qz.spec_error(),
        ),
{
    lemma_decode_matches_encode(ip, qz, img, levels, width, height);
    lemma_encode_surface_close(ip, qz, img, levels, width, height);
}

/// Law (lossless exactness): with a zero error bound, decoding an encoded
/// image reproduces it byte for byte.
pub proof fn lemma_lossless_exact<I: Interpolator, Q: Quantizator>(
    ip: I,
    qz: Q,
    img: Seq<u8>,
    levels: nat,
    width: u32,
    height: u32,
)
    requires
        qz.wf(),
        qz.spec_error() == 0,
        img.len() == width * height,
        1 <= levels <= 31,
        width >= 1,
        height >= 1,
    ensures
        decode_spec(ip, encode_spec(ip, qz, img, levels, width, height).0, levels, width, height)
            == img,
{
    lemma_decode_matches_encode(ip, qz, img, levels, width, height);
    lemma_encode_surface_close(ip, qz, img, levels, width, height);
    let out = decode_spec(
        ip,
        encode_spec(ip, qz, img, levels, width, height).0,
        levels,
        width,
        height,
    );
    assert forall|idx: int| 0 <= idx < img.len() implies out[idx] == img[idx] by {
        vstd::arithmetic::div_mod::lemma_fundamental_div_mod(idx, width as int);
        vstd::arithmetic::div_mod::lemma_mod_bound(idx, width as int);
        let x = idx % (width as int);
        let y = idx / (width as int);
        assert(y < height) by (nonlinear_arith)
            requires
                idx < width * height,
                idx == (width as int) * y + x,
                0 <= x < width,
                width >= 1,
        ;
        assert(y >= 0) by (nonlinear_arith)
            requires
                idx >= 0,
                idx == (width as int) * y + x,
                0 <= x < width,
                width >= 1,
        ;
        vstd::arithmetic::mul::lemma_mul_is_commutative(y, width as int);
        assert((y as u32) * width + (x as u32) == idx);
        assert(byte_close(out[idx], img[idx], qz.spec_error()));
    }
    assert(out =~= img);
}

/// Law (determinism): the pyramid is a function of the image, interpolator,
/// quantizer and depth alone — the encoder's contract pins its result to
/// `encode_spec`, so two encodes of the same configuration are byte
/// identical.
pub proof fn lemma_encode_deterministic<I: Interpolator, Q: Quantizator>(
    ip: I,
    qz: Q,
    img: Seq<u8>,
    levels: nat,
    width: u32,
    height: u32,
    first: Seq<Seq<u8>>,
    second: Seq<Seq<u8>>,
)
    requires
        first == encode_spec(ip, qz, img, levels, width, height).0,
        second == encode_spec(ip, qz, img, levels, width, height).0,
    ensures
        first == second,
{
}

} // verus!

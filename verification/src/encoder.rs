//! The encoder: drives the traversal, interpolator and quantizer over an
//! input image and produces the residual pyramid. Its contract pins the
//! output to the codec model exactly, so encoding is deterministic by
//! construction.

use crate::codec::{
    base_values, encode_level, encode_levels, encode_spec, lemma_encode_level_len,
    lemma_encode_levels_shape, pyramid_view, stored_residual, write_values,
};
use crate::grid::{zero_seq, Grid};
use crate::interpolator::Interpolator;
use crate::quantizator::Quantizator;
use crate::traversal::{
    lemma_base_coords_bounds, lemma_level_coords_bounds, traverse_base, traverse_level,
};
use vstd::prelude::*;

verus! {

/// Encodes images with a fixed interpolator, quantizer and pyramid depth.
pub struct Encoder<I, Q> {
    interpolator: I,
    quantizator: Q,
    scale_level: usize,
}

impl<I: Interpolator, Q: Quantizator> Encoder<I, Q> {
    pub closed spec fn spec_interpolator(&self) -> I {
        self.interpolator
    }

    pub closed spec fn spec_quantizator(&self) -> Q {
        self.quantizator
    }

    pub closed spec fn spec_scale_level(&self) -> usize {
        self.scale_level
    }

    pub open spec fn wf(&self) -> bool {
        &&& self.spec_quantizator().wf()
        &&& 1 <= self.spec_scale_level() <= 31
    }

    pub fn new(interpolator: I, quantizator: Q, scale_level: usize) -> (r: Self)
        requires
            quantizator.wf(),
            1 <= scale_level <= 31,
        ensures
            r.wf(),
            r.spec_interpolator() == interpolator,
            r.spec_quantizator() == quantizator,
            r.spec_scale_level() == scale_level,
    {
        Encoder { interpolator, quantizator, scale_level }
    }

    /// Encode `input` into a pyramid of `scale_level + 1` residual levels,
    /// the coarsest first: exactly the pyramid the codec model assigns to
    /// this image, interpolator and quantizer.
    pub fn encode(&self, input: &Grid) -> (r: Vec<Vec<u8>>)
        requires
            self.wf(),
            input.wf(),
            input.spec_width() >= 1,
            input.spec_height() >= 1,
        ensures
            pyramid_view(r@) == encode_spec(
                self.spec_interpolator(),
                self.spec_quantizator(),
                input@,
                self.spec_scale_level() as nat,
                input.spec_width(),
                input.spec_height(),
            ).0,
    {
        let width = input.width();
        let height = input.height();
        let levels = self.scale_level;
        let ghost img = input@;
        let ghost ipg = self.spec_interpolator();
        let ghost qzg = self.spec_quantizator();

        let mut surface = Grid::new(width, height);

        // The coarsest level: copy the source pixels at spacing 2^levels.
        let base = traverse_base(levels, width, height);
        proof {
            lemma_base_coords_bounds(levels as nat, width, height);
        }
        let ghost base_seq = base@;
        let ghost vals = base_values(img, base_seq, width);
        let ghost s0 = write_values(zero_seq((width * height) as nat), base_seq, vals, width);
        let mut level0: Vec<u8> = Vec::new();
        proof {
            assert(base_seq.skip(0) =~= base_seq);
            assert(vals.skip(0) =~= vals);
            assert(level0@ =~= vals.take(0));
        }
        let mut j: usize = 0;
        while j < base.len()
            invariant
                j <= base_seq.len(),
                base@ == base_seq,
                vals == base_values(img, base_seq, width),
                vals.len() == base_seq.len(),
                input.wf(),
                input@ == img,
                input.spec_width() == width,
                input.spec_height() == height,
                surface.wf(),
                surface.spec_width() == width,
                surface.spec_height() == height,
                forall|k: int|
                    0 <= k < base_seq.len() ==> (#[trigger] base_seq[k]).0 < width
                        && base_seq[k].1 < height,
                level0@ == vals.take(j as int),
                write_values(surface@, base_seq.skip(j as int), vals.skip(j as int), width) == s0,
            decreases base_seq.len() - j,
        {
            let c = base[j];
            let v = input.get(c.0, c.1);
            level0.push(v);
            surface.set(c, v);
            proof {
                assert(base_seq.skip(j as int)[0] == base_seq[j as int]);
                assert(vals.skip(j as int)[0] == vals[j as int]);
                assert(base_seq.skip(j as int).skip(1) =~= base_seq.skip(j as int + 1));
                assert(vals.skip(j as int).skip(1) =~= vals.skip(j as int + 1));
                assert(level0@ =~= vals.take(j as int + 1));
            }
            j = j + 1;
        }
        proof {
            assert(base_seq.skip(base_seq.len() as int) =~= Seq::<(u32, u32)>::empty());
            assert(surface@ == s0);
            assert(level0@ =~= vals);
        }

        let mut pyramid: Vec<Vec<u8>> = Vec::new();
        pyramid.push(level0);

        let ghost enc_all = encode_levels(ipg, qzg, img, s0, 0, levels as int, width, height);
        proof {
            lemma_encode_levels_shape(ipg, qzg, img, s0, 0, levels as int, width, height);
            assert(enc_all.0.skip(0) =~= enc_all.0);
            assert(pyramid_view(pyramid@) =~= seq![vals] + enc_all.0.take(0));
        }
        let mut level: usize = 0;
        while level < levels
            invariant
                level <= levels,
                1 <= levels <= 31,
                self.wf(),
                ipg == self.spec_interpolator(),
                qzg == self.spec_quantizator(),
                levels == self.spec_scale_level(),
                input.wf(),
                input@ == img,
                input.spec_width() == width,
                input.spec_height() == height,
                width >= 1,
                height >= 1,
                surface.wf(),
                surface.spec_width() == width,
                surface.spec_height() == height,
                enc_all == encode_levels(ipg, qzg, img, s0, 0, levels as int, width, height),
                enc_all.0.len() == levels as int,
                pyramid_view(pyramid@) == seq![vals] + enc_all.0.take(level as int),
                encode_levels(ipg, qzg, img, surface@, level as int, levels as int, width, height)
                    == (enc_all.0.skip(level as int), enc_all.1),
            decreases levels - level,
        {
            let coords = traverse_level(level, levels, width, height);
            proof {
                lemma_level_coords_bounds(levels as nat, level as nat, width, height);
            }
            let ghost cseq = coords@;
            let ghost s_level = surface@;
            let ghost lvl = encode_level(
                ipg,
                qzg,
                img,
                s_level,
                cseq,
                levels as int,
                level as int,
                width,
                height,
            );
            let mut current: Vec<u8> = Vec::new();
            proof {
                lemma_encode_level_len(
                    ipg,
                    qzg,
                    img,
                    s_level,
                    cseq,
                    levels as int,
                    level as int,
                    width,
                    height,
                );
                assert(cseq.skip(0) =~= cseq);
                assert(lvl.0.skip(0) =~= lvl.0);
                assert(current@ =~= lvl.0.take(0));
            }
            let mut j: usize = 0;
            while j < coords.len()
                invariant
                    j <= cseq.len(),
                    coords@ == cseq,
                    level < levels <= 31,
                    self.wf(),
                    ipg == self.spec_interpolator(),
                    qzg == self.spec_quantizator(),
                    input.wf(),
                    input@ == img,
                    input.spec_width() == width,
                    input.spec_height() == height,
                    surface.wf(),
                    surface.spec_width() == width,
                    surface.spec_height() == height,
                    forall|k: int|
                        0 <= k < cseq.len() ==> (#[trigger] cseq[k]).0 < width && cseq[k].1
                            < height,
                    lvl == encode_level(
                        ipg,
                        qzg,
                        img,
                        s_level,
                        cseq,
                        levels as int,
                        level as int,
                        width,
                        height,
                    ),
                    lvl.0.len() == cseq.len(),
                    current@ == lvl.0.take(j as int),
                    encode_level(
                        ipg,
                        qzg,
                        img,
                        surface@,
                        cseq.skip(j as int),
                        levels as int,
                        level as int,
                        width,
                        height,
                    ) == (lvl.0.skip(j as int), lvl.1),
                decreases cseq.len() - j,
            {
                let c = coords[j];
                let ghost s_j = surface@;
                let prediction = self.interpolator.interpolate(levels, level + 1, c, &surface);
                let actual = input.get(c.0, c.1);
                let diff = actual.wrapping_sub(prediction);
                let q0 = self.quantizator.quantize(diff);
                let overflow = (prediction as u16) + (q0 as u16) > 255;
                let overflow_expected = (prediction as u16) + (diff as u16) > 255;
                let stored = if overflow != overflow_expected {
                    diff
                } else {
                    q0
                };
                current.push(stored);
                surface.set(c, prediction.wrapping_add(stored));
                proof {
                    crate::grid::lemma_pix_index_bounds(width, height, c.0, c.1);
                    let rem = cseq.skip(j as int);
                    assert(rem[0] == cseq[j as int]);
                    let idx = c.1 * width + c.0;
                    let spred = ipg.spec_interpolate(
                        levels as int,
                        level as int + 1,
                        c.0,
                        c.1,
                        s_j,
                        width,
                        height,
                    );
                    assert(prediction == spred);
                    assert(stored == stored_residual(qzg, img[idx], spred));
                    let s_next = s_j.update(
                        idx,
                        vstd::wrapping::u8_specs::wrapping_add(spred, stored),
                    );
                    assert(surface@ == s_next);
                    let after = encode_level(
                        ipg,
                        qzg,
                        img,
                        s_next,
                        rem.skip(1),
                        levels as int,
                        level as int,
                        width,
                        height,
                    );
                    assert(encode_level(
                        ipg,
                        qzg,
                        img,
                        s_j,
                        rem,
                        levels as int,
                        level as int,
                        width,
                        height,
                    ) == (seq![stored] + after.0, after.1));
                    assert(lvl.0.skip(j as int) == seq![stored] + after.0);
                    assert(lvl.0[j as int] == lvl.0.skip(j as int)[0]);
                    assert(after.0 =~= lvl.0.skip(j as int).skip(1));
                    assert(rem.skip(1) =~= cseq.skip(j as int + 1));
                    assert(lvl.0.skip(j as int).skip(1) =~= lvl.0.skip(j as int + 1));
                    assert(current@ =~= lvl.0.take(j as int + 1));
                }
                j = j + 1;
            }
            proof {
                assert(cseq.skip(cseq.len() as int) =~= Seq::<(u32, u32)>::empty());
                assert(lvl.0.skip(cseq.len() as int) =~= Seq::<u8>::empty());
                assert(surface@ == lvl.1);
                assert(current@ =~= lvl.0);
            }
            let ghost pyr_before = pyramid@;
            let ghost cur_v = current@;
            pyramid.push(current);
            proof {
                let restp = encode_levels(
                    ipg,
                    qzg,
                    img,
                    lvl.1,
                    level as int + 1,
                    levels as int,
                    width,
                    height,
                );
                assert(encode_levels(
                    ipg,
                    qzg,
                    img,
                    s_level,
                    level as int,
                    levels as int,
                    width,
                    height,
                ) == (seq![lvl.0] + restp.0, restp.1));
                assert(seq![lvl.0] + restp.0 == enc_all.0.skip(level as int));
                assert((seq![lvl.0] + restp.0)[0] == lvl.0);
                assert(enc_all.0[level as int] == enc_all.0.skip(level as int)[0]);
                assert(enc_all.0[level as int] == lvl.0);
                assert(restp.0 =~= enc_all.0.skip(level as int).skip(1));
                assert(enc_all.0.skip(level as int).skip(1) =~= enc_all.0.skip(level as int + 1));
                assert(cur_v == lvl.0);
                assert(pyramid@ == pyr_before.push(pyramid@[pyr_before.len() as int]));
                assert(pyramid@[pyr_before.len() as int]@ == cur_v);
                let lhs = pyramid_view(pyramid@);
                let rhs = seq![vals] + enc_all.0.take(level as int + 1);
                assert(pyramid_view(pyr_before).len() == pyr_before.len());
                assert(enc_all.0.take(level as int).len() == level as int);
                assert((seq![vals] + enc_all.0.take(level as int)).len() == level as int + 1);
                assert(pyr_before.len() == level as int + 1);
                assert(lhs.len() == rhs.len());
                assert forall|i: int| 0 <= i < lhs.len() implies lhs[i] == rhs[i] by {
                    if i < pyr_before.len() {
                        assert(pyramid@[i] == pyr_before[i]);
                        assert(lhs[i] == pyramid_view(pyr_before)[i]);
                        assert(pyramid_view(pyr_before)[i] == (seq![vals] + enc_all.0.take(
                            level as int,
                        ))[i]);
                        if i >= 1 {
                            assert((seq![vals] + enc_all.0.take(level as int))[i]
                                == enc_all.0.take(level as int)[i - 1]);
                            assert(rhs[i] == enc_all.0.take(level as int + 1)[i - 1]);
                        }
                    } else {
                        assert(i == level as int + 1);
                        assert(lhs[i] == cur_v);
                        assert(rhs[i] == enc_all.0.take(level as int + 1)[level as int]);
                    }
                }
                assert(pyramid_view(pyramid@) =~= seq![vals] + enc_all.0.take(level as int + 1));
            }
            level = level + 1;
        }
        proof {
            assert(enc_all.0.skip(levels as int) =~= Seq::<Seq<u8>>::empty());
            assert(enc_all.0.take(levels as int) =~= enc_all.0);
        }
        pyramid
    }
}

} // verus!

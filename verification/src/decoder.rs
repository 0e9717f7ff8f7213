//! The decoder: the encoder's inverse state machine. It validates the
//! pyramid's shape against the traversal engine's prediction, replays the
//! coarsest level, and reconstructs every finer pixel in the encoder's exact
//! order. Its contract pins the output to the codec model, so agreement with
//! the encoder is a theorem, not a convention.

use crate::archive::{CodecError, Metadata};
use crate::codec::{decode_level, decode_levels, decode_spec, pyramid_shape_ok, pyramid_view, write_values};
use crate::grid::{zero_seq, Grid};
use crate::interpolator::Interpolator;
use crate::traversal::{
    lemma_base_coords_bounds, lemma_level_coords_bounds, traverse_base, traverse_level,
};
use vstd::prelude::*;

verus! {

/// Decodes pyramids with a fixed interpolator, which must be the one the
/// encoder used.
pub struct Decoder<I> {
    interpolator: I,
}

impl<I: Interpolator> Decoder<I> {
    pub closed spec fn spec_interpolator(&self) -> I {
        self.interpolator
    }

    pub fn new(interpolator: I) -> (r: Self)
        ensures
            r.spec_interpolator() == interpolator,
    {
        Decoder { interpolator }
    }

    /// Reconstruct the image. Succeeds exactly when the metadata is valid
    /// and the pyramid has the predicted shape; any disagreement is a fatal
    /// contract violation, never a partial image.
    pub fn decode(&self, metadata: &Metadata, pyramid: &Vec<Vec<u8>>) -> (r: Result<
        Grid,
        CodecError,
    >)
        ensures
            match r {
                Ok(image) => {
                    &&& metadata.valid()
                    &&& pyramid_shape_ok(
                        pyramid_view(pyramid@),
                        metadata.scale_level as nat,
                        metadata.width,
                        metadata.height,
                    )
                    &&& image.wf()
                    &&& image.spec_width() == metadata.width
                    &&& image.spec_height() == metadata.height
                    &&& image@ == decode_spec(
                        self.spec_interpolator(),
                        pyramid_view(pyramid@),
                        metadata.scale_level as nat,
                        metadata.width,
                        metadata.height,
                    )
                },
                Err(e) => {
                    &&& e == CodecError::ContractViolation
                    &&& !(metadata.valid() && pyramid_shape_ok(
                        pyramid_view(pyramid@),
                        metadata.scale_level as nat,
                        metadata.width,
                        metadata.height,
                    ))
                },
            },
    {
        let width = metadata.width;
        let height = metadata.height;
        let levels = metadata.scale_level;
        let ghost ipg = self.spec_interpolator();
        let ghost pv = pyramid_view(pyramid@);

        if width < 1 || height < 1 || levels < 1 || levels > 31 {
            return Err(CodecError::ContractViolation);
        }
        proof {
            vstd::arithmetic::mul::lemma_mul_upper_bound(
                width as int,
                u32::MAX as int,
                height as int,
                u32::MAX as int,
            );
        }
        if (width as u64) * (height as u64) > (usize::MAX as u64) {
            return Err(CodecError::ContractViolation);
        }
        if pyramid.len() != levels + 1 {
            proof {
                assert(pv.len() == pyramid@.len());
            }
            return Err(CodecError::ContractViolation);
        }

        let base = traverse_base(levels, width, height);
        proof {
            lemma_base_coords_bounds(levels as nat, width, height);
        }
        if pyramid[0].len() != base.len() {
            proof {
                assert(pv[0].len() == pyramid@[0]@.len());
            }
            return Err(CodecError::ContractViolation);
        }
        let mut level: usize = 0;
        while level < levels
            invariant
                level <= levels,
                1 <= levels <= 31,
                width == metadata.width,
                height == metadata.height,
                levels == metadata.scale_level,
                pv == pyramid_view(pyramid@),
                pyramid@.len() == levels + 1,
                forall|l: int|
                    0 <= l < level ==> (#[trigger] pv[l + 1]).len() == crate::traversal::level_coords(
                        levels as nat,
                        l as nat,
                        width,
                        height,
                    ).len(),
            decreases levels - level,
        {
            let coords = traverse_level(level, levels, width, height);
            if pyramid[level + 1].len() != coords.len() {
                proof {
                    assert(pv[level as int + 1].len() == pyramid@[level as int + 1]@.len());
                }
                return Err(CodecError::ContractViolation);
            }
            level = level + 1;
        }

        // The shape matches the traversal engine's prediction; reconstruct.
        let mut surface = Grid::new(width, height);
        let ghost base_seq = base@;
        let ghost s0 = write_values(zero_seq((width * height) as nat), base_seq, pv[0], width);

        let mut j: usize = 0;
        proof {
            assert(base_seq.skip(0) =~= base_seq);
            assert(pv[0].skip(0) =~= pv[0]);
        }
        while j < base.len()
            invariant
                j <= base_seq.len(),
                base@ == base_seq,
                pyramid@.len() >= 1,
                pv == pyramid_view(pyramid@),
                pv[0].len() == base_seq.len(),
                surface.wf(),
                surface.spec_width() == width,
                surface.spec_height() == height,
                forall|k: int|
                    0 <= k < base_seq.len() ==> (#[trigger] base_seq[k]).0 < width
                        && base_seq[k].1 < height,
                write_values(surface@, base_seq.skip(j as int), pv[0].skip(j as int), width) == s0,
            decreases base_seq.len() - j,
        {
            let c = base[j];
            let v = pyramid[0][j];
            surface.set(c, v);
            proof {
                assert(base_seq.skip(j as int)[0] == base_seq[j as int]);
                assert(pv[0].skip(j as int)[0] == pv[0][j as int]);
                assert(base_seq.skip(j as int).skip(1) =~= base_seq.skip(j as int + 1));
                assert(pv[0].skip(j as int).skip(1) =~= pv[0].skip(j as int + 1));
            }
            j = j + 1;
        }
        proof {
            assert(base_seq.skip(base_seq.len() as int) =~= Seq::<(u32, u32)>::empty());
            assert(surface@ == s0);
        }

        let ghost dec_all = decode_levels(ipg, pv, s0, 0, levels as int, width, height);
        let mut level: usize = 0;
        while level < levels
            invariant
                level <= levels,
                1 <= levels <= 31,
                ipg == self.spec_interpolator(),
                width >= 1,
                height >= 1,
                pv == pyramid_view(pyramid@),
                pyramid@.len() == levels + 1,
                pyramid_shape_ok(pv, levels as nat, width, height),
                surface.wf(),
                surface.spec_width() == width,
                surface.spec_height() == height,
                dec_all == decode_levels(ipg, pv, s0, 0, levels as int, width, height),
                decode_levels(ipg, pv, surface@, level as int, levels as int, width, height)
                    == dec_all,
            decreases levels - level,
        {
            let coords = traverse_level(level, levels, width, height);
            proof {
                lemma_level_coords_bounds(levels as nat, level as nat, width, height);
            }
            let ghost cseq = coords@;
            let ghost s_level = surface@;
            let ghost res = pv[level as int + 1];
            let ghost dec_lvl = decode_level(
                ipg,
                res,
                s_level,
                cseq,
                levels as int,
                level as int,
                width,
                height,
            );
            proof {
                assert(res.len() == cseq.len());
                assert(cseq.skip(0) =~= cseq);
                assert(res.skip(0) =~= res);
            }
            let mut j: usize = 0;
            while j < coords.len()
                invariant
                    j <= cseq.len(),
                    coords@ == cseq,
                    level < levels <= 31,
                    ipg == self.spec_interpolator(),
                    pv == pyramid_view(pyramid@),
                    pyramid@.len() == levels + 1,
                    res == pv[level as int + 1],
                    res.len() == cseq.len(),
                    surface.wf(),
                    surface.spec_width() == width,
                    surface.spec_height() == height,
                    forall|k: int|
                        0 <= k < cseq.len() ==> (#[trigger] cseq[k]).0 < width && cseq[k].1
                            < height,
                    dec_lvl == decode_level(
                        ipg,
                        res,
                        s_level,
                        cseq,
                        levels as int,
                        level as int,
                        width,
                        height,
                    ),
                    decode_level(
                        ipg,
                        res.skip(j as int),
                        surface@,
                        cseq.skip(j as int),
                        levels as int,
                        level as int,
                        width,
                        height,
                    ) == dec_lvl,
                decreases cseq.len() - j,
            {
                let c = coords[j];
                let ghost s_j = surface@;
                let prediction = self.interpolator.interpolate(levels, level + 1, c, &surface);
                let residual = pyramid[level + 1][j];
                surface.set(c, prediction.wrapping_add(residual));
                proof {
                    crate::grid::lemma_pix_index_bounds(width, height, c.0, c.1);
                    let rem = cseq.skip(j as int);
                    assert(rem[0] == cseq[j as int]);
                    assert(res.skip(j as int)[0] == res[j as int]);
                    assert(residual == res[j as int]);
                    let idx = c.1 * width + c.0;
                    let spred = ipg.spec_interpolate(
                        levels as int,
                        level as int + 1,
                        c.0,
                        c.1,
                        s_j,
                        width,
                        height,
                    );
                    assert(prediction == spred);
                    let s_next = s_j.update(
                        idx,
                        vstd::wrapping::u8_specs::wrapping_add(spred, residual),
                    );
                    assert(surface@ == s_next);
                    assert(rem.skip(1) =~= cseq.skip(j as int + 1));
                    assert(res.skip(j as int).skip(1) =~= res.skip(j as int + 1));
                }
                j = j + 1;
            }
            proof {
                assert(cseq.skip(cseq.len() as int) =~= Seq::<(u32, u32)>::empty());
                assert(res.skip(cseq.len() as int) =~= Seq::<u8>::empty());
                assert(surface@ == dec_lvl);
            }
            level = level + 1;
        }
        proof {
            assert(surface@ == dec_all);
        }
        Ok(surface)
    }
}

} // verus!

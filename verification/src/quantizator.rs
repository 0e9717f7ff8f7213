//! Residual quantization. A quantizer maps a residual byte to a nearby
//! representative; the distance between the two is bounded by the quantizer's
//! error bound, which is what bounds the codec's per-pixel reconstruction
//! error.

use vstd::arithmetic::div_mod::{
    lemma_div_is_ordered, lemma_div_multiples_vanish_fancy, lemma_fundamental_div_mod,
    lemma_mod_bound, lemma_mod_multiples_basic, lemma_small_mod,
};
use vstd::arithmetic::mul::{lemma_mul_inequality, lemma_mul_is_commutative};
use vstd::prelude::*;

verus! {

/// The named error bounds the codec offers.
#[derive(Clone, Copy, Debug, PartialEq, Eq, Structural)]
pub enum QuantizationLevel {
    Lossless,
    Low,
    Medium,
    High,
}

impl QuantizationLevel {
    /// The largest per-pixel reconstruction error the level admits.
    pub open spec fn spec_max_error(self) -> u8 {
        match self {
            QuantizationLevel::Lossless => 0,
            QuantizationLevel::Low => 10,
            QuantizationLevel::Medium => 20,
            QuantizationLevel::High => 30,
        }
    }

    pub fn max_error(self) -> (r: u8)
        ensures
            r == self.spec_max_error(),
    {
        match self {
            QuantizationLevel::Lossless => 0,
            QuantizationLevel::Low => 10,
            QuantizationLevel::Medium => 20,
            QuantizationLevel::High => 30,
        }
    }
}

/// A byte-to-byte residual compressor with a bounded-error contract.
pub trait Quantizator: Sized {
    /// The quantizer's internal tables are consistent; constructors establish
    /// this and every operation expects it.
    spec fn wf(&self) -> bool;

    /// The bound on how far `spec_quantize` may move a byte.
    spec fn spec_error(&self) -> u8;

    /// What `quantize` returns, as a function of the input byte.
    spec fn spec_quantize(&self, value: u8) -> u8;

    /// Law: the representative stays within `spec_error` of the input, and a
    /// zero bound means exact pass-through.
    proof fn lemma_quantize_bounded(&self, value: u8)
        requires
            self.wf(),
        ensures
            self.spec_quantize(value) <= value + self.spec_error(),
            value <= self.spec_quantize(value) + self.spec_error(),
            self.spec_error() == 0 ==> self.spec_quantize(value) == value;

    fn quantize(&self, value: u8) -> (r: u8)
        requires
            self.wf(),
        ensures
            r == self.spec_quantize(value);

    fn error(&self) -> (r: u8)
        requires
            self.wf(),
        ensures
            r == self.spec_error();
}

/// The identity quantizer: a baseline that stores every residual exactly.
pub struct NoOp;

impl NoOp {
    pub fn from(_level: QuantizationLevel) -> (r: NoOp)
        ensures
            r.wf(),
            r.spec_error() == 0,
    {
        NoOp
    }
}

impl Quantizator for NoOp {
    open spec fn wf(&self) -> bool {
        true
    }

    open spec fn spec_error(&self) -> u8 {
        0
    }

    open spec fn spec_quantize(&self, value: u8) -> u8 {
        value
    }

    proof fn lemma_quantize_bounded(&self, value: u8) {
    }

    fn quantize(&self, value: u8) -> (r: u8) {
        value
    }

    fn error(&self) -> (r: u8) {
        0
    }
}

/// The value the linear quantizer stores for `value` under error bound
/// `error`: the least multiple of `2 * error + 1` within `error` of `value`.
pub open spec fn linear_quantize(error: u8, value: u8) -> u8 {
    ((((value + error) / (2 * error + 1)) * (2 * error + 1)) % 256) as u8
}

/// For the four offered error bounds the chosen multiple never exceeds 255,
/// so the formula's final reduction is a no-op: the stored byte *is* the
/// multiple of `2 * error + 1` nearest below `value + error`.
pub proof fn lemma_linear_quantize_unwrapped(error: u8, value: u8)
    requires
        error == 0 || error == 10 || error == 20 || error == 30,
    ensures
        linear_quantize(error, value) == ((value + error) / (2 * error + 1)) * (2 * error + 1),
        linear_quantize(error, value) <= 255,
{
    let s = 2 * error + 1;
    let k = (value + error) as int / s as int;
    let m = k * s;
    lemma_fundamental_div_mod((value + error) as int, s as int);
    lemma_mod_bound((value + error) as int, s as int);
    assert(m == value + error - ((value + error) as int % s as int));
    lemma_div_is_ordered((value + error) as int, (255 + error) as int, s as int);
    lemma_mul_inequality(k, (255 + error) as int / s as int, s as int);
    if error == 0 {
        assert(m == value);
    } else if error == 10 {
        assert((255 + 10) as int / 21 == 12);
        assert(m <= 252);
    } else if error == 20 {
        assert((255 + 20) as int / 41 == 6);
        assert(m <= 246);
    } else {
        assert((255 + 30) as int / 61 == 4);
        assert(m <= 244);
    }
    lemma_small_mod(m as nat, 256);
}

/// The linear formula never strays more than `error` from its input, and is
/// the identity when `error` is zero.
pub proof fn lemma_linear_quantize_bounded(error: u8, value: u8)
    requires
        error == 0 || error == 10 || error == 20 || error == 30,
    ensures
        linear_quantize(error, value) <= value + error,
        value <= linear_quantize(error, value) + error,
        error == 0 ==> linear_quantize(error, value) == value,
{
    lemma_linear_quantize_unwrapped(error, value);
    let s = 2 * error + 1;
    lemma_fundamental_div_mod((value + error) as int, s as int);
    lemma_mod_bound((value + error) as int, s as int);
}

/// Law: every stored byte is a multiple of the bucket width `2 * error + 1`.
pub proof fn lemma_linear_quantize_multiple(error: u8, value: u8)
    requires
        error == 0 || error == 10 || error == 20 || error == 30,
    ensures
        (linear_quantize(error, value) as int) % (2 * error + 1) == 0,
{
    lemma_linear_quantize_unwrapped(error, value);
    let s = 2 * error + 1;
    let k = (value + error) as int / s as int;
    lemma_mod_multiples_basic(k, s as int);
}

/// Law: quantization is idempotent — stored bytes are fixed points of the
/// table.
pub proof fn lemma_linear_quantize_idempotent(error: u8, value: u8)
    requires
        error == 0 || error == 10 || error == 20 || error == 30,
    ensures
        linear_quantize(error, linear_quantize(error, value)) == linear_quantize(error, value),
{
    lemma_linear_quantize_unwrapped(error, value);
    let s = 2 * error + 1;
    let k = (value + error) as int / s as int;
    let q = linear_quantize(error, value);
    lemma_linear_quantize_unwrapped(error, q);
    // (k * s + error) / s == k, since the offset stays inside one bucket.
    lemma_div_multiples_vanish_fancy(k, error as int, s as int);
    assert(q + error == s as int * k + error) by (nonlinear_arith)
        requires
            q == k * s,
    ;
}

/// The table-driven linear quantizer: entry `x` holds the least multiple of
/// `2 * error + 1` within `error` of `x`.
pub struct Linear {
    table: Vec<u8>,
    error: u8,
}

impl Linear {
    /// Build the lookup table for the given level's error bound. The table
    /// is pinned entry by entry: callers know exactly which byte each
    /// residual becomes, which is what keeps lossy archives byte-compatible.
    pub fn from(level: QuantizationLevel) -> (r: Linear)
        ensures
            r.wf(),
            r.spec_error() == level.spec_max_error(),
            forall|v: u8| #[trigger] r.spec_quantize(v) == linear_quantize(
                level.spec_max_error(),
                v,
            ),
    {
        let error = level.max_error();
        let scale: usize = 2 * (error as usize) + 1;
        let mut table: Vec<u8> = Vec::new();
        let mut i: usize = 0;
        while i < 256
            invariant
                i <= 256,
                table@.len() == i,
                scale == 2 * error + 1,
                error == 0 || error == 10 || error == 20 || error == 30,
                forall|j: int| 0 <= j < i ==> table@[j] == linear_quantize(error, j as u8),
            decreases 256 - i,
        {
            let q = (i + error as usize) / scale;
            proof {
                lemma_fundamental_div_mod((i + error) as int, scale as int);
                lemma_mod_bound((i + error) as int, scale as int);
                assert(scale * q <= i + error);
                lemma_mul_is_commutative(q as int, scale as int);
            }
            let v = q * scale;
            table.push((v % 256) as u8);
            i = i + 1;
        }
        Linear { table, error }
    }
}

impl Quantizator for Linear {
    closed spec fn wf(&self) -> bool {
        &&& (self.error == 0 || self.error == 10 || self.error == 20 || self.error == 30)
        &&& self.table@.len() == 256
        &&& (forall|i: int|
            0 <= i < 256 ==> self.table@[i] == linear_quantize(self.error, i as u8))
    }

    closed spec fn spec_error(&self) -> u8 {
        self.error
    }

    closed spec fn spec_quantize(&self, value: u8) -> u8 {
        self.table@[value as int]
    }

    proof fn lemma_quantize_bounded(&self, value: u8) {
        lemma_linear_quantize_bounded(self.error, value);
    }

    fn quantize(&self, value: u8) -> (r: u8) {
        self.table[value as usize]
    }

    fn error(&self) -> (r: u8) {
        self.error
    }
}

} // verus!

//! A grayscale image codec built on a multiresolution prediction pyramid.
//!
//! An image is encoded level by level: coarse samples are stored directly,
//! and every finer pixel is predicted from already-reconstructed neighbours,
//! with only a (possibly quantized) residual kept. The residual pyramid is
//! framed in a magic-numbered, DEFLATE-compressed binary archive.

pub mod archive;
pub mod codec;
pub mod decoder;
pub mod encoder;
pub mod grid;
pub mod interpolator;
pub mod laws;
pub mod quantizator;
pub mod traversal;

pub use archive::Archive;
pub use archive::CodecError;
pub use archive::Metadata;
pub use decoder::Decoder;
pub use encoder::Encoder;
pub use grid::Grid;
pub use interpolator::Crossed;
pub use interpolator::CrossedValues;
pub use interpolator::InterpolationType;
pub use interpolator::Interpolator;
pub use interpolator::LeftTop;
pub use quantizator::Linear;
pub use quantizator::NoOp;
pub use quantizator::QuantizationLevel;
pub use quantizator::Quantizator;
pub use traversal::traverse_base;
pub use traversal::traverse_level;

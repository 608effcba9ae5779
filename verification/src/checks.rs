//! Type-level gates for generated containers.
//!
//! These markers mirror the layout engine's runtime validation in the
//! type system, so that generated code can refuse to compile a malformed
//! container.  A generated container names `CGUsize<{ TOTAL_BITS % 8 }>`,
//! maps it through [`DeductMod`], and demands that the image implement
//! [`TotalSizeIsMultipleOfEightBits`] — which only the zero remainder
//! does.  The enum-specifier extension gates a discriminant the same way
//! through [`DeductPowOf2`] and [`DiscriminantInRange`].

use vstd::prelude::*;

verus! {

/// A compile-time `usize`, carried as a type.
pub enum CGUsize<const N: usize> {
    Marker,
}

/// A compile-time `bool`, carried as a type.
pub enum CGBool<const B: bool> {
    Marker,
}

/// Implemented exactly for the remainder that a byte-aligned total
/// leaves: zero.
pub trait TotalSizeIsMultipleOfEightBits {

}

/// The remainder 0 modulo 8 — the only aligned one.
pub enum ZeroMod8 {
    Marker,
}

impl TotalSizeIsMultipleOfEightBits for ZeroMod8 {

}

/// The remainder 1 modulo 8.
pub enum OneMod8 {
    Marker,
}

/// The remainder 2 modulo 8.
pub enum TwoMod8 {
    Marker,
}

/// The remainder 3 modulo 8.
pub enum ThreeMod8 {
    Marker,
}

/// The remainder 4 modulo 8.
pub enum FourMod8 {
    Marker,
}

/// The remainder 5 modulo 8.
pub enum FiveMod8 {
    Marker,
}

/// The remainder 6 modulo 8.
pub enum SixMod8 {
    Marker,
}

/// The remainder 7 modulo 8.
pub enum SevenMod8 {
    Marker,
}

/// Maps a total width's remainder modulo 8 onto its marker type.
pub trait DeductMod {
    type Mod;
}

impl DeductMod for CGUsize<0> {
    type Mod = ZeroMod8;
}

impl DeductMod for CGUsize<1> {
    type Mod = OneMod8;
}

impl DeductMod for CGUsize<2> {
    type Mod = TwoMod8;
}

impl DeductMod for CGUsize<3> {
    type Mod = ThreeMod8;
}

impl DeductMod for CGUsize<4> {
    type Mod = FourMod8;
}

impl DeductMod for CGUsize<5> {
    type Mod = FiveMod8;
}

impl DeductMod for CGUsize<6> {
    type Mod = SixMod8;
}

impl DeductMod for CGUsize<7> {
    type Mod = SevenMod8;
}

/// Implemented exactly for [`True`]: a discriminant proven in range.
pub trait DiscriminantInRange {

}

/// A satisfied compile-time predicate.
pub enum True {
    Marker,
}

/// A failed compile-time predicate.
pub enum False {
    Marker,
}

impl DiscriminantInRange for True {

}

/// Maps a compile-time boolean onto its marker type.
pub trait DeductPowOf2 {
    type IsPowOf2;
}

impl DeductPowOf2 for CGBool<true> {
    type IsPowOf2 = True;
}

impl DeductPowOf2 for CGBool<false> {
    type IsPowOf2 = False;
}

} // verus!

//! Field carrier types.
//!
//! A `Specifier` ties a field type to its bit width and to the
//! conversions between its carrier value and the big-endian bytes that
//! the packed container exchanges.  The enum-specifier extension maps a
//! variant set onto a fixed-width discriminant code; its gate,
//! [`discriminant_bits`], accepts exactly the power-of-two variant
//! counts.

use vstd::arithmetic::power2::*;
use vstd::prelude::*;

verus! {

/// The number of bytes needed to carry `bits` bits.
pub open spec fn spec_byte_len(bits: nat) -> nat {
    (bits + 7) / 8
}

/// A field type: a bit width and conversions between its carrier value
/// and the big-endian bytes of the packed container.
///
/// An implementation fixes the conversions' meaning with
/// [`Specifier::spec_encoded`] and [`Specifier::spec_decoded`], and owes
/// the law [`Specifier::lemma_encoded_decodes`]: decoding an encoded
/// value gives the value back.
pub trait Specifier {
    /// The carrier type of a field's value.
    type Type;

    /// The field's width in bits.
    spec fn spec_bits() -> nat;

    /// The big-endian bytes that encode a carrier value.
    spec fn spec_encoded(value: Self::Type) -> Seq<u8>;

    /// The carrier value that a carrier-sized byte string decodes to.
    spec fn spec_decoded(bytes: Seq<u8>) -> Self::Type;

    /// Decoding an encoded value gives the value back.
    proof fn lemma_encoded_decodes(value: Self::Type)
        ensures
            Self::spec_decoded(Self::spec_encoded(value)) == value,
    ;

    /// The width in bits, as generated code reads it.
    fn bits() -> (r: usize)
        ensures
            r as nat == Self::spec_bits(),
            1 <= r <= 64,
    ;

    /// The carrier's width in bytes.
    fn bytes() -> (r: usize)
        ensures
            r as nat == spec_byte_len(Self::spec_bits()),
    ;

    /// Decode a value from exactly `bytes()` big-endian bytes.
    fn from_be_bytes_core(bytes: Vec<u8>) -> (r: Self::Type)
        requires
            bytes@.len() == spec_byte_len(Self::spec_bits()),
        ensures
            r == Self::spec_decoded(bytes@),
    ;

    /// Encode a value into its big-endian bytes.
    fn to_be_bytes_core(value: Self::Type) -> (r: Vec<u8>)
        ensures
            r@ == Self::spec_encoded(value),
            r@.len() == spec_byte_len(Self::spec_bits()),
    ;

    /// Decode a carrier-sized byte string.
    fn from_be_bytes(bytes: Vec<u8>) -> (r: Self::Type)
        requires
            bytes@.len() == spec_byte_len(Self::spec_bits()),
        ensures
            r == Self::spec_decoded(bytes@),
    {
        Self::from_be_bytes_core(bytes)
    }

    /// Encode a value; the result always has the carrier's length.
    fn to_be_bytes(value: Self::Type) -> (r: Vec<u8>)
        ensures
            r@ == Self::spec_encoded(value),
            r@.len() == spec_byte_len(Self::spec_bits()),
    {
        Self::to_be_bytes_core(value)
    }
}

impl Specifier for bool {
    type Type = bool;

    open spec fn spec_bits() -> nat {
        1
    }

    open spec fn spec_encoded(value: bool) -> Seq<u8> {
        seq![if value { 1u8 } else { 0u8 }]
    }

    open spec fn spec_decoded(bytes: Seq<u8>) -> bool {
        bytes[bytes.len() - 1] == 1u8
    }

    proof fn lemma_encoded_decodes(value: bool) {
    }

    fn bits() -> (r: usize) {
        1
    }

    fn bytes() -> (r: usize) {
        1
    }

    fn from_be_bytes_core(bytes: Vec<u8>) -> (r: Self::Type) {
        bytes[bytes.len() - 1] == 1
    }

    fn to_be_bytes_core(value: Self::Type) -> (r: Vec<u8>) {
        let mut out: Vec<u8> = Vec::new();
        out.push(if value { 1u8 } else { 0u8 });
        proof {
            assert(out@ =~= seq![if value { 1u8 } else { 0u8 }]);
        }
        out
    }
}

/// Why an enum cannot be used as a field: its variant set does not fill
/// a fixed-width code exactly.
#[derive(Debug, Clone, PartialEq, Eq)]
pub enum SpecifierError {
    NotPowerOfTwo { variant_count: usize },
}

/// Whether `n` is a power of two.
pub open spec fn spec_is_pow2(n: nat) -> bool
    decreases n,
{
    if n == 0 {
        false
    } else if n == 1 {
        true
    } else {
        n % 2 == 0 && spec_is_pow2(n / 2)
    }
}

/// The discriminant width for an enum of `variant_count` variants: the
/// exact base-two logarithm.  Errs unless the count is a power of two,
/// so that every code of that width names a variant.
pub fn discriminant_bits(variant_count: usize) -> (r: Result<usize, SpecifierError>)
    ensures
        r is Ok <==> spec_is_pow2(variant_count as nat),
        match r {
            Ok(b) => pow2(b as nat) == variant_count && b < 64,
            Err(SpecifierError::NotPowerOfTwo { variant_count: c }) => c == variant_count,
        },
{
    if variant_count == 0 {
        return Err(SpecifierError::NotPowerOfTwo { variant_count });
    }
    let mut n: usize = variant_count;
    let mut b: usize = 0;
    proof {
        lemma2_to64();
    }
    while n > 1
        invariant
            1 <= n <= variant_count,
            spec_is_pow2(variant_count as nat) == spec_is_pow2(n as nat),
            variant_count as nat == n as nat * pow2(b as nat),
            n as nat * pow2(b as nat) <= usize::MAX,
            b < 64,
        decreases n,
    {
        if n % 2 == 1 {
            return Err(SpecifierError::NotPowerOfTwo { variant_count });
        }
        proof {
            lemma_pow2_unfold((b + 1) as nat);
            assert((n as nat / 2) * pow2((b + 1) as nat) == n as nat * pow2(b as nat))
                by (nonlinear_arith)
                requires
                    n as nat % 2 == 0,
                    pow2((b + 1) as nat) == 2 * pow2(b as nat),
            ;
            assert(pow2((b + 1) as nat) <= (n as nat / 2) * pow2((b + 1) as nat))
                by (nonlinear_arith)
                requires
                    n as nat / 2 >= 1,
            ;
            lemma2_to64();
            if b + 1 >= 64 {
                if b + 1 > 64 {
                    lemma_pow2_strictly_increases(64, (b + 1) as nat);
                }
                assert(pow2(64) <= pow2((b + 1) as nat));
                assert(false);
            }
        }
        n = n / 2;
        b = b + 1;
    }
    Ok(b)
}

} // verus!

//! Montgomery reduction (REDC): fix an odd modulus once, then multiply,
//! exponentiate and invert modulo it without a division per operation.
//!
//! A field is set up from its modulus by [`Redc::setup_field`]. Words are
//! moved into and out of Montgomery form by the other methods of [`Redc`], and
//! [`Field::redc`] is the reduction itself. Three backends implement both
//! traits: `u64`, `u128` and arbitrary precision integers. The [`element`]
//! module pairs a word in Montgomery form with its field and gives it the
//! operators `+`, `-` and `*`.
//!
//! All contracts are stated over mathematical integers, with the definitions
//! of the [`theory`] module.
pub mod bigint;
pub mod bits;
pub mod double_width;
pub mod element;
pub mod fermat;
pub mod field128;
pub mod field64;
pub mod field_big;
pub mod laws;
pub mod theory;
pub mod uints;

pub use uints::{U128, U256};

use vstd::prelude::*;

verus! {

/// Why a field could not be set up.
#[derive(Debug, Clone, Copy, PartialEq, Eq, Structural)]
pub enum SetupError {
    /// The modulus is even, so the radix has no inverse modulo it.
    EvenModulus,
}

impl SetupError {
    /// A description of the failure.
    pub fn message(&self) -> (text: &'static str)
        ensures
            text@ == "the modulus is even: it must be coprime to the power-of-two radix"@,
    {
        "the modulus is even: it must be coprime to the power-of-two radix"
    }
}

/// The parameters of a field over a fixed-width word: the modulus, its negated
/// inverse modulo the radix `2^(bits of T)`, and the square of the radix modulo
/// the modulus.
#[derive(Debug, Clone)]
pub struct PrimIntField<T> {
    pub(crate) prime: T,
    pub(crate) prime_inverted: T,
    pub(crate) r_squared: T,
}

/// The parameters of a field over arbitrary precision integers. The radix is
/// `2^r_count`, the smallest power of two that is not below the modulus.
#[derive(Debug, Clone)]
pub struct RugField {
    pub(crate) prime: rug::Integer,
    pub(crate) prime_inverted: rug::Integer,
    pub(crate) r_squared: rug::Integer,
    pub(crate) r_count: u32,
}

/// A field that can reduce double-width values of the word type `T`.
pub trait Field<T: Redc> {
    /// The stored parameters meet `theory::valid_parameters`.
    spec fn wf(&self) -> bool;

    /// The modulus.
    spec fn modulus(&self) -> int;

    /// The Montgomery radix.
    spec fn radix(&self) -> int;

    /// Montgomery reduction: the representative `r` in `[0, modulus)` with
    /// `r * radix ≡ value (mod modulus)`. It is defined for values below
    /// `modulus * radix`.
    fn redc(&self, value: T::SourceType) -> (r: T)
        requires
            self.wf(),
            0 <= T::source_value(&value) < self.modulus() * self.radix(),
        ensures
            theory::is_reduction(
                r.value(),
                T::source_value(&value),
                self.modulus(),
                self.radix(),
            ),
            r.value() == theory::reduce(T::source_value(&value), self.modulus(), self.radix()),
    ;
}

/// A word type with a Montgomery backend.
pub trait Redc: Sized {
    /// The double-width type that holds a full product of two words.
    type SourceType;

    /// The type of the field parameters.
    type FieldType;

    /// The integer that the word stands for.
    spec fn value(&self) -> int;

    /// The integer that a double-width value stands for.
    spec fn source_value(source: &Self::SourceType) -> int;

    /// Whether the backend can take the word as a modulus at all. Every word
    /// of a fixed width can be taken; an arbitrary precision integer must not be
    /// negative, and must be short enough for its bit count to be a `u32`.
    spec fn supported(&self) -> bool;

    /// The parameters of `field` meet `theory::valid_parameters`.
    spec fn field_wf(field: &Self::FieldType) -> bool;

    /// The modulus of `field`.
    spec fn field_modulus(field: &Self::FieldType) -> int;

    /// The Montgomery radix of `field`.
    spec fn field_radix(field: &Self::FieldType) -> int;

    /// Derives the parameters of the field over `self`. An even modulus is
    /// refused, and nothing else is.
    fn setup_field(self) -> (r: Result<Self::FieldType, SetupError>)
        requires
            self.supported(),
        ensures
            r is Ok <==> self.value() % 2 == 1,
            r is Err ==> r == Err::<Self::FieldType, SetupError>(SetupError::EvenModulus),
            r matches Ok(field) ==> Self::field_wf(&field) && Self::field_modulus(&field)
                == self.value(),
    ;

    /// The Montgomery form of `self`, which may be any word: it is reduced
    /// modulo the modulus first.
    fn to_montgomery(self, field: &Self::FieldType) -> (r: Self)
        requires
            Self::field_wf(field),
        ensures
            r.value() == theory::montgomery_form(
                self.value(),
                Self::field_modulus(field),
                Self::field_radix(field),
            ),
            0 <= r.value() < Self::field_modulus(field),
            theory::reduce(r.value(), Self::field_modulus(field), Self::field_radix(field))
                == self.value() % Self::field_modulus(field),
    ;

    /// The Montgomery form of a word that is already reduced modulo the
    /// modulus.
    ///
    /// That the word is reduced is the caller's to establish: the function
    /// does not test it, and never fails. Of a word that is not reduced, the
    /// result is still congruent to the Montgomery form, but it may lie outside
    /// `[0, modulus)`, where no other operation accepts it.
    fn to_montgomery_unchecked(self, field: &Self::FieldType) -> (r: Self)
        requires
            Self::field_wf(field),
        ensures
            r.value() % Self::field_modulus(field) == theory::montgomery_form(
                self.value(),
                Self::field_modulus(field),
                Self::field_radix(field),
            ),
            0 <= self.value() < Self::field_modulus(field) ==> r.value()
                == theory::montgomery_form(
                self.value(),
                Self::field_modulus(field),
                Self::field_radix(field),
            ),
            0 <= self.value() < Self::field_modulus(field) ==> theory::reduce(
                r.value(),
                Self::field_modulus(field),
                Self::field_radix(field),
            ) == self.value(),
    ;

    /// The value that the Montgomery form `self` stands for.
    fn to_normal(self, field: &Self::FieldType) -> (r: Self)
        requires
            Self::field_wf(field),
            0 <= self.value() < Self::field_radix(field),
        ensures
            r.value() == theory::reduce(
                self.value(),
                Self::field_modulus(field),
                Self::field_radix(field),
            ),
            0 <= r.value() < Self::field_modulus(field),
    ;

    /// Raises the Montgomery form `self` to the plain, non-negative
    /// `exponent`. The result is again in Montgomery form, and stands for the
    /// power of the residue that `self` stands for.
    fn mod_pow(self, exponent: Self, field: &Self::FieldType) -> (r: Self)
        requires
            Self::field_wf(field),
            0 <= self.value() < Self::field_modulus(field),
            0 <= exponent.value(),
        ensures
            r.value() == theory::montgomery_power(
                self.value(),
                exponent.value() as nat,
                Self::field_modulus(field),
                Self::field_radix(field),
            ),
            0 <= r.value() < Self::field_modulus(field),
            theory::reduce(r.value(), Self::field_modulus(field), Self::field_radix(field))
                == theory::mod_exp(
                theory::reduce(self.value(), Self::field_modulus(field), Self::field_radix(field)),
                exponent.value() as nat,
                Self::field_modulus(field),
            ),
    ;
}

} // verus!

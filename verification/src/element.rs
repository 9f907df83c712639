//! Elements: a word in Montgomery form together with the field it belongs to,
//! so that `+`, `-` and `*` read like ordinary modular arithmetic.
//!
//! An element is well formed when its field is valid and its stored word is
//! below the modulus. Every operation asks for that and keeps it, and the
//! binary operators ask that both operands belong to the same field.
use crate::bigint::{big_add, big_from_u32, big_lt, big_mul, big_sub, integer_value};
use crate::double_width::DoubleWidth;
use crate::field128::lemma_product_bound_128;
use crate::field64::lemma_product_bound_64;
use crate::fermat::is_prime;
use crate::field_big::lemma_product_bound_big;
use crate::laws::{
    law_difference_of_words, law_inverse_of_word, law_product_of_words, law_sum_of_words,
};
use crate::theory::{
    add_mod, lemma_reduce_montgomery_form, mod_exp, montgomery_form, montgomery_power, reduce,
    sub_mod, two_128, two_64,
};
use crate::{PrimIntField, Redc, RugField};
use rug::Integer;
use vstd::arithmetic::div_mod::*;
use vstd::prelude::*;
use vstd::std_specs::ops::{AddSpecImpl, MulSpecImpl, SubSpecImpl};

verus! {

/// A value of a Montgomery field.
pub trait Element:
    Sized + Clone + core::fmt::Debug + core::ops::Add + core::ops::Sub + core::ops::Mul
{
    /// The word type that holds the Montgomery form.
    type UnderlyingType: Redc;

    /// The field is valid and the stored word is below the modulus.
    spec fn wf(&self) -> bool;

    /// The stored word: the Montgomery form of the value.
    spec fn raw_value(&self) -> int;

    /// The modulus of the field.
    spec fn modulus(&self) -> int;

    /// The Montgomery radix of the field.
    spec fn radix(&self) -> int;

    /// The residue that the element stands for: the stored word, taken out of
    /// Montgomery form.
    open spec fn value(&self) -> int {
        reduce(self.raw_value(), self.modulus(), self.radix())
    }

    /// The power `modulus - 2`, which is the inverse where the modulus is
    /// prime and the value is not zero: the product of the two values is then
    /// 1 modulo the modulus. That the modulus is prime is the caller's to know;
    /// for another modulus the result is still that power.
    fn invert(self) -> (r: Self)
        requires
            self.wf(),
            self.modulus() > 1,
        ensures
            r.wf(),
            r.modulus() == self.modulus(),
            r.radix() == self.radix(),
            r.raw_value() == montgomery_power(
                self.raw_value(),
                (self.modulus() - 2) as nat,
                self.modulus(),
                self.radix(),
            ),
            r.value() == mod_exp(self.value(), (self.modulus() - 2) as nat, self.modulus()),
            is_prime(self.modulus()) && self.raw_value() != 0 ==> (self.value() * r.value())
                % self.modulus() == 1,
    ;

    /// The power whose exponent is the stored word of `exponent`, read as a
    /// plain integer.
    fn pow(self, exponent: Self) -> (r: Self)
        requires
            self.wf(),
            0 <= exponent.raw_value(),
        ensures
            r.wf(),
            r.modulus() == self.modulus(),
            r.radix() == self.radix(),
            r.raw_value() == montgomery_power(
                self.raw_value(),
                exponent.raw_value() as nat,
                self.modulus(),
                self.radix(),
            ),
            r.value() == mod_exp(self.value(), exponent.raw_value() as nat, self.modulus()),
    ;

    /// The stored word.
    fn internal(&self) -> (r: &Self::UnderlyingType)
        ensures
            r.value() == self.raw_value(),
    ;

    /// The value that the element stands for, out of Montgomery form.
    fn to_normal(self) -> (r: Self::UnderlyingType)
        requires
            self.wf(),
        ensures
            r.value() == self.value(),
            0 <= r.value() < self.modulus(),
    ;
}

/// An element of a field over a fixed-width word.
#[derive(Clone, Copy, Debug)]
pub struct PrimIntElement<'a, T> {
    pub(crate) element: T,
    pub(crate) field: &'a PrimIntField<T>,
}

impl<'a, T> PrimIntElement<'a, T> {
    /// The stored word.
    pub closed spec fn raw(&self) -> T {
        self.element
    }

    /// The field that the element belongs to.
    pub closed spec fn field_of(&self) -> PrimIntField<T> {
        *self.field
    }

    /// An element from a word that is already in Montgomery form.
    pub fn new(element: T, field: &'a PrimIntField<T>) -> (r: Self)
        ensures
            r.raw() == element,
            r.field_of() == *field,
    {
        Self { element, field }
    }
}

impl PrimIntField<u64> {
    /// The element that stands for `element`: the word is reduced modulo the
    /// modulus and put into Montgomery form.
    pub fn wrap_element(&self, element: u64) -> (r: PrimIntElement<'_, u64>)
        requires
            self.valid(),
        ensures
            r.valid(),
            r.field_of() == *self,
            r.raw() == montgomery_form(element as int, self.modulus_value(), two_64()),
            r.value() == (element as int) % self.modulus_value(),
    {
        proof {
            lemma_reduce_montgomery_form(
                element as int,
                self.modulus_value(),
                self.neg_inverse_value(),
                two_64(),
            );
        }
        PrimIntElement::new(element.to_montgomery(self), self)
    }

    /// The element whose stored word is `element`, which is taken to be in
    /// Montgomery form already.
    pub fn raw_element(&self, element: u64) -> (r: PrimIntElement<'_, u64>)
        ensures
            r.field_of() == *self,
            r.raw() == element,
    {
        PrimIntElement::new(element, self)
    }
}

impl PrimIntField<u128> {
    /// The element that stands for `element`: the word is reduced modulo the
    /// modulus and put into Montgomery form.
    pub fn wrap_element(&self, element: u128) -> (r: PrimIntElement<'_, u128>)
        requires
            self.valid(),
        ensures
            r.valid(),
            r.field_of() == *self,
            r.raw() == montgomery_form(element as int, self.modulus_value(), two_128()),
            r.value() == (element as int) % self.modulus_value(),
    {
        proof {
            lemma_reduce_montgomery_form(
                element as int,
                self.modulus_value(),
                self.neg_inverse_value(),
                two_128(),
            );
        }
        PrimIntElement::new(element.to_montgomery(self), self)
    }

    /// The element whose stored word is `element`, which is taken to be in
    /// Montgomery form already.
    pub fn raw_element(&self, element: u128) -> (r: PrimIntElement<'_, u128>)
        ensures
            r.field_of() == *self,
            r.raw() == element,
    {
        PrimIntElement::new(element, self)
    }
}

/// The sum of two residues below `n` is their plain sum, less `n` where it
/// reaches `n`.
proof fn lemma_add_mod(a: int, b: int, n: int)
    requires
        0 <= a < n,
        0 <= b < n,
    ensures
        add_mod(a, b, n) == if a + b >= n {
            a + b - n
        } else {
            a + b
        },
{
    if a + b >= n {
        lemma_fundamental_div_mod_converse(a + b, n, 1, a + b - n);
    } else {
        lemma_small_mod((a + b) as nat, n as nat);
    }
}

/// The difference of two residues below `n` is their plain difference, plus
/// `n` where it is negative.
proof fn lemma_sub_mod(a: int, b: int, n: int)
    requires
        0 <= a < n,
        0 <= b < n,
    ensures
        sub_mod(a, b, n) == if a < b {
            a - b + n
        } else {
            a - b
        },
{
    if a < b {
        lemma_fundamental_div_mod_converse(a - b, n, -1, a - b + n);
    } else {
        lemma_small_mod((a - b) as nat, n as nat);
    }
}

impl<'a> PrimIntElement<'a, u64> {
    /// The invariant of an element over `u64`.
    pub open spec fn valid(&self) -> bool {
        self.field_of().valid() && self.raw() < self.field_of().modulus_value()
    }

    /// The residue that the element stands for: the stored word, taken out of
    /// Montgomery form.
    pub open spec fn value(&self) -> int {
        reduce(self.raw() as int, self.field_of().modulus_value(), two_64())
    }
}

impl<'a> Element for PrimIntElement<'a, u64> {
    type UnderlyingType = u64;

    open spec fn wf(&self) -> bool {
        self.valid()
    }

    open spec fn raw_value(&self) -> int {
        self.raw() as int
    }

    open spec fn modulus(&self) -> int {
        self.field_of().modulus_value()
    }

    open spec fn radix(&self) -> int {
        two_64()
    }

    fn invert(self) -> (r: Self)
        ensures
            r.field_of() == self.field_of(),
    {
        proof {
            self.field.lemma_fields();
            if is_prime(self.field.prime as int) && self.element != 0 {
                law_inverse_of_word(
                    self.element as int,
                    self.field.prime as int,
                    self.field.prime_inverted as int,
                    self.field.r_squared as int,
                    self.radix(),
                );
            }
        }
        let mut r = self;
        r.element = self.element.mod_pow(self.field.prime - 2, self.field);
        r
    }

    fn pow(self, exponent: Self) -> (r: Self)
        ensures
            r.field_of() == self.field_of(),
    {
        proof {
            self.field.lemma_fields();
        }
        let mut r = self;
        r.element = self.element.mod_pow(exponent.element, self.field);
        r
    }

    fn internal(&self) -> (r: &u64) {
        &self.element
    }

    fn to_normal(self) -> (r: u64) {
        self.element.to_normal(self.field)
    }
}

impl<'a> core::ops::Add for PrimIntElement<'a, u64> {
    type Output = Self;

    /// The sum. Where the plain sum fits the word, the modulus is taken off
    /// once if the sum has reached it; where it does not fit, the sum modulo
    /// the modulus is `rhs - (modulus - self)`, which needs no wider word.
    fn add(self, rhs: Self) -> (r: Self)
        ensures
            r.valid(),
            r.field_of() == self.field_of(),
            r.raw() == add_mod(
                self.raw() as int,
                rhs.raw() as int,
                self.field_of().modulus_value(),
            ),
            r.value() == (self.value() + rhs.value()) % self.field_of().modulus_value(),
    {
        proof {
            self.field.lemma_fields();
            law_sum_of_words(
                self.element as int,
                rhs.element as int,
                self.field.prime as int,
                self.field.prime_inverted as int,
                self.field.r_squared as int,
                two_64(),
            );
            lemma_add_mod(self.element as int, rhs.element as int, self.field.prime as int);
        }
        let mut r = self;
        r.element = match self.element.checked_add(rhs.element) {
            Some(x) => match x.checked_sub(self.field.prime) {
                Some(y) => y,
                None => x,
            },
            None => rhs.element - (self.field.prime - self.element),
        };
        r
    }
}

impl<'a> AddSpecImpl for PrimIntElement<'a, u64> {
    open spec fn obeys_add_spec() -> bool {
        true
    }

    open spec fn add_req(self, rhs: Self) -> bool {
        self.valid() && rhs.valid() && self.field_of() == rhs.field_of()
    }

    closed spec fn add_spec(self, rhs: Self) -> Self {
        PrimIntElement {
            element: add_mod(
                self.element as int,
                rhs.element as int,
                self.field.prime as int,
            ) as u64,
            field: self.field,
        }
    }
}

impl<'a> core::ops::Sub for PrimIntElement<'a, u64> {
    type Output = Self;

    /// The difference. Where the plain difference is negative, it is
    /// `self + (modulus - rhs)` modulo the modulus.
    fn sub(self, rhs: Self) -> (r: Self)
        ensures
            r.valid(),
            r.field_of() == self.field_of(),
            r.raw() == sub_mod(
                self.raw() as int,
                rhs.raw() as int,
                self.field_of().modulus_value(),
            ),
            r.value() == (self.value() - rhs.value()) % self.field_of().modulus_value(),
    {
        proof {
            self.field.lemma_fields();
            law_difference_of_words(
                self.element as int,
                rhs.element as int,
                self.field.prime as int,
                self.field.prime_inverted as int,
                self.field.r_squared as int,
                two_64(),
            );
            lemma_sub_mod(self.element as int, rhs.element as int, self.field.prime as int);
        }
        let mut r = self;
        r.element = match self.element.checked_sub(rhs.element) {
            Some(x) => x,
            None => self.element + (self.field.prime - rhs.element),
        };
        r
    }
}

impl<'a> SubSpecImpl for PrimIntElement<'a, u64> {
    open spec fn obeys_sub_spec() -> bool {
        true
    }

    open spec fn sub_req(self, rhs: Self) -> bool {
        self.valid() && rhs.valid() && self.field_of() == rhs.field_of()
    }

    closed spec fn sub_spec(self, rhs: Self) -> Self {
        PrimIntElement {
            element: sub_mod(
                self.element as int,
                rhs.element as int,
                self.field.prime as int,
            ) as u64,
            field: self.field,
        }
    }
}

impl<'a> core::ops::Mul for PrimIntElement<'a, u64> {
    type Output = Self;

    /// The product: the full product of the two stored words, reduced.
    fn mul(self, rhs: Self) -> (r: Self)
        ensures
            r.valid(),
            r.field_of() == self.field_of(),
            r.raw() == reduce(self.raw() * rhs.raw(), self.field_of().modulus_value(), two_64()),
            r.value() == (self.value() * rhs.value()) % self.field_of().modulus_value(),
    {
        proof {
            self.field.lemma_fields();
            law_product_of_words(
                self.element as int,
                rhs.element as int,
                self.field.prime as int,
                self.field.prime_inverted as int,
                self.field.r_squared as int,
                two_64(),
            );
            lemma_product_bound_64(self.element, rhs.element, self.field);
        }
        let mut r = self;
        r.element = self.field.montgomery_reduce(
            u128::from(self.element) * u128::from(rhs.element),
        );
        r
    }
}

impl<'a> MulSpecImpl for PrimIntElement<'a, u64> {
    open spec fn obeys_mul_spec() -> bool {
        true
    }

    open spec fn mul_req(self, rhs: Self) -> bool {
        self.valid() && rhs.valid() && self.field_of() == rhs.field_of()
    }

    closed spec fn mul_spec(self, rhs: Self) -> Self {
        PrimIntElement {
            element: reduce(self.element * rhs.element, self.field.prime as int, two_64()) as u64,
            field: self.field,
        }
    }
}

impl<'a> PrimIntElement<'a, u128> {
    /// The invariant of an element over `u128`.
    pub open spec fn valid(&self) -> bool {
        self.field_of().valid() && self.raw() < self.field_of().modulus_value()
    }

    /// The residue that the element stands for: the stored word, taken out of
    /// Montgomery form.
    pub open spec fn value(&self) -> int {
        reduce(self.raw() as int, self.field_of().modulus_value(), two_128())
    }
}

impl<'a> Element for PrimIntElement<'a, u128> {
    type UnderlyingType = u128;

    open spec fn wf(&self) -> bool {
        self.valid()
    }

    open spec fn raw_value(&self) -> int {
        self.raw() as int
    }

    open spec fn modulus(&self) -> int {
        self.field_of().modulus_value()
    }

    open spec fn radix(&self) -> int {
        two_128()
    }

    fn invert(self) -> (r: Self)
        ensures
            r.field_of() == self.field_of(),
    {
        proof {
            self.field.lemma_fields();
            if is_prime(self.field.prime as int) && self.element != 0 {
                law_inverse_of_word(
                    self.element as int,
                    self.field.prime as int,
                    self.field.prime_inverted as int,
                    self.field.r_squared as int,
                    self.radix(),
                );
            }
        }
        let mut r = self;
        r.element = self.element.mod_pow(self.field.prime - 2, self.field);
        r
    }

    fn pow(self, exponent: Self) -> (r: Self)
        ensures
            r.field_of() == self.field_of(),
    {
        proof {
            self.field.lemma_fields();
        }
        let mut r = self;
        r.element = self.element.mod_pow(exponent.element, self.field);
        r
    }

    fn internal(&self) -> (r: &u128) {
        &self.element
    }

    fn to_normal(self) -> (r: u128) {
        self.element.to_normal(self.field)
    }
}

impl<'a> core::ops::Add for PrimIntElement<'a, u128> {
    type Output = Self;

    /// The sum. Where the plain sum fits the word, the modulus is taken off
    /// once if the sum has reached it; where it does not fit, the sum modulo
    /// the modulus is `rhs - (modulus - self)`, which needs no wider word.
    fn add(self, rhs: Self) -> (r: Self)
        ensures
            r.valid(),
            r.field_of() == self.field_of(),
            r.raw() == add_mod(
                self.raw() as int,
                rhs.raw() as int,
                self.field_of().modulus_value(),
            ),
            r.value() == (self.value() + rhs.value()) % self.field_of().modulus_value(),
    {
        proof {
            self.field.lemma_fields();
            law_sum_of_words(
                self.element as int,
                rhs.element as int,
                self.field.prime as int,
                self.field.prime_inverted as int,
                self.field.r_squared as int,
                two_128(),
            );
            lemma_add_mod(self.element as int, rhs.element as int, self.field.prime as int);
        }
        let mut r = self;
        r.element = match self.element.checked_add(rhs.element) {
            Some(x) => match x.checked_sub(self.field.prime) {
                Some(y) => y,
                None => x,
            },
            None => rhs.element - (self.field.prime - self.element),
        };
        r
    }
}

impl<'a> AddSpecImpl for PrimIntElement<'a, u128> {
    open spec fn obeys_add_spec() -> bool {
        true
    }

    open spec fn add_req(self, rhs: Self) -> bool {
        self.valid() && rhs.valid() && self.field_of() == rhs.field_of()
    }

    closed spec fn add_spec(self, rhs: Self) -> Self {
        PrimIntElement {
            element: add_mod(
                self.element as int,
                rhs.element as int,
                self.field.prime as int,
            ) as u128,
            field: self.field,
        }
    }
}

impl<'a> core::ops::Sub for PrimIntElement<'a, u128> {
    type Output = Self;

    /// The difference. Where the plain difference is negative, it is
    /// `self + (modulus - rhs)` modulo the modulus.
    fn sub(self, rhs: Self) -> (r: Self)
        ensures
            r.valid(),
            r.field_of() == self.field_of(),
            r.raw() == sub_mod(
                self.raw() as int,
                rhs.raw() as int,
                self.field_of().modulus_value(),
            ),
            r.value() == (self.value() - rhs.value()) % self.field_of().modulus_value(),
    {
        proof {
            self.field.lemma_fields();
            law_difference_of_words(
                self.element as int,
                rhs.element as int,
                self.field.prime as int,
                self.field.prime_inverted as int,
                self.field.r_squared as int,
                two_128(),
            );
            lemma_sub_mod(self.element as int, rhs.element as int, self.field.prime as int);
        }
        let mut r = self;
        r.element = match self.element.checked_sub(rhs.element) {
            Some(x) => x,
            None => self.element + (self.field.prime - rhs.element),
        };
        r
    }
}

impl<'a> SubSpecImpl for PrimIntElement<'a, u128> {
    open spec fn obeys_sub_spec() -> bool {
        true
    }

    open spec fn sub_req(self, rhs: Self) -> bool {
        self.valid() && rhs.valid() && self.field_of() == rhs.field_of()
    }

    closed spec fn sub_spec(self, rhs: Self) -> Self {
        PrimIntElement {
            element: sub_mod(
                self.element as int,
                rhs.element as int,
                self.field.prime as int,
            ) as u128,
            field: self.field,
        }
    }
}

impl<'a> core::ops::Mul for PrimIntElement<'a, u128> {
    type Output = Self;

    /// The product: the full product of the two stored words, reduced.
    fn mul(self, rhs: Self) -> (r: Self)
        ensures
            r.valid(),
            r.field_of() == self.field_of(),
            r.raw() == reduce(self.raw() * rhs.raw(), self.field_of().modulus_value(), two_128()),
            r.value() == (self.value() * rhs.value()) % self.field_of().modulus_value(),
    {
        proof {
            self.field.lemma_fields();
            law_product_of_words(
                self.element as int,
                rhs.element as int,
                self.field.prime as int,
                self.field.prime_inverted as int,
                self.field.r_squared as int,
                two_128(),
            );
            lemma_product_bound_128(self.element, rhs.element, self.field);
        }
        let mut r = self;
        r.element = self.field.montgomery_reduce(DoubleWidth::mult(self.element, rhs.element));
        r
    }
}

impl<'a> MulSpecImpl for PrimIntElement<'a, u128> {
    open spec fn obeys_mul_spec() -> bool {
        true
    }

    open spec fn mul_req(self, rhs: Self) -> bool {
        self.valid() && rhs.valid() && self.field_of() == rhs.field_of()
    }

    closed spec fn mul_spec(self, rhs: Self) -> Self {
        PrimIntElement {
            element: reduce(
                self.element * rhs.element,
                self.field.prime as int,
                two_128(),
            ) as u128,
            field: self.field,
        }
    }
}

/// An element of a field over arbitrary precision integers.
#[derive(Clone, Debug)]
pub struct RugElement<'a> {
    pub(crate) element: Integer,
    pub(crate) field: &'a RugField,
}

impl RugField {
    /// The element that stands for `element`: the integer is reduced modulo
    /// the modulus and put into Montgomery form.
    pub fn wrap_element(&self, element: Integer) -> (r: RugElement<'_>)
        requires
            self.valid(),
        ensures
            r.valid(),
            r.field_of() == *self,
            r.raw() == montgomery_form(
                integer_value(&element),
                self.modulus_value(),
                self.radix_value(),
            ),
            r.value() == integer_value(&element) % self.modulus_value(),
    {
        proof {
            lemma_reduce_montgomery_form(
                integer_value(&element),
                self.modulus_value(),
                self.neg_inverse_value(),
                self.radix_value(),
            );
        }
        RugElement::new(element.to_montgomery(self), self)
    }
}

impl<'a> RugElement<'a> {
    /// The stored integer: the Montgomery form of the value.
    pub closed spec fn raw(&self) -> int {
        integer_value(&self.element)
    }

    /// The field that the element belongs to.
    pub closed spec fn field_of(&self) -> RugField {
        *self.field
    }

    /// The invariant of an element over arbitrary precision integers.
    pub open spec fn valid(&self) -> bool {
        self.field_of().valid() && 0 <= self.raw() < self.field_of().modulus_value()
    }

    /// The residue that the element stands for: the stored integer, taken out
    /// of Montgomery form.
    pub open spec fn value(&self) -> int {
        reduce(self.raw(), self.field_of().modulus_value(), self.field_of().radix_value())
    }

    /// An element from an integer that is already in Montgomery form.
    pub fn new(element: Integer, field: &'a RugField) -> (r: Self)
        ensures
            r.raw() == integer_value(&element),
            r.field_of() == *field,
    {
        Self { element, field }
    }
}

impl<'a> Element for RugElement<'a> {
    type UnderlyingType = Integer;

    open spec fn wf(&self) -> bool {
        self.valid()
    }

    open spec fn raw_value(&self) -> int {
        self.raw()
    }

    open spec fn modulus(&self) -> int {
        self.field_of().modulus_value()
    }

    open spec fn radix(&self) -> int {
        self.field_of().radix_value()
    }

    fn invert(self) -> (r: Self)
        ensures
            r.field_of() == self.field_of(),
    {
        proof {
            self.field.lemma_fields();
            if is_prime(integer_value(&self.field.prime)) && integer_value(&self.element) != 0 {
                law_inverse_of_word(
                    integer_value(&self.element),
                    integer_value(&self.field.prime),
                    integer_value(&self.field.prime_inverted),
                    integer_value(&self.field.r_squared),
                    self.radix(),
                );
            }
        }
        let exponent = big_sub(self.field.prime.clone(), &big_from_u32(2));
        RugElement { element: self.element.mod_pow(exponent, self.field), field: self.field }
    }

    fn pow(self, exponent: Self) -> (r: Self)
        ensures
            r.field_of() == self.field_of(),
    {
        proof {
            self.field.lemma_fields();
        }
        RugElement {
            element: self.element.mod_pow(exponent.element, self.field),
            field: self.field,
        }
    }

    fn internal(&self) -> (r: &Integer) {
        &self.element
    }

    fn to_normal(self) -> (r: Integer) {
        self.element.to_normal(self.field)
    }
}

impl<'a> core::ops::Add for RugElement<'a> {
    type Output = Self;

    /// The sum: the plain sum, less the modulus where the sum has reached it.
    fn add(self, rhs: Self) -> (r: Self)
        ensures
            r.valid(),
            r.field_of() == self.field_of(),
            r.raw() == add_mod(self.raw(), rhs.raw(), self.field_of().modulus_value()),
            r.value() == (self.value() + rhs.value()) % self.field_of().modulus_value(),
    {
        proof {
            self.field.lemma_fields();
            law_sum_of_words(
                integer_value(&self.element),
                integer_value(&rhs.element),
                integer_value(&self.field.prime),
                integer_value(&self.field.prime_inverted),
                integer_value(&self.field.r_squared),
                self.field.radix_value(),
            );
            self.field.lemma_fields();
            lemma_add_mod(
                integer_value(&self.element),
                integer_value(&rhs.element),
                integer_value(&self.field.prime),
            );
        }
        let sum = big_add(self.element, &rhs.element);
        let element = if !big_lt(&sum, &self.field.prime) {
            big_sub(sum, &self.field.prime)
        } else {
            sum
        };
        RugElement { element, field: self.field }
    }
}

impl<'a> AddSpecImpl for RugElement<'a> {
    open spec fn obeys_add_spec() -> bool {
        false
    }

    open spec fn add_req(self, rhs: Self) -> bool {
        self.valid() && rhs.valid() && self.field_of() == rhs.field_of()
    }

    open spec fn add_spec(self, rhs: Self) -> Self {
        self
    }
}

impl<'a> core::ops::Sub for RugElement<'a> {
    type Output = Self;

    /// The difference: the plain difference, plus the modulus where the
    /// difference is negative.
    fn sub(self, rhs: Self) -> (r: Self)
        ensures
            r.valid(),
            r.field_of() == self.field_of(),
            r.raw() == sub_mod(self.raw(), rhs.raw(), self.field_of().modulus_value()),
            r.value() == (self.value() - rhs.value()) % self.field_of().modulus_value(),
    {
        proof {
            self.field.lemma_fields();
            law_difference_of_words(
                integer_value(&self.element),
                integer_value(&rhs.element),
                integer_value(&self.field.prime),
                integer_value(&self.field.prime_inverted),
                integer_value(&self.field.r_squared),
                self.field.radix_value(),
            );
            self.field.lemma_fields();
            lemma_sub_mod(
                integer_value(&self.element),
                integer_value(&rhs.element),
                integer_value(&self.field.prime),
            );
        }
        let difference = big_sub(self.element, &rhs.element);
        let element = if big_lt(&difference, &big_from_u32(0)) {
            big_add(difference, &self.field.prime)
        } else {
            difference
        };
        RugElement { element, field: self.field }
    }
}

impl<'a> SubSpecImpl for RugElement<'a> {
    open spec fn obeys_sub_spec() -> bool {
        false
    }

    open spec fn sub_req(self, rhs: Self) -> bool {
        self.valid() && rhs.valid() && self.field_of() == rhs.field_of()
    }

    open spec fn sub_spec(self, rhs: Self) -> Self {
        self
    }
}

impl<'a> core::ops::Mul for RugElement<'a> {
    type Output = Self;

    /// The product: the product of the two stored integers, reduced.
    fn mul(self, rhs: Self) -> (r: Self)
        ensures
            r.valid(),
            r.field_of() == self.field_of(),
            r.raw() == reduce(
                self.raw() * rhs.raw(),
                self.field_of().modulus_value(),
                self.field_of().radix_value(),
            ),
            r.value() == (self.value() * rhs.value()) % self.field_of().modulus_value(),
    {
        proof {
            self.field.lemma_fields();
            law_product_of_words(
                integer_value(&self.element),
                integer_value(&rhs.element),
                integer_value(&self.field.prime),
                integer_value(&self.field.prime_inverted),
                integer_value(&self.field.r_squared),
                self.field.radix_value(),
            );
            lemma_product_bound_big(
                integer_value(&self.element),
                integer_value(&rhs.element),
                self.field,
            );
        }
        let element = self.field.montgomery_reduce(big_mul(self.element, &rhs.element));
        RugElement { element, field: self.field }
    }
}

impl<'a> MulSpecImpl for RugElement<'a> {
    open spec fn obeys_mul_spec() -> bool {
        false
    }

    open spec fn mul_req(self, rhs: Self) -> bool {
        self.valid() && rhs.valid() && self.field_of() == rhs.field_of()
    }

    open spec fn mul_spec(self, rhs: Self) -> Self {
        self
    }
}

} // verus!

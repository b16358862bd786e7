use vstd::prelude::*;

verus! {

/// The capabilities a count type offers: an additive identity, a single
/// occurrence, addition, subtraction and a total order, all described through
/// the mathematical integer that a count stands for.
pub trait Count: Copy + Sized {
    /// The integer this count stands for.
    spec fn value(self) -> int;

    /// The least integer the type can hold.
    spec fn lowest() -> int;

    /// The greatest integer the type can hold.
    spec fn highest() -> int;

    /// Zero and one are always representable.
    proof fn range_holds_identities()
        ensures
            Self::lowest() <= 0,
            1 <= Self::highest(),
    ;

    /// Every count lies within the type's range.
    proof fn value_in_range(self)
        ensures
            Self::lowest() <= self.value() <= Self::highest(),
    ;

    /// Two counts that stand for the same integer are the same count.
    proof fn value_is_injective(a: Self, b: Self)
        requires
            a.value() == b.value(),
        ensures
            a == b,
    ;

    /// The additive identity.
    fn zero() -> (z: Self)
        ensures
            z.value() == 0,
    ;

    /// A single occurrence.
    fn one() -> (o: Self)
        ensures
            o.value() == 1,
    ;

    /// The sum of two counts, where it is representable.
    fn plus(self, rhs: Self) -> (sum: Self)
        requires
            Self::lowest() <= self.value() + rhs.value() <= Self::highest(),
        ensures
            sum.value() == self.value() + rhs.value(),
    ;

    /// The sum of two counts, or `None` where the type cannot hold it.
    fn checked_plus(self, rhs: Self) -> (sum: Option<Self>)
        ensures
            sum is Some <==> Self::lowest() <= self.value() + rhs.value() <= Self::highest(),
            sum is Some ==> sum.unwrap().value() == self.value() + rhs.value(),
    ;

    /// The difference of two counts, or `None` where the type cannot hold
    /// it.
    fn checked_minus(self, rhs: Self) -> (difference: Option<Self>)
        ensures
            difference is Some <==> Self::lowest() <= self.value() - rhs.value() <= Self::highest(),
            difference is Some ==> difference.unwrap().value() == self.value() - rhs.value(),
    ;

    /// The difference of two counts, where it is representable.
    fn minus(self, rhs: Self) -> (difference: Self)
        requires
            Self::lowest() <= self.value() - rhs.value() <= Self::highest(),
        ensures
            difference.value() == self.value() - rhs.value(),
    ;

    /// Whether this count is at most `rhs`.
    fn at_most(self, rhs: Self) -> (b: bool)
        ensures
            b == (self.value() <= rhs.value()),
    ;

    /// Whether the two counts stand for the same integer.
    fn same(self, rhs: Self) -> (b: bool)
        ensures
            b == (self.value() == rhs.value()),
    ;

    /// Whether this count is at least the plain number `k`.
    fn reaches(self, k: usize) -> (b: bool)
        ensures
            b == (self.value() >= k),
    ;
}

/// Whether the integer `v` lies within the range of the count type `N`.
pub open spec fn fits<N: Count>(v: int) -> bool {
    N::lowest() <= v <= N::highest()
}

/// Calls `num_traits::zero` at `usize`, which hands on what `Zero::zero` gives
/// for `usize`. The contract claims that this is the number 0.
#[verifier::external_body]
fn zero_usize() -> (z: usize)
    ensures
        z == 0,
{
    num_traits::zero::<usize>()
}

/// Calls `num_traits::one` at `usize`, which hands on what `One::one` gives
/// for `usize`. The contract claims that this is the number 1.
#[verifier::external_body]
fn one_usize() -> (o: usize)
    ensures
        o == 1,
{
    num_traits::one::<usize>()
}

impl Count for usize {
    open spec fn value(self) -> int {
        self as int
    }

    open spec fn lowest() -> int {
        0
    }

    open spec fn highest() -> int {
        usize::MAX as int
    }

    proof fn range_holds_identities() {
    }

    proof fn value_in_range(self) {
    }

    proof fn value_is_injective(a: Self, b: Self) {
    }

    fn zero() -> (z: Self) {
        zero_usize()
    }

    fn one() -> (o: Self) {
        one_usize()
    }

    fn plus(self, rhs: Self) -> (sum: Self) {
        self + rhs
    }

    fn checked_plus(self, rhs: Self) -> (sum: Option<Self>) {
        self.checked_add(rhs)
    }

    fn checked_minus(self, rhs: Self) -> (difference: Option<Self>) {
        self.checked_sub(rhs)
    }

    fn minus(self, rhs: Self) -> (difference: Self) {
        self - rhs
    }

    fn at_most(self, rhs: Self) -> (b: bool) {
        self <= rhs
    }

    fn same(self, rhs: Self) -> (b: bool) {
        self == rhs
    }

    fn reaches(self, k: usize) -> (b: bool) {
        self >= k
    }
}

/// Calls `num_traits::zero` at `u32`, which hands on what `Zero::zero` gives
/// for `u32`. The contract claims that this is the number 0.
#[verifier::external_body]
fn zero_u32() -> (z: u32)
    ensures
        z == 0,
{
    num_traits::zero::<u32>()
}

/// Calls `num_traits::one` at `u32`, which hands on what `One::one` gives
/// for `u32`. The contract claims that this is the number 1.
#[verifier::external_body]
fn one_u32() -> (o: u32)
    ensures
        o == 1,
{
    num_traits::one::<u32>()
}

impl Count for u32 {
    open spec fn value(self) -> int {
        self as int
    }

    open spec fn lowest() -> int {
        0
    }

    open spec fn highest() -> int {
        u32::MAX as int
    }

    proof fn range_holds_identities() {
    }

    proof fn value_in_range(self) {
    }

    proof fn value_is_injective(a: Self, b: Self) {
    }

    fn zero() -> (z: Self) {
        zero_u32()
    }

    fn one() -> (o: Self) {
        one_u32()
    }

    fn plus(self, rhs: Self) -> (sum: Self) {
        self + rhs
    }

    fn checked_plus(self, rhs: Self) -> (sum: Option<Self>) {
        self.checked_add(rhs)
    }

    fn checked_minus(self, rhs: Self) -> (difference: Option<Self>) {
        self.checked_sub(rhs)
    }

    fn minus(self, rhs: Self) -> (difference: Self) {
        self - rhs
    }

    fn at_most(self, rhs: Self) -> (b: bool) {
        self <= rhs
    }

    fn same(self, rhs: Self) -> (b: bool) {
        self == rhs
    }

    fn reaches(self, k: usize) -> (b: bool) {
        self as u128 >= k as u128
    }
}

/// Calls `num_traits::zero` at `u64`, which hands on what `Zero::zero` gives
/// for `u64`. The contract claims that this is the number 0.
#[verifier::external_body]
fn zero_u64() -> (z: u64)
    ensures
        z == 0,
{
    num_traits::zero::<u64>()
}

/// Calls `num_traits::one` at `u64`, which hands on what `One::one` gives
/// for `u64`. The contract claims that this is the number 1.
#[verifier::external_body]
fn one_u64() -> (o: u64)
    ensures
        o == 1,
{
    num_traits::one::<u64>()
}

impl Count for u64 {
    open spec fn value(self) -> int {
        self as int
    }

    open spec fn lowest() -> int {
        0
    }

    open spec fn highest() -> int {
        u64::MAX as int
    }

    proof fn range_holds_identities() {
    }

    proof fn value_in_range(self) {
    }

    proof fn value_is_injective(a: Self, b: Self) {
    }

    fn zero() -> (z: Self) {
        zero_u64()
    }

    fn one() -> (o: Self) {
        one_u64()
    }

    fn plus(self, rhs: Self) -> (sum: Self) {
        self + rhs
    }

    fn checked_plus(self, rhs: Self) -> (sum: Option<Self>) {
        self.checked_add(rhs)
    }

    fn checked_minus(self, rhs: Self) -> (difference: Option<Self>) {
        self.checked_sub(rhs)
    }

    fn minus(self, rhs: Self) -> (difference: Self) {
        self - rhs
    }

    fn at_most(self, rhs: Self) -> (b: bool) {
        self <= rhs
    }

    fn same(self, rhs: Self) -> (b: bool) {
        self == rhs
    }

    fn reaches(self, k: usize) -> (b: bool) {
        self as u128 >= k as u128
    }
}

/// Calls `num_traits::zero` at `i8`, which hands on what `Zero::zero` gives
/// for `i8`. The contract claims that this is the number 0.
#[verifier::external_body]
fn zero_i8() -> (z: i8)
    ensures
        z == 0,
{
    num_traits::zero::<i8>()
}

/// Calls `num_traits::one` at `i8`, which hands on what `One::one` gives
/// for `i8`. The contract claims that this is the number 1.
#[verifier::external_body]
fn one_i8() -> (o: i8)
    ensures
        o == 1,
{
    num_traits::one::<i8>()
}

impl Count for i8 {
    open spec fn value(self) -> int {
        self as int
    }

    open spec fn lowest() -> int {
        i8::MIN as int
    }

    open spec fn highest() -> int {
        i8::MAX as int
    }

    proof fn range_holds_identities() {
    }

    proof fn value_in_range(self) {
    }

    proof fn value_is_injective(a: Self, b: Self) {
    }

    fn zero() -> (z: Self) {
        zero_i8()
    }

    fn one() -> (o: Self) {
        one_i8()
    }

    fn plus(self, rhs: Self) -> (sum: Self) {
        self + rhs
    }

    fn checked_plus(self, rhs: Self) -> (sum: Option<Self>) {
        self.checked_add(rhs)
    }

    fn checked_minus(self, rhs: Self) -> (difference: Option<Self>) {
        self.checked_sub(rhs)
    }

    fn minus(self, rhs: Self) -> (difference: Self) {
        self - rhs
    }

    fn at_most(self, rhs: Self) -> (b: bool) {
        self <= rhs
    }

    fn same(self, rhs: Self) -> (b: bool) {
        self == rhs
    }

    fn reaches(self, k: usize) -> (b: bool) {
        self >= 0 && self as u128 >= k as u128
    }
}

/// Calls `num_traits::zero` at `i32`, which hands on what `Zero::zero` gives
/// for `i32`. The contract claims that this is the number 0.
#[verifier::external_body]
fn zero_i32() -> (z: i32)
    ensures
        z == 0,
{
    num_traits::zero::<i32>()
}

/// Calls `num_traits::one` at `i32`, which hands on what `One::one` gives
/// for `i32`. The contract claims that this is the number 1.
#[verifier::external_body]
fn one_i32() -> (o: i32)
    ensures
        o == 1,
{
    num_traits::one::<i32>()
}

impl Count for i32 {
    open spec fn value(self) -> int {
        self as int
    }

    open spec fn lowest() -> int {
        i32::MIN as int
    }

    open spec fn highest() -> int {
        i32::MAX as int
    }

    proof fn range_holds_identities() {
    }

    proof fn value_in_range(self) {
    }

    proof fn value_is_injective(a: Self, b: Self) {
    }

    fn zero() -> (z: Self) {
        zero_i32()
    }

    fn one() -> (o: Self) {
        one_i32()
    }

    fn plus(self, rhs: Self) -> (sum: Self) {
        self + rhs
    }

    fn checked_plus(self, rhs: Self) -> (sum: Option<Self>) {
        self.checked_add(rhs)
    }

    fn checked_minus(self, rhs: Self) -> (difference: Option<Self>) {
        self.checked_sub(rhs)
    }

    fn minus(self, rhs: Self) -> (difference: Self) {
        self - rhs
    }

    fn at_most(self, rhs: Self) -> (b: bool) {
        self <= rhs
    }

    fn same(self, rhs: Self) -> (b: bool) {
        self == rhs
    }

    fn reaches(self, k: usize) -> (b: bool) {
        self >= 0 && self as u128 >= k as u128
    }
}

/// Calls `num_traits::zero` at `i64`, which hands on what `Zero::zero` gives
/// for `i64`. The contract claims that this is the number 0.
#[verifier::external_body]
fn zero_i64() -> (z: i64)
    ensures
        z == 0,
{
    num_traits::zero::<i64>()
}

/// Calls `num_traits::one` at `i64`, which hands on what `One::one` gives
/// for `i64`. The contract claims that this is the number 1.
#[verifier::external_body]
fn one_i64() -> (o: i64)
    ensures
        o == 1,
{
    num_traits::one::<i64>()
}

impl Count for i64 {
    open spec fn value(self) -> int {
        self as int
    }

    open spec fn lowest() -> int {
        i64::MIN as int
    }

    open spec fn highest() -> int {
        i64::MAX as int
    }

    proof fn range_holds_identities() {
    }

    proof fn value_in_range(self) {
    }

    proof fn value_is_injective(a: Self, b: Self) {
    }

    fn zero() -> (z: Self) {
        zero_i64()
    }

    fn one() -> (o: Self) {
        one_i64()
    }

    fn plus(self, rhs: Self) -> (sum: Self) {
        self + rhs
    }

    fn checked_plus(self, rhs: Self) -> (sum: Option<Self>) {
        self.checked_add(rhs)
    }

    fn checked_minus(self, rhs: Self) -> (difference: Option<Self>) {
        self.checked_sub(rhs)
    }

    fn minus(self, rhs: Self) -> (difference: Self) {
        self - rhs
    }

    fn at_most(self, rhs: Self) -> (b: bool) {
        self <= rhs
    }

    fn same(self, rhs: Self) -> (b: bool) {
        self == rhs
    }

    fn reaches(self, k: usize) -> (b: bool) {
        self >= 0 && self as u128 >= k as u128
    }
}

} // verus!

//! Width classes: how many whole bytes a value may reach.
//!
//! A width class is a type-level number from one to eight, taken from
//! `typenum`. It tells the writer how many bytes to store behind the one
//! that holds the cursor, and `typenum_loops` unrolls the loop over those
//! bytes for it at compile time.

use crate::bits::{slice, with_slices};
use vstd::prelude::*;

verus! {

/// A type-level unsigned number of `typenum`, in binary: the higher bits and
/// the lowest bit. Nothing is known of its values here.
#[verifier::external_type_specification]
#[verifier::external_body]
#[verifier::reject_recursive_types(U)]
#[verifier::reject_recursive_types(B)]
pub struct ExUInt<U, B>(typenum::UInt<U, B>);

/// The end of a type-level number of `typenum`. Nothing is known of its
/// values here.
#[verifier::external_type_specification]
#[verifier::external_body]
pub struct ExUTerm(typenum::UTerm);

/// The type-level bit zero of `typenum`. Nothing is known of its values
/// here.
#[verifier::external_type_specification]
#[verifier::external_body]
pub struct ExB0(typenum::B0);

/// The type-level bit one of `typenum`. Nothing is known of its values here.
#[verifier::external_type_specification]
#[verifier::external_body]
pub struct ExB1(typenum::B1);

/// The class of values of up to 8 bits.
pub type Max8 = typenum::U1;

/// The class of values of up to 16 bits.
pub type Max16 = typenum::U2;

/// The class of values of up to 24 bits.
pub type Max24 = typenum::U3;

/// The class of values of up to 32 bits.
pub type Max32 = typenum::U4;

/// The class of values of up to 40 bits.
pub type Max40 = typenum::U5;

/// The class of values of up to 48 bits.
pub type Max48 = typenum::U6;

/// The class of values of up to 56 bits.
pub type Max56 = typenum::U7;

/// The class of values of up to 64 bits.
pub type Max64 = typenum::U8;

/// A width class: a type that stands for a number of bytes from one to
/// eight. A value of up to `8 * bytes()` bits reaches, from any cursor, no
/// further than `bytes()` bytes behind the byte that holds the cursor.
pub trait ByteSize {
    /// The number of bytes that the class stands for.
    spec fn bytes() -> nat;

    /// A class stands for one to eight bytes.
    proof fn bytes_in_range()
        ensures
            1 <= Self::bytes() <= 8,
    ;

    /// The number of bytes that the class stands for.
    fn to_usize() -> (n: usize)
        ensures
            n == Self::bytes(),
    ;

    /// Replaces the `bytes()` bytes behind index `first` by the slices of
    /// `rest`, the lowest slice first, in a loop unrolled for the class.
    fn store_slices(buf: &mut Vec<u8>, first: usize, rest: u64)
        requires
            first + Self::bytes() < old(buf).len(),
        ensures
            final(buf)@ == with_slices(old(buf)@, first as int, rest, Self::bytes() as int),
    ;
}

/// Stores slice `i` of `rest` into the byte `i + 1` places behind index
/// `first`.
pub fn put_slice(buf: &mut Vec<u8>, first: usize, rest: u64, i: usize)
    requires
        i < 8,
        first + i + 1 < old(buf).len(),
    ensures
        final(buf)@ == old(buf)@.update(first + i + 1, slice(rest, i as int)),
{
    let shift: u64 = 8 * (i as u64);
    buf[first + i + 1] = #[verifier::truncate] ((rest >> shift) as u8);
}

/// `typenum::Unsigned::to_usize` for `typenum::U1`. It returns the number
/// that the type stands for, which is one.
#[verifier::external_body]
fn to_usize_u1() -> (n: usize)
    ensures
        n == 1,
{
    <typenum::U1 as typenum::Unsigned>::to_usize()
}

/// `typenum_loops::Loop::full_unroll` for `typenum::U1`. It calls the closure
/// once, with 0. The closure stores slice `i` by
/// `put_slice`, so the byte behind index `first` ends up as
/// the lowest slice of `rest`.
#[verifier::external_body]
fn full_unroll_u1(buf: &mut Vec<u8>, first: usize, rest: u64)
    requires
        first + 1 < old(buf).len(),
    ensures
        final(buf)@ == with_slices(old(buf)@, first as int, rest, 1),
{
    <typenum::U1 as typenum_loops::Loop>::full_unroll(&mut |i| put_slice(buf, first, rest, i))
}

impl ByteSize for typenum::U1 {
    open spec fn bytes() -> nat {
        1
    }

    proof fn bytes_in_range() {
    }

    fn to_usize() -> (n: usize) {
        to_usize_u1()
    }

    fn store_slices(buf: &mut Vec<u8>, first: usize, rest: u64) {
        full_unroll_u1(buf, first, rest)
    }
}

/// `typenum::Unsigned::to_usize` for `typenum::U2`. It returns the number
/// that the type stands for, which is two.
#[verifier::external_body]
fn to_usize_u2() -> (n: usize)
    ensures
        n == 2,
{
    <typenum::U2 as typenum::Unsigned>::to_usize()
}

/// `typenum_loops::Loop::full_unroll` for `typenum::U2`. It calls the closure
/// with 0 and then with 1. The closure stores slice `i` by
/// `put_slice`, so the two bytes behind index `first`
/// end up as the two lowest slices of `rest`.
#[verifier::external_body]
fn full_unroll_u2(buf: &mut Vec<u8>, first: usize, rest: u64)
    requires
        first + 2 < old(buf).len(),
    ensures
        final(buf)@ == with_slices(old(buf)@, first as int, rest, 2),
{
    <typenum::U2 as typenum_loops::Loop>::full_unroll(&mut |i| put_slice(buf, first, rest, i))
}

impl ByteSize for typenum::U2 {
    open spec fn bytes() -> nat {
        2
    }

    proof fn bytes_in_range() {
    }

    fn to_usize() -> (n: usize) {
        to_usize_u2()
    }

    fn store_slices(buf: &mut Vec<u8>, first: usize, rest: u64) {
        full_unroll_u2(buf, first, rest)
    }
}

/// `typenum::Unsigned::to_usize` for `typenum::U3`. It returns the number
/// that the type stands for, which is three.
#[verifier::external_body]
fn to_usize_u3() -> (n: usize)
    ensures
        n == 3,
{
    <typenum::U3 as typenum::Unsigned>::to_usize()
}

/// `typenum_loops::Loop::full_unroll` for `typenum::U3`. It calls the closure
/// with 0, 1 and 2, in that order. The closure stores slice `i` by
/// `put_slice`, so the three bytes behind index `first`
/// end up as the three lowest slices of `rest`.
#[verifier::external_body]
fn full_unroll_u3(buf: &mut Vec<u8>, first: usize, rest: u64)
    requires
        first + 3 < old(buf).len(),
    ensures
        final(buf)@ == with_slices(old(buf)@, first as int, rest, 3),
{
    <typenum::U3 as typenum_loops::Loop>::full_unroll(&mut |i| put_slice(buf, first, rest, i))
}

impl ByteSize for typenum::U3 {
    open spec fn bytes() -> nat {
        3
    }

    proof fn bytes_in_range() {
    }

    fn to_usize() -> (n: usize) {
        to_usize_u3()
    }

    fn store_slices(buf: &mut Vec<u8>, first: usize, rest: u64) {
        full_unroll_u3(buf, first, rest)
    }
}

/// `typenum::Unsigned::to_usize` for `typenum::U4`. It returns the number
/// that the type stands for, which is four.
#[verifier::external_body]
fn to_usize_u4() -> (n: usize)
    ensures
        n == 4,
{
    <typenum::U4 as typenum::Unsigned>::to_usize()
}

/// `typenum_loops::Loop::full_unroll` for `typenum::U4`. It calls the closure
/// with 0, 1, 2 and 3, in that order. The closure stores slice `i` by
/// `put_slice`, so the four bytes behind index `first`
/// end up as the four lowest slices of `rest`.
#[verifier::external_body]
fn full_unroll_u4(buf: &mut Vec<u8>, first: usize, rest: u64)
    requires
        first + 4 < old(buf).len(),
    ensures
        final(buf)@ == with_slices(old(buf)@, first as int, rest, 4),
{
    <typenum::U4 as typenum_loops::Loop>::full_unroll(&mut |i| put_slice(buf, first, rest, i))
}

impl ByteSize for typenum::U4 {
    open spec fn bytes() -> nat {
        4
    }

    proof fn bytes_in_range() {
    }

    fn to_usize() -> (n: usize) {
        to_usize_u4()
    }

    fn store_slices(buf: &mut Vec<u8>, first: usize, rest: u64) {
        full_unroll_u4(buf, first, rest)
    }
}

/// `typenum::Unsigned::to_usize` for `typenum::U5`. It returns the number
/// that the type stands for, which is five.
#[verifier::external_body]
fn to_usize_u5() -> (n: usize)
    ensures
        n == 5,
{
    <typenum::U5 as typenum::Unsigned>::to_usize()
}

/// `typenum_loops::Loop::full_unroll` for `typenum::U5`. It calls the closure
/// with 0, 1, 2, 3 and 4, in that order. The closure stores slice `i` by
/// `put_slice`, so the five bytes behind index `first`
/// end up as the five lowest slices of `rest`.
#[verifier::external_body]
fn full_unroll_u5(buf: &mut Vec<u8>, first: usize, rest: u64)
    requires
        first + 5 < old(buf).len(),
    ensures
        final(buf)@ == with_slices(old(buf)@, first as int, rest, 5),
{
    <typenum::U5 as typenum_loops::Loop>::full_unroll(&mut |i| put_slice(buf, first, rest, i))
}

impl ByteSize for typenum::U5 {
    open spec fn bytes() -> nat {
        5
    }

    proof fn bytes_in_range() {
    }

    fn to_usize() -> (n: usize) {
        to_usize_u5()
    }

    fn store_slices(buf: &mut Vec<u8>, first: usize, rest: u64) {
        full_unroll_u5(buf, first, rest)
    }
}

/// `typenum::Unsigned::to_usize` for `typenum::U6`. It returns the number
/// that the type stands for, which is six.
#[verifier::external_body]
fn to_usize_u6() -> (n: usize)
    ensures
        n == 6,
{
    <typenum::U6 as typenum::Unsigned>::to_usize()
}

/// `typenum_loops::Loop::full_unroll` for `typenum::U6`. It calls the closure
/// with 0, 1, 2, 3, 4 and 5, in that order. The closure stores slice `i` by
/// `put_slice`, so the six bytes behind index `first`
/// end up as the six lowest slices of `rest`.
#[verifier::external_body]
fn full_unroll_u6(buf: &mut Vec<u8>, first: usize, rest: u64)
    requires
        first + 6 < old(buf).len(),
    ensures
        final(buf)@ == with_slices(old(buf)@, first as int, rest, 6),
{
    <typenum::U6 as typenum_loops::Loop>::full_unroll(&mut |i| put_slice(buf, first, rest, i))
}

impl ByteSize for typenum::U6 {
    open spec fn bytes() -> nat {
        6
    }

    proof fn bytes_in_range() {
    }

    fn to_usize() -> (n: usize) {
        to_usize_u6()
    }

    fn store_slices(buf: &mut Vec<u8>, first: usize, rest: u64) {
        full_unroll_u6(buf, first, rest)
    }
}

/// `typenum::Unsigned::to_usize` for `typenum::U7`. It returns the number
/// that the type stands for, which is seven.
#[verifier::external_body]
fn to_usize_u7() -> (n: usize)
    ensures
        n == 7,
{
    <typenum::U7 as typenum::Unsigned>::to_usize()
}

/// `typenum_loops::Loop::full_unroll` for `typenum::U7`. It calls the closure
/// with 0, 1, 2, 3, 4, 5 and 6, in that order. The closure stores slice `i` by
/// `put_slice`, so the seven bytes behind index `first`
/// end up as the seven lowest slices of `rest`.
#[verifier::external_body]
fn full_unroll_u7(buf: &mut Vec<u8>, first: usize, rest: u64)
    requires
        first + 7 < old(buf).len(),
    ensures
        final(buf)@ == with_slices(old(buf)@, first as int, rest, 7),
{
    <typenum::U7 as typenum_loops::Loop>::full_unroll(&mut |i| put_slice(buf, first, rest, i))
}

impl ByteSize for typenum::U7 {
    open spec fn bytes() -> nat {
        7
    }

    proof fn bytes_in_range() {
    }

    fn to_usize() -> (n: usize) {
        to_usize_u7()
    }

    fn store_slices(buf: &mut Vec<u8>, first: usize, rest: u64) {
        full_unroll_u7(buf, first, rest)
    }
}

/// `typenum::Unsigned::to_usize` for `typenum::U8`. It returns the number
/// that the type stands for, which is eight.
#[verifier::external_body]
fn to_usize_u8() -> (n: usize)
    ensures
        n == 8,
{
    <typenum::U8 as typenum::Unsigned>::to_usize()
}

/// `typenum_loops::Loop::full_unroll` for `typenum::U8`. It calls the closure
/// with 0, 1, 2, 3, 4, 5, 6 and 7, in that order. The closure stores slice `i` by
/// `put_slice`, so the eight bytes behind index `first`
/// end up as the eight lowest slices of `rest`.
#[verifier::external_body]
fn full_unroll_u8(buf: &mut Vec<u8>, first: usize, rest: u64)
    requires
        first + 8 < old(buf).len(),
    ensures
        final(buf)@ == with_slices(old(buf)@, first as int, rest, 8),
{
    <typenum::U8 as typenum_loops::Loop>::full_unroll(&mut |i| put_slice(buf, first, rest, i))
}

impl ByteSize for typenum::U8 {
    open spec fn bytes() -> nat {
        8
    }

    proof fn bytes_in_range() {
    }

    fn to_usize() -> (n: usize) {
        to_usize_u8()
    }

    fn store_slices(buf: &mut Vec<u8>, first: usize, rest: u64) {
        full_unroll_u8(buf, first, rest)
    }
}

} // verus!

//! Small integer vectors used as array indices and grid displacements.

use vstd::prelude::*;
use vstd::std_specs::ops::{AddSpecImpl, SubSpecImpl};

pub mod iter;

verus! {

/// A triple of components along the x, y and z axes.
#[derive(Clone, Copy, PartialEq, Eq, Structural, Debug, Hash)]
pub struct V3<T> {
    pub x: T,
    pub y: T,
    pub z: T,
}

/// A pair of components along the x and y axes.
#[derive(Clone, Copy, PartialEq, Eq, Structural, Debug, Hash)]
pub struct V2<T> {
    pub x: T,
    pub y: T,
}

pub type V2u8 = V2<u8>;

pub type V2i32 = V2<i32>;

pub type V3u8 = V3<u8>;

pub type V3i8 = V3<i8>;

pub type V3i32 = V3<i32>;

pub type V3usize = V3<usize>;

impl<T> V2<T> {
    pub fn new(x: T, y: T) -> (r: V2<T>)
        ensures
            r == (V2 { x, y }),
    {
        V2 { x, y }
    }

    /// Appends a third component.
    pub fn push(self, z: T) -> (r: V3<T>)
        ensures
            r == (V3 { x: self.x, y: self.y, z }),
    {
        V3 { x: self.x, y: self.y, z }
    }
}

impl<T> V3<T> {
    pub fn new(x: T, y: T, z: T) -> (r: V3<T>)
        ensures
            r == (V3 { x, y, z }),
    {
        V3 { x, y, z }
    }

    /// The first two components.
    pub fn xy(self) -> (r: V2<T>)
        ensures
            r == (V2 { x: self.x, y: self.y }),
    {
        V2 { x: self.x, y: self.y }
    }
}

impl<T: Copy> V3<T> {
    /// The vector whose three components all equal `v`.
    pub fn repeat(v: T) -> (r: V3<T>)
        ensures
            r == (V3 { x: v, y: v, z: v }),
    {
        V3 { x: v, y: v, z: v }
    }
}

/// A number that can be a component of a vector.
pub trait Scalar: Copy {
    /// The number zero.
    spec fn nought() -> Self;

    /// The number one.
    spec fn unit() -> Self;

    fn zero() -> (r: Self)
        ensures
            r == Self::nought(),
    ;

    fn one() -> (r: Self)
        ensures
            r == Self::unit(),
    ;
}

impl Scalar for u8 {
    open spec fn nought() -> u8 {
        0
    }

    open spec fn unit() -> u8 {
        1
    }

    fn zero() -> (r: u8) {
        0
    }

    fn one() -> (r: u8) {
        1
    }
}

impl Scalar for i8 {
    open spec fn nought() -> i8 {
        0
    }

    open spec fn unit() -> i8 {
        1
    }

    fn zero() -> (r: i8) {
        0
    }

    fn one() -> (r: i8) {
        1
    }
}

impl Scalar for i32 {
    open spec fn nought() -> i32 {
        0
    }

    open spec fn unit() -> i32 {
        1
    }

    fn zero() -> (r: i32) {
        0
    }

    fn one() -> (r: i32) {
        1
    }
}

impl Scalar for usize {
    open spec fn nought() -> usize {
        0
    }

    open spec fn unit() -> usize {
        1
    }

    fn zero() -> (r: usize) {
        0
    }

    fn one() -> (r: usize) {
        1
    }
}

impl<T: Scalar> V3<T> {
    /// The vector whose components are all zero.
    pub fn zeros() -> (r: V3<T>)
        ensures
            r == (V3 { x: T::nought(), y: T::nought(), z: T::nought() }),
    {
        V3 { x: T::zero(), y: T::zero(), z: T::zero() }
    }

    /// The unit step along the x axis.
    pub fn x() -> (r: V3<T>)
        ensures
            r == (V3 { x: T::unit(), y: T::nought(), z: T::nought() }),
    {
        V3 { x: T::one(), y: T::zero(), z: T::zero() }
    }

    /// The unit step along the y axis.
    pub fn y() -> (r: V3<T>)
        ensures
            r == (V3 { x: T::nought(), y: T::unit(), z: T::nought() }),
    {
        V3 { x: T::zero(), y: T::one(), z: T::zero() }
    }

    /// The unit step along the z axis.
    pub fn z() -> (r: V3<T>)
        ensures
            r == (V3 { x: T::nought(), y: T::nought(), z: T::unit() }),
    {
        V3 { x: T::zero(), y: T::zero(), z: T::one() }
    }
}

/// Componentwise sum of integer triples.
pub open spec fn sum3(a: V3<int>, b: V3<int>) -> V3<int> {
    V3 { x: a.x + b.x, y: a.y + b.y, z: a.z + b.z }
}

/// Componentwise difference of integer triples.
pub open spec fn diff3(a: V3<int>, b: V3<int>) -> V3<int> {
    V3 { x: a.x - b.x, y: a.y - b.y, z: a.z - b.z }
}

/// Whether every component of `v` fits in an `i32`.
pub open spec fn fits_i32(v: V3<int>) -> bool {
    &&& i32::MIN <= v.x <= i32::MAX
    &&& i32::MIN <= v.y <= i32::MAX
    &&& i32::MIN <= v.z <= i32::MAX
}

/// Whether every component of `v` fits in a `usize`.
pub open spec fn fits_usize(v: V3<int>) -> bool {
    &&& 0 <= v.x <= usize::MAX
    &&& 0 <= v.y <= usize::MAX
    &&& 0 <= v.z <= usize::MAX
}

/// Whether every component of `v` fits in a `u8`.
pub open spec fn fits_u8(v: V3<int>) -> bool {
    &&& 0 <= v.x <= u8::MAX
    &&& 0 <= v.y <= u8::MAX
    &&& 0 <= v.z <= u8::MAX
}

impl V3<usize> {
    /// The components as mathematical integers.
    pub open spec fn ints(self) -> V3<int> {
        V3 { x: self.x as int, y: self.y as int, z: self.z as int }
    }

    /// The componentwise sum, where it fits.
    pub open spec fn plus(self, rhs: V3<usize>) -> V3<usize> {
        V3 { x: (self.x + rhs.x) as usize, y: (self.y + rhs.y) as usize, z: (self.z + rhs.z) as usize }
    }

    /// The componentwise difference, where it fits.
    pub open spec fn minus(self, rhs: V3<usize>) -> V3<usize> {
        V3 { x: (self.x - rhs.x) as usize, y: (self.y - rhs.y) as usize, z: (self.z - rhs.z) as usize }
    }
}

impl V3<i32> {
    /// The components as mathematical integers.
    pub open spec fn ints(self) -> V3<int> {
        V3 { x: self.x as int, y: self.y as int, z: self.z as int }
    }

    /// The componentwise sum, where it fits.
    pub open spec fn plus(self, rhs: V3<i32>) -> V3<i32> {
        V3 { x: (self.x + rhs.x) as i32, y: (self.y + rhs.y) as i32, z: (self.z + rhs.z) as i32 }
    }

    /// The componentwise difference, where it fits.
    pub open spec fn minus(self, rhs: V3<i32>) -> V3<i32> {
        V3 { x: (self.x - rhs.x) as i32, y: (self.y - rhs.y) as i32, z: (self.z - rhs.z) as i32 }
    }
}

impl V3<u8> {
    /// The components as mathematical integers.
    pub open spec fn ints(self) -> V3<int> {
        V3 { x: self.x as int, y: self.y as int, z: self.z as int }
    }

    /// The componentwise sum, where it fits.
    pub open spec fn plus(self, rhs: V3<u8>) -> V3<u8> {
        V3 { x: (self.x + rhs.x) as u8, y: (self.y + rhs.y) as u8, z: (self.z + rhs.z) as u8 }
    }

    /// The componentwise difference, where it fits.
    pub open spec fn minus(self, rhs: V3<u8>) -> V3<u8> {
        V3 { x: (self.x - rhs.x) as u8, y: (self.y - rhs.y) as u8, z: (self.z - rhs.z) as u8 }
    }
}

impl core::ops::Add for V3<usize> {
    type Output = V3<usize>;

    fn add(self, rhs: V3<usize>) -> (r: V3<usize>) {
        V3 { x: self.x + rhs.x, y: self.y + rhs.y, z: self.z + rhs.z }
    }
}

impl AddSpecImpl for V3<usize> {
    open spec fn obeys_add_spec() -> bool {
        true
    }

    open spec fn add_req(self, rhs: V3<usize>) -> bool {
        fits_usize(sum3(self.ints(), rhs.ints()))
    }

    open spec fn add_spec(self, rhs: V3<usize>) -> V3<usize> {
        self.plus(rhs)
    }
}

impl core::ops::Sub for V3<usize> {
    type Output = V3<usize>;

    fn sub(self, rhs: V3<usize>) -> (r: V3<usize>) {
        V3 { x: self.x - rhs.x, y: self.y - rhs.y, z: self.z - rhs.z }
    }
}

impl SubSpecImpl for V3<usize> {
    open spec fn obeys_sub_spec() -> bool {
        true
    }

    open spec fn sub_req(self, rhs: V3<usize>) -> bool {
        fits_usize(diff3(self.ints(), rhs.ints()))
    }

    open spec fn sub_spec(self, rhs: V3<usize>) -> V3<usize> {
        self.minus(rhs)
    }
}

impl core::ops::Add for V3<i32> {
    type Output = V3<i32>;

    fn add(self, rhs: V3<i32>) -> (r: V3<i32>) {
        V3 { x: self.x + rhs.x, y: self.y + rhs.y, z: self.z + rhs.z }
    }
}

impl AddSpecImpl for V3<i32> {
    open spec fn obeys_add_spec() -> bool {
        true
    }

    open spec fn add_req(self, rhs: V3<i32>) -> bool {
        fits_i32(sum3(self.ints(), rhs.ints()))
    }

    open spec fn add_spec(self, rhs: V3<i32>) -> V3<i32> {
        self.plus(rhs)
    }
}

impl core::ops::Sub for V3<i32> {
    type Output = V3<i32>;

    fn sub(self, rhs: V3<i32>) -> (r: V3<i32>) {
        V3 { x: self.x - rhs.x, y: self.y - rhs.y, z: self.z - rhs.z }
    }
}

impl SubSpecImpl for V3<i32> {
    open spec fn obeys_sub_spec() -> bool {
        true
    }

    open spec fn sub_req(self, rhs: V3<i32>) -> bool {
        fits_i32(diff3(self.ints(), rhs.ints()))
    }

    open spec fn sub_spec(self, rhs: V3<i32>) -> V3<i32> {
        self.minus(rhs)
    }
}

impl core::ops::Add for V3<u8> {
    type Output = V3<u8>;

    fn add(self, rhs: V3<u8>) -> (r: V3<u8>) {
        V3 { x: self.x + rhs.x, y: self.y + rhs.y, z: self.z + rhs.z }
    }
}

impl AddSpecImpl for V3<u8> {
    open spec fn obeys_add_spec() -> bool {
        true
    }

    open spec fn add_req(self, rhs: V3<u8>) -> bool {
        fits_u8(sum3(self.ints(), rhs.ints()))
    }

    open spec fn add_spec(self, rhs: V3<u8>) -> V3<u8> {
        self.plus(rhs)
    }
}

} // verus!

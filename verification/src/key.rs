//! Key and distance abstractions for the track's coordinate axis.
//!
//! A key is a point on a totally ordered axis; a distance is a signed
//! difference between two keys. Both are modelled by a mathematical integer
//! (`key_int` / `dist_int`), together with a predicate saying which integers
//! the concrete representation can hold. Every contract of the track is
//! stated over these integer models.

use vstd::prelude::*;

verus! {

/// A signed distance between two keys.
///
/// Implementations provide an integer model (`dist_int`) and a
/// representability predicate (`dist_rep`). `dist_rep` must be closed under
/// taking intermediate values and must contain the model of every value of
/// the type; the two proof obligations below enforce this.
pub trait TrackKeyDistance: Sized {
    /// Integer model of this distance.
    spec fn dist_int(&self) -> int;

    /// Which integers the representation can hold.
    spec fn dist_rep(x: int) -> bool;

    /// The representable integers form an interval.
    proof fn lemma_dist_rep_between(lo: int, mid: int, hi: int)
        requires
            Self::dist_rep(lo),
            Self::dist_rep(hi),
            lo <= mid <= hi,
        ensures
            Self::dist_rep(mid),
    ;

    /// Zero is representable.
    proof fn lemma_dist_rep_zero()
        ensures
            Self::dist_rep(0),
    ;

    /// The model of every value is representable.
    proof fn lemma_dist_rep_val(&self)
        ensures
            Self::dist_rep(self.dist_int()),
    ;

    /// An exact copy of this distance.
    fn dup(&self) -> (r: Self)
        ensures
            r.dist_int() == self.dist_int(),
    ;

    /// Sum of two distances.
    fn add(&self, other: &Self) -> (r: Self)
        requires
            Self::dist_rep(self.dist_int() + other.dist_int()),
        ensures
            r.dist_int() == self.dist_int() + other.dist_int(),
    ;

    /// Difference of two distances.
    fn sub(&self, other: &Self) -> (r: Self)
        requires
            Self::dist_rep(self.dist_int() - other.dist_int()),
        ensures
            r.dist_int() == self.dist_int() - other.dist_int(),
    ;

    /// The negated distance.
    fn neg(&self) -> (r: Self)
        requires
            Self::dist_rep(-self.dist_int()),
        ensures
            r.dist_int() == -self.dist_int(),
    ;

    /// Absolute value.
    fn abs(&self) -> (r: Self)
        requires
            Self::dist_rep(-self.dist_int()),
        ensures
            r.dist_int() == if self.dist_int() >= 0 {
                self.dist_int()
            } else {
                -self.dist_int()
            },
    ;

    /// This distance scaled by a non-negative integer factor.
    fn scale(&self, factor: usize) -> (r: Self)
        requires
            Self::dist_rep(self.dist_int() * factor),
        ensures
            r.dist_int() == self.dist_int() * factor,
    ;

    /// Floor division of a non-negative distance by a positive one,
    /// yielding a count.
    fn div_floor(&self, other: &Self) -> (r: usize)
        requires
            self.dist_int() >= 0,
            other.dist_int() > 0,
            self.dist_int() / other.dist_int() <= usize::MAX,
        ensures
            r == self.dist_int() / other.dist_int(),
    ;

    /// Comparison of two distances.
    fn dist_le(&self, other: &Self) -> (r: bool)
        ensures
            r == (self.dist_int() <= other.dist_int()),
    ;
}

/// A point on the track's ordered coordinate axis.
///
/// Implementations provide an integer model (`key_int`) and a
/// representability predicate (`key_rep`), with the same closure obligations
/// as for distances. The default key must sit at integer zero.
pub trait TrackKey: Sized {
    /// The distance type between two keys of this type.
    type Distance: TrackKeyDistance;

    /// Integer model of this key.
    spec fn key_int(&self) -> int;

    /// Which integers the representation can hold.
    spec fn key_rep(x: int) -> bool;

    /// The representable integers form an interval.
    proof fn lemma_key_rep_between(lo: int, mid: int, hi: int)
        requires
            Self::key_rep(lo),
            Self::key_rep(hi),
            lo <= mid <= hi,
        ensures
            Self::key_rep(mid),
    ;

    /// The model of every value is representable.
    proof fn lemma_key_rep_val(&self)
        ensures
            Self::key_rep(self.key_int()),
    ;

    /// An exact copy of this key.
    fn dup(&self) -> (r: Self)
        ensures
            r.key_int() == self.key_int(),
    ;

    /// The default key, the origin of the axis.
    fn key_default() -> (r: Self)
        ensures
            r.key_int() == 0,
    ;

    /// `self < other` on the axis.
    fn key_lt(&self, other: &Self) -> (r: bool)
        ensures
            r == (self.key_int() < other.key_int()),
    ;

    /// `self <= other` on the axis.
    fn key_le(&self, other: &Self) -> (r: bool)
        ensures
            r == (self.key_int() <= other.key_int()),
    ;

    /// `self == other` on the axis.
    fn key_eq(&self, other: &Self) -> (r: bool)
        ensures
            r == (self.key_int() == other.key_int()),
    ;

    /// The signed distance from `self` to `rhs`.
    fn distance(&self, rhs: &Self) -> (r: Self::Distance)
        requires
            <Self::Distance as TrackKeyDistance>::dist_rep(rhs.key_int() - self.key_int()),
        ensures
            r.dist_int() == rhs.key_int() - self.key_int(),
    ;

    /// The key reached from `self` by moving `distance`.
    fn add_distance(&self, distance: &Self::Distance) -> (r: Self)
        requires
            Self::key_rep(self.key_int() + distance.dist_int()),
        ensures
            r.key_int() == self.key_int() + distance.dist_int(),
    ;
}

impl TrackKeyDistance for i64 {
    open spec fn dist_int(&self) -> int {
        *self as int
    }

    open spec fn dist_rep(x: int) -> bool {
        i64::MIN <= x <= i64::MAX
    }

    proof fn lemma_dist_rep_between(lo: int, mid: int, hi: int) {
    }

    proof fn lemma_dist_rep_zero() {
    }

    proof fn lemma_dist_rep_val(&self) {
    }

    fn dup(&self) -> (r: Self) {
        *self
    }

    fn add(&self, other: &Self) -> (r: Self) {
        *self + *other
    }

    fn sub(&self, other: &Self) -> (r: Self) {
        *self - *other
    }

    fn neg(&self) -> (r: Self) {
        -*self
    }

    fn abs(&self) -> (r: Self) {
        if *self >= 0 {
            *self
        } else {
            -*self
        }
    }

    fn scale(&self, factor: usize) -> (r: Self) {
        (((*self as i128) * (factor as i128)) as i64)
    }

    fn div_floor(&self, other: &Self) -> (r: usize) {
        (*self / *other) as usize
    }

    fn dist_le(&self, other: &Self) -> (r: bool) {
        *self <= *other
    }
}

impl TrackKey for i64 {
    type Distance = i64;

    open spec fn key_int(&self) -> int {
        *self as int
    }

    open spec fn key_rep(x: int) -> bool {
        i64::MIN <= x <= i64::MAX
    }

    proof fn lemma_key_rep_between(lo: int, mid: int, hi: int) {
    }

    proof fn lemma_key_rep_val(&self) {
    }

    fn dup(&self) -> (r: Self) {
        *self
    }

    fn key_default() -> (r: Self) {
        0
    }

    fn key_lt(&self, other: &Self) -> (r: bool) {
        *self < *other
    }

    fn key_le(&self, other: &Self) -> (r: bool) {
        *self <= *other
    }

    fn key_eq(&self, other: &Self) -> (r: bool) {
        *self == *other
    }

    fn distance(&self, rhs: &Self) -> (r: Self::Distance) {
        *rhs - *self
    }

    fn add_distance(&self, distance: &Self::Distance) -> (r: Self) {
        *self + *distance
    }
}

} // verus!

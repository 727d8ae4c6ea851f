//! Portals: player-owned links between two anchors of spacetime.

use crate::server::agent::Player;
use crate::server::keyframe::Coordinates;
use crate::server::store::TimeIndex;
use vstd::prelude::*;

verus! {

/// An anchor in spacetime: a place, the ticks between which it exists, and
/// the scale of the world around it, counted in fixed units.
#[derive(Clone, Copy, Debug, PartialEq, Eq)]
pub struct Endpoint {
    pub location: Coordinates,
    pub creation: TimeIndex,
    pub expiration: TimeIndex,
    pub scale: i64,
}

/// An exact fraction.
#[derive(Clone, Copy, Debug, PartialEq, Eq)]
pub struct Ratio {
    pub numerator: u64,
    pub denominator: u64,
}

/// How much a portal compresses on the way from its origin to its
/// destination.
#[derive(Clone, Copy, Debug, PartialEq, Eq)]
pub struct Compression {
    /// Destination scale over origin scale.
    pub scale: Ratio,
    /// Destination lifetime over origin lifetime.
    pub duration: Ratio,
}

/// A traversal link of one player between two endpoints.
#[derive(Clone, Copy, Debug, PartialEq, Eq)]
pub struct Portal {
    pub player: Player,
    pub origin: Endpoint,
    pub dest: Endpoint,
    pub compression_factor: Compression,
}

impl Endpoint {
    /// The number of ticks for which the endpoint exists.
    pub open spec fn lifetime(self) -> int {
        self.expiration - self.creation
    }

    /// The endpoint expires after it was created, and its scale is positive.
    pub open spec fn wf(self) -> bool {
        self.expiration > self.creation && self.scale > 0
    }
}

impl Ratio {
    /// The two fractions stand for the same number: their cross products are
    /// equal.
    pub open spec fn spec_same_value(self, other: Ratio) -> bool {
        self.numerator * other.denominator == other.numerator * self.denominator
    }

    /// Whether the two fractions stand for the same number.
    pub fn same_value(self, other: Ratio) -> (same: bool)
        ensures
            same == self.spec_same_value(other),
    {
        let a: u128 = self.numerator as u128;
        let b: u128 = other.denominator as u128;
        let c: u128 = other.numerator as u128;
        let d: u128 = self.denominator as u128;
        assert(a * b <= u128::MAX && c * d <= u128::MAX) by (nonlinear_arith)
            requires
                a <= u64::MAX,
                b <= u64::MAX,
                c <= u64::MAX,
                d <= u64::MAX,
        ;
        a * b == c * d
    }
}

impl Portal {
    /// Both endpoints are well formed, and the compression factor is the ratio
    /// of their scales and the ratio of their lifetimes.
    pub open spec fn wf(self) -> bool {
        &&& self.origin.wf()
        &&& self.dest.wf()
        &&& self.compression_factor.scale.numerator == self.dest.scale
        &&& self.compression_factor.scale.denominator == self.origin.scale
        &&& self.compression_factor.duration.numerator == self.dest.lifetime()
        &&& self.compression_factor.duration.denominator == self.origin.lifetime()
    }
}

/// The portal that `player` opens from `origin` to `dest`, both given as tick
/// and place of creation, with the lifetime and the scale of each end.
pub open spec fn portal_between(
    player: Player,
    origin: (TimeIndex, Coordinates),
    origin_lifetime: TimeIndex,
    origin_scale: i64,
    dest: (TimeIndex, Coordinates),
    dest_lifetime: TimeIndex,
    dest_scale: i64,
) -> Portal {
    Portal {
        player,
        origin: Endpoint {
            location: origin.1,
            creation: origin.0,
            expiration: (origin.0 + origin_lifetime) as TimeIndex,
            scale: origin_scale,
        },
        dest: Endpoint {
            location: dest.1,
            creation: dest.0,
            expiration: (dest.0 + dest_lifetime) as TimeIndex,
            scale: dest_scale,
        },
        compression_factor: Compression {
            scale: Ratio { numerator: dest_scale as u64, denominator: origin_scale as u64 },
            duration: Ratio {
                numerator: dest_lifetime as u64,
                denominator: origin_lifetime as u64,
            },
        },
    }
}

} // verus!

//! The caller-supplied two-point interpolation callback.

use vstd::prelude::*;

use crate::key::TrackKey;
use crate::node::NotAlignedPayload;
use crate::node::TrackData;
use crate::node::TrackNode;

verus! {

/// A two-point combiner invoked by `Track::interpolate` with the query key,
/// the two bracketing keys and the two bracketing nodes.
///
/// The result must be a pure function of the five inputs and the
/// interpolator's state before the call, as `interp_spec` describes; the
/// interpolator may update its own state but must not touch the track.
pub trait TrackInterpolator: Sized {
    /// The key type of the track's axis.
    type Key: TrackKey;

    /// The payload of an aligned sample.
    type Data: TrackData + Default;

    /// The payload of a not-aligned sample.
    type NotAlignedData: NotAlignedPayload<Data = Self::Data>;

    /// What an interpolation query produces.
    type Output;

    /// The value `interpolate` returns for the given inputs.
    spec fn interp_spec(
        &self,
        key: Self::Key,
        lhs_key: Self::Key,
        lhs: TrackNode<Self::Key, Self::Data, Self::NotAlignedData>,
        rhs_key: Self::Key,
        rhs: TrackNode<Self::Key, Self::Data, Self::NotAlignedData>,
    ) -> Self::Output;

    /// Combine the two bracketing samples for the query key.
    fn interpolate(
        &mut self,
        key: &Self::Key,
        lhs_key: Self::Key,
        lhs: &TrackNode<Self::Key, Self::Data, Self::NotAlignedData>,
        rhs_key: Self::Key,
        rhs: &TrackNode<Self::Key, Self::Data, Self::NotAlignedData>,
    ) -> (r: Self::Output)
        ensures
            r == old(self).interp_spec(*key, lhs_key, *lhs, rhs_key, *rhs),
    ;
}

} // verus!

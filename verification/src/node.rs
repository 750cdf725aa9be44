//! Sample nodes stored in a track.
//!
//! A node is either *aligned* — it sits exactly on the track's fixed-step
//! grid, its key implied by its position — or *not aligned* — it sits at an
//! arbitrary key strictly inside a grid cell and carries a snapshot of the
//! aligned sample it displaced, so a later cancellation can restore it.

use vstd::prelude::*;

verus! {

/// A payload stored in a track.
///
/// `dup` must produce an exact copy; the bound lets the track copy a
/// cancelled payload into the node that replaces it.
pub trait TrackData: Sized {
    /// An exact copy of this payload.
    fn dup(&self) -> (r: Self)
        ensures
            r == *self,
    ;
}

/// The payload of a not-aligned sample, with access to the plain payload it
/// wraps.
pub trait NotAlignedPayload: Sized {
    /// The plain payload type this wraps.
    type Data;

    /// The plain payload, as a spec-level value.
    spec fn payload_spec(&self) -> Self::Data;

    /// The plain payload this value wraps.
    fn payload(&self) -> (r: &Self::Data)
        ensures
            *r == self.payload_spec(),
    ;
}

/// A not-aligned sample: a payload at an arbitrary key, together with the
/// aligned sample (payload and key) that it displaced.
#[derive(Debug)]
pub struct NotAlignedNode<Key, Data, NA> {
    pub node: NA,
    pub key: Key,
    pub canceled_node: Data,
    pub canceled_key: Key,
}

impl<Key, Data, NA> NotAlignedNode<Key, Data, NA> {
    /// The aligned payload this sample displaced.
    pub fn canceled_node(&self) -> (r: &Data)
        ensures
            *r == self.canceled_node,
    {
        &self.canceled_node
    }

    /// The key of the aligned sample this sample displaced.
    pub fn canceled_key(&self) -> (r: &Key)
        ensures
            *r == self.canceled_key,
    {
        &self.canceled_key
    }
}

/// A sample node of a track.
#[derive(Debug)]
pub enum TrackNode<Key, Data, NA> {
    /// A sample on the grid; its key is implied by its position.
    Aligned(Data),
    /// A sample strictly inside a grid cell, with the displaced aligned
    /// sample it cancelled.
    NotAligned(NotAlignedNode<Key, Data, NA>),
}

impl<Key, Data, NA> TrackNode<Key, Data, NA> {
    /// Whether this node is an aligned sample.
    pub fn is_aligned(&self) -> (r: bool)
        ensures
            r == (*self is Aligned),
    {
        match self {
            TrackNode::Aligned(_) => true,
            TrackNode::NotAligned(_) => false,
        }
    }
}

impl<Key, Data: TrackData, NA: NotAlignedPayload<Data = Data>> TrackNode<Key, Data, NA> {
    /// The plain payload of this node, whichever variant it is.
    pub open spec fn payload_of(&self) -> Data {
        match self {
            TrackNode::Aligned(d) => *d,
            TrackNode::NotAligned(n) => n.node.payload_spec(),
        }
    }

    /// The plain payload of this node.
    pub fn payload(&self) -> (r: &Data)
        ensures
            *r == self.payload_of(),
    {
        match self {
            TrackNode::Aligned(d) => d,
            TrackNode::NotAligned(n) => n.node.payload(),
        }
    }
}

impl<Key, Data: Default, NA> Default for TrackNode<Key, Data, NA> {
    /// The filler value used for unoccupied buffer slots.
    fn default() -> (r: Self)
        ensures
            r is Aligned,
    {
        TrackNode::Aligned(Data::default())
    }
}

impl TrackData for usize {
    fn dup(&self) -> (r: Self) {
        *self
    }
}

} // verus!

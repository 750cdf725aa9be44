//! A concrete instantiation of the track's traits: identity keys (`i64`),
//! plain integer payloads, and an interpolator that hands its five inputs
//! back as a record. Useful for exercising a track and inspecting which
//! sample pair a query resolves to.

use vstd::prelude::*;

use crate::interpolator::TrackInterpolator;
use crate::node::NotAlignedPayload;
use crate::node::TrackNode;

verus! {

/// The payload of a not-aligned sample: a plain integer.
#[derive(Debug)]
pub struct DataNA(pub usize);

impl NotAlignedPayload for DataNA {
    type Data = usize;

    open spec fn payload_spec(&self) -> usize {
        self.0
    }

    fn payload(&self) -> (r: &usize) {
        &self.0
    }
}

/// The node type of a track built over this instantiation.
pub type SampleNode = TrackNode<i64, usize, DataNA>;

/// What an interpolation query over this instantiation returns: the query
/// key, and the bracketing keys and nodes, verbatim.
#[derive(Debug)]
pub struct Output {
    pub requested_key: i64,
    pub begin_key: i64,
    pub begin_node: SampleNode,
    pub end_key: i64,
    pub end_node: SampleNode,
}

/// An interpolator that records its inputs into an `Output`.
pub struct Interpolator;

impl TrackInterpolator for Interpolator {
    type Key = i64;

    type Data = usize;

    type NotAlignedData = DataNA;

    type Output = Output;

    open spec fn interp_spec(
        &self,
        key: i64,
        lhs_key: i64,
        lhs: SampleNode,
        rhs_key: i64,
        rhs: SampleNode,
    ) -> Output {
        Output {
            requested_key: key,
            begin_key: lhs_key,
            begin_node: lhs,
            end_key: rhs_key,
            end_node: rhs,
        }
    }

    fn interpolate(
        &mut self,
        key: &i64,
        lhs_key: i64,
        lhs: &SampleNode,
        rhs_key: i64,
        rhs: &SampleNode,
    ) -> (r: Output) {
        Output {
            requested_key: *key,
            begin_key: lhs_key,
            begin_node: clone_sample_node(lhs),
            end_key: rhs_key,
            end_node: clone_sample_node(rhs),
        }
    }
}

/// An exact copy of a sample node.
pub fn clone_sample_node(node: &SampleNode) -> (r: SampleNode)
    ensures
        r == *node,
{
    match node {
        TrackNode::Aligned(d) => TrackNode::Aligned(*d),
        TrackNode::NotAligned(n) => TrackNode::NotAligned(
            crate::node::NotAlignedNode {
                node: DataNA(n.node.0),
                key: n.key,
                canceled_node: n.canceled_node,
                canceled_key: n.canceled_key,
            },
        ),
    }
}

} // verus!

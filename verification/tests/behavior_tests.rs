//! End-to-end scenarios over tracks with identity keys and integer payloads.

use interp_track::node::TrackNode;
use interp_track::sample::DataNA;
use interp_track::sample::Interpolator;
use interp_track::Error;
use interp_track::Track;

#[test]
fn aligned_fill_and_interpolate_midpoint() {
    let mut track = Track::new(Interpolator, 8, 10);
    track.push_aligned(0).unwrap();
    track.push_aligned(10).unwrap();
    track.push_aligned(20).unwrap();

    let out = track.interpolate(&15).unwrap();
    assert_eq!(out.requested_key, 15);
    assert_eq!(out.begin_key, 10);
    assert_eq!(*out.begin_node.payload(), 10);
    assert_eq!(out.end_key, 20);
    assert_eq!(*out.end_node.payload(), 20);
}

#[test]
fn not_aligned_insert_and_interpolate() {
    let mut track = Track::new(Interpolator, 8, 10);
    track.push_aligned(0).unwrap();
    track.push_aligned(10).unwrap();
    track.insert_not_aligned(3, DataNA(3)).unwrap();
    track.push_aligned(10).unwrap();

    let out = track.interpolate(&2).unwrap();
    assert_eq!(out.requested_key, 2);
    assert_eq!(out.begin_key, 0);
    assert_eq!(*out.begin_node.payload(), 0);
    assert_eq!(out.end_key, 3);
    assert_eq!(*out.end_node.payload(), 3);

    let out = track.interpolate(&3).unwrap();
    assert_eq!(out.requested_key, 3);
    assert_eq!(out.begin_key, 3);
    assert_eq!(*out.begin_node.payload(), 3);
    assert_eq!(out.end_key, 10);
    assert_eq!(*out.end_node.payload(), 10);
}

#[test]
fn cancel_across_cell_boundary() {
    let mut track = Track::new(Interpolator, 8, 10);
    track.push_aligned(0).unwrap();
    track.push_aligned(10).unwrap();
    track.push_aligned(20).unwrap();
    track.push_aligned(30).unwrap();

    let canceled = track.cancel_forward(&15);
    assert_eq!(canceled.len(), 2);
    assert_eq!(*canceled.nth(0).unwrap().payload(), 20);
    assert_eq!(*canceled.nth(1).unwrap().payload(), 30);
    assert_eq!(*track.key_end(), 10);
    assert_eq!(track.ranges_len(), 1);
    assert_eq!(track.range_at(0), (0, 1));
    assert_eq!(track.nodes_len(), 2);
    assert_eq!(*track.node_ref(0).payload(), 0);
    assert_eq!(*track.node_ref(1).payload(), 10);
}

#[test]
fn insert_cancels_and_replaces() {
    let mut track = Track::new(Interpolator, 8, 10);
    track.push_aligned(0).unwrap();
    track.push_aligned(10).unwrap();

    let canceled = track.insert_not_aligned(5, DataNA(5)).unwrap();
    assert_eq!(canceled.len(), 1);
    assert_eq!(*canceled.nth(0).unwrap().payload(), 10);

    match track.node_end().unwrap() {
        TrackNode::NotAligned(n) => {
            assert_eq!(n.key, 5);
            assert_eq!(n.node.0, 5);
            assert_eq!(*n.canceled_key(), 10);
            assert_eq!(*n.canceled_node(), 10);
        },
        _ => panic!("expected not aligned node"),
    }
    assert_eq!(*track.key_end(), 5);
    assert_eq!(*track.next_step(), 5);
}

#[test]
fn truncate_back_sliding_window() {
    let mut track = Track::new(Interpolator, 6, 1);
    track.reset_track(1);
    for p in 0..=5 {
        track.push_aligned(p).unwrap();
    }

    track.truncate_back(&3);
    assert_eq!(*track.key_start(), 3);
    assert_eq!(track.nodes_len(), 4);
    assert_eq!(*track.node_ref(0).payload(), 2);
    assert_eq!(*track.node_ref(1).payload(), 3);
    assert_eq!(*track.node_ref(2).payload(), 4);
    assert_eq!(*track.node_ref(3).payload(), 5);

    track.push_aligned(6).unwrap();
    track.push_aligned(7).unwrap();
}

#[test]
fn grow_at_capacity() {
    let mut track = Track::new(Interpolator, 4, 4);
    track.push_aligned(0).unwrap();
    track.push_aligned(4).unwrap();
    track.insert_not_aligned(1, DataNA(10)).unwrap();
    track.push_aligned(4).unwrap();
    track.insert_not_aligned(2, DataNA(20)).unwrap();
    track.push_aligned(4).unwrap();
    track.insert_not_aligned(3, DataNA(30)).unwrap();
    track.push_aligned(4).unwrap();

    assert!(track.node_capacity() > 4);
    assert_eq!(track.nodes_len(), 5);
}

#[test]
fn interpolate_boundaries() {
    let mut track = Track::new(Interpolator, 8, 10);
    track.push_aligned(0).unwrap();
    track.push_aligned(10).unwrap();
    track.push_aligned(20).unwrap();

    // the very first key resolves to the first pair
    let out = track.interpolate(&0).unwrap();
    assert_eq!(out.begin_key, 0);
    assert_eq!(*out.begin_node.payload(), 0);
    assert_eq!(out.end_key, 10);
    assert_eq!(*out.end_node.payload(), 10);

    // the leading edge itself is out of range
    assert_eq!(track.interpolate(&20).unwrap_err(), Error::KeyNotInRange);
    assert_eq!(track.interpolate(&21).unwrap_err(), Error::KeyNotInRange);
    assert_eq!(track.interpolate(&-1).unwrap_err(), Error::KeyNotInRange);
}

#[test]
fn insert_boundaries() {
    let mut track = Track::new(Interpolator, 8, 10);
    track.push_aligned(0).unwrap();
    track.push_aligned(10).unwrap();
    track.push_aligned(20).unwrap();

    let r = track.insert_not_aligned(0, DataNA(1));
    assert_eq!(r.unwrap_err(), Error::KeyIsNotInInnerRange);
    let r = track.insert_not_aligned(20, DataNA(1));
    assert_eq!(r.unwrap_err(), Error::KeyIsNotInInnerRange);
    let r = track.insert_not_aligned(19, DataNA(19));
    assert!(r.is_ok());
}

#[test]
fn push_overflows_when_ranges_saturate() {
    let track_size = 5;
    let mut track = Track::new(Interpolator, track_size, 2);

    // the anchor and one sample per free range slot all fit
    for p in 0..track_size {
        assert!(track.push_aligned(p).is_ok());
    }
    assert_eq!(track.push_aligned(track_size), Err(Error::Overflow));

    // the same holds for the smallest permitted track
    let mut small = Track::new(Interpolator, 2, 2);
    assert!(small.push_aligned(0).is_ok());
    assert!(small.push_aligned(1).is_ok());
    assert_eq!(small.push_aligned(2), Err(Error::Overflow));
}

#[test]
fn cancel_at_new_edge_undoes_push() {
    let mut track = Track::new(Interpolator, 8, 10);
    track.push_aligned(0).unwrap();
    track.push_aligned(10).unwrap();

    track.push_aligned(20).unwrap();
    assert_eq!(*track.key_end(), 20);

    let canceled = track.cancel_forward(&20);
    assert_eq!(canceled.len(), 1);
    assert_eq!(*canceled.nth(0).unwrap().payload(), 20);
    assert_eq!(*track.key_end(), 10);
    assert_eq!(*track.next_step(), 10);
    assert_eq!(track.ranges_len(), 1);
    assert_eq!(track.range_at(0), (0, 1));
    assert_eq!(track.nodes_len(), 2);
    assert_eq!(*track.node_ref(0).payload(), 0);
    assert_eq!(*track.node_ref(1).payload(), 10);
}

#[test]
fn reset_twice_equals_reset_once() {
    let mut track = Track::new(Interpolator, 6, 3);
    track.push_aligned(7).unwrap();
    track.push_aligned(8).unwrap();

    track.reset_track(5);
    let key_start = *track.key_start();
    let key_end = *track.key_end();
    let next_step = *track.next_step();
    let nodes = track.nodes_len();
    let ranges = track.ranges_len();

    let cleared = track.reset_track(5);
    assert!(cleared.is_empty());
    assert_eq!(*track.key_start(), key_start);
    assert_eq!(*track.key_end(), key_end);
    assert_eq!(*track.next_step(), next_step);
    assert_eq!(track.nodes_len(), nodes);
    assert_eq!(track.ranges_len(), ranges);
}

#[test]
fn truncate_then_push_restores_range_count() {
    let mut track = Track::new(Interpolator, 6, 1);
    track.reset_track(1);
    for p in 0..=5 {
        track.push_aligned(p).unwrap();
    }
    let before = track.ranges_len();

    track.truncate_back(&3);
    let dropped = before - track.ranges_len();
    assert_eq!(dropped, 2);

    for p in 6..6 + dropped {
        track.push_aligned(p).unwrap();
    }
    assert_eq!(track.ranges_len(), before);
}

#[test]
fn cancel_outside_span_is_a_noop_or_reset() {
    let mut track = Track::new(Interpolator, 8, 10);
    track.push_aligned(0).unwrap();
    track.push_aligned(10).unwrap();

    // past the leading edge: nothing happens
    let canceled = track.cancel_forward(&11);
    assert!(canceled.is_empty());
    assert_eq!(track.nodes_len(), 2);

    // at or behind the oldest key: full reset to the default key
    let canceled = track.cancel_forward(&0);
    assert_eq!(canceled.len(), 2);
    assert!(track.is_empty());
    assert_eq!(*track.key_start(), 0);
    assert_eq!(*track.key_end(), 0);
}

#[test]
fn empty_track_rejects_queries() {
    let mut track = Track::new(Interpolator, 4, 10);
    assert_eq!(track.interpolate(&0).unwrap_err(), Error::KeyNotInRange);
    assert_eq!(
        track.insert_not_aligned(0, DataNA(0)).unwrap_err(),
        Error::KeyIsNotInInnerRange,
    );
    assert!(track.node_start().is_none());
    assert!(track.node_end().is_none());
    track.truncate_back(&5);
    assert!(track.is_empty());
}

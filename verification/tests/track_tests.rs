use interp_track::buf::Truncated;
use interp_track::node::TrackNode;
use interp_track::sample::DataNA;
use interp_track::sample::Interpolator;
use interp_track::sample::SampleNode;
use interp_track::Error;
use interp_track::Track;
use interp_track::TrackKey;

fn check_not_aligned_node(
    node: &SampleNode,
    key: i64,
    data: usize,
    canceled_key: i64,
    canceled_node: usize,
) {
    match node {
        TrackNode::NotAligned(n) => {
            assert_eq!(n.key, key);
            assert_eq!(n.node.0, data);
            assert_eq!(*n.canceled_key(), canceled_key);
            assert_eq!(*n.canceled_node(), canceled_node);
        },
        _ => panic!("expected not aligned node"),
    }
}

fn payloads(t: &Truncated<SampleNode>) -> Vec<usize> {
    let mut out = Vec::new();
    let mut i = 0;
    while let Some(n) = t.nth(i) {
        out.push(*n.payload());
        i += 1;
    }
    out
}

#[test]
fn test_track_new() {
    let track_size = 5;
    let step = 1;

    let track = Track::new(Interpolator, track_size, step);

    assert!(track.is_empty());
    assert!(track.nodes_len() == 0);
    assert_eq!(track.node_capacity(), track_size);
    assert!(track.ranges_len() == 0);
    assert_eq!(*track.aligned_step(), step);
    assert_eq!(*track.key_start(), Default::default());
    assert_eq!(*track.key_end(), Default::default());
}

#[test]
fn test_reset_track() {
    let track_size = 5;
    let step = 1;
    let key_start = 40;

    let mut track = Track::new(Interpolator, track_size, step);
    track.reset_track(key_start);

    assert!(track.is_empty());
    assert!(track.nodes_len() == 0);
    assert_eq!(track.node_capacity(), track_size);
    assert!(track.ranges_len() == 0);
    assert_eq!(track.range_capacity(), track_size - 1);
    assert_eq!(*track.aligned_step(), step);
    assert_eq!(*track.key_start(), key_start);
    assert_eq!(*track.key_end(), key_start);
}

#[test]
fn test_push() -> Result<(), Error> {
    test_aligned_full_push()?;
    test_one_range_push()?;
    test_two_ranges_push()?;
    test_grow_push()?;

    Ok(())
}

#[test]
fn test_insert_not_aligned() -> Result<(), Error> {
    let track_size = 8;
    let track_step = 10;
    let mut track = Track::new(Interpolator, track_size, track_step);
    test_insert_not_inner_range(&mut track);

    let result = track.insert_not_aligned(1, DataNA(1));

    assert!(result.is_err());
    assert_eq!(result.unwrap_err(), Error::KeyIsNotInInnerRange);

    track.push_aligned(0)?;
    assert_eq!(*track.next_step(), 10);

    test_insert_not_inner_range(&mut track);
    let result = track.insert_not_aligned(1, DataNA(1));

    assert!(result.is_err());
    assert_eq!(result.unwrap_err(), Error::KeyIsNotInInnerRange);

    track.push_aligned(10)?;
    assert_eq!(*track.next_step(), 10);
    assert_eq!(*track.key_end(), 10);
    test_insert_not_inner_range(&mut track);

    let canceled = track.insert_not_aligned(5, DataNA(5))?;
    check_not_aligned_node(track.node_end().unwrap(), 5, 5, 10, 10);
    assert_eq!(payloads(&canceled), vec![10]);
    assert_eq!(track.ranges_len(), 1);
    assert_eq!(track.range_at(0), (0, 1));
    assert_eq!(*track.next_step(), 5);
    assert_eq!(*track.key_end(), 5);

    test_insert_not_inner_range(&mut track);
    let canceled = track.insert_not_aligned(2, DataNA(2))?;
    // the anchor is the surviving not-aligned sample, so its own key and
    // payload are what the new node records as cancelled
    check_not_aligned_node(track.node_end().unwrap(), 2, 2, 5, 5);
    assert_eq!(canceled.len(), 1);
    check_not_aligned_node(canceled.nth(0).unwrap(), 5, 5, 10, 10);
    assert_eq!(track.ranges_len(), 1);
    assert_eq!(track.range_at(0), (0, 1));
    assert_eq!(*track.next_step(), 8);
    assert_eq!(*track.key_end(), 2);

    track.push_aligned(10)?;
    assert_eq!(*track.next_step(), 10);
    test_insert_not_inner_range(&mut track);
    assert_eq!(track.ranges_len(), 1);
    assert_eq!(track.range_at(0), (0, 2));
    assert_eq!(*track.key_end(), 10);

    let canceled = track.insert_not_aligned(5, DataNA(5))?;
    check_not_aligned_node(track.node_end().unwrap(), 5, 5, 10, 10);
    assert_eq!(payloads(&canceled), vec![10]);
    assert_eq!(track.ranges_len(), 1);
    assert_eq!(track.range_at(0), (0, 2));
    assert_eq!(*track.next_step(), 5);
    assert_eq!(*track.key_end(), 5);

    track.push_aligned(10)?;
    assert_eq!(*track.next_step(), 10);
    assert_eq!(*track.key_end(), 10);
    test_insert_not_inner_range(&mut track);
    assert_eq!(track.ranges_len(), 1);
    assert_eq!(track.range_at(0), (0, 3));

    track.push_aligned(20)?;
    assert_eq!(*track.next_step(), 10);
    assert_eq!(*track.key_end(), 20);
    test_insert_not_inner_range(&mut track);
    assert_eq!(track.ranges_len(), 2);
    assert_eq!(track.range_at(0), (0, 3));
    assert_eq!(track.range_at(1), (3, 4));

    let canceled = track.insert_not_aligned(15, DataNA(15))?;
    check_not_aligned_node(track.node_end().unwrap(), 15, 15, 20, 20);
    assert_eq!(payloads(&canceled), vec![20]);
    assert_eq!(track.ranges_len(), 2);
    assert_eq!(track.range_at(0), (0, 3));
    assert_eq!(track.range_at(1), (3, 4));
    assert_eq!(*track.next_step(), 5);
    assert_eq!(*track.key_end(), 15);

    track.push_aligned(20)?;
    assert_eq!(*track.next_step(), 10);
    assert_eq!(*track.key_end(), 20);
    test_insert_not_inner_range(&mut track);
    assert_eq!(track.ranges_len(), 2);
    assert_eq!(track.range_at(0), (0, 3));
    assert_eq!(track.range_at(1), (3, 5));

    track.push_aligned(30)?;
    assert_eq!(*track.next_step(), 10);
    assert_eq!(*track.key_end(), 30);
    test_insert_not_inner_range(&mut track);
    assert_eq!(track.ranges_len(), 3);
    assert_eq!(track.range_at(0), (0, 3));
    assert_eq!(track.range_at(1), (3, 5));
    assert_eq!(track.range_at(2), (5, 6));

    let canceled = track.insert_not_aligned(20, DataNA(20))?;
    check_not_aligned_node(track.node_end().unwrap(), 20, 20, 20, 20);
    assert_eq!(payloads(&canceled), vec![20, 30]);
    assert_eq!(*track.key_end(), 20);
    assert_eq!(track.ranges_len(), 2);
    assert_eq!(track.range_at(0), (0, 3));
    assert_eq!(track.range_at(1), (3, 5));
    assert_eq!(*track.next_step(), 0);
    assert_eq!(*track.key_end(), 20);

    track.push_aligned(20)?;
    assert_eq!(*track.next_step(), 10);
    assert_eq!(*track.key_end(), 20);
    test_insert_not_inner_range(&mut track);
    assert_eq!(*track.key_end(), 20);
    assert_eq!(track.ranges_len(), 2);
    assert_eq!(track.range_at(0), (0, 3));
    assert_eq!(track.range_at(1), (3, 6));

    let canceled = track.insert_not_aligned(3, DataNA(3))?;
    assert_eq!(canceled.len(), 5);
    check_not_aligned_node(canceled.nth(0).unwrap(), 5, 5, 10, 10);
    assert_eq!(*canceled.nth(1).unwrap().payload(), 10);
    check_not_aligned_node(canceled.nth(2).unwrap(), 15, 15, 20, 20);
    check_not_aligned_node(canceled.nth(3).unwrap(), 20, 20, 20, 20);
    assert_eq!(*canceled.nth(4).unwrap().payload(), 20);
    assert_eq!(track.ranges_len(), 1);
    assert_eq!(track.range_at(0), (0, 2));
    assert_eq!(*track.next_step(), 7);
    assert_eq!(*track.key_end(), 3);

    Ok(())
}

#[test]
fn mod_test_truncate_back() -> Result<(), Error> {
    test_truncate_back_one_range()?;
    test_truncate_back_two_ranges()?;
    test_truncate_back_two_ranges_not_aligned()?;
    test_truncate_back_seq()?;

    Ok(())
}

#[test]
fn test_cancel_forward() -> Result<(), Error> {
    test_cancel_forward_one_range()?;
    test_cancel_two_ranges()?;
    test_cancel_aligned()?;

    Ok(())
}

#[test]
fn test_find_nearby_nodes_in_range() -> Result<(), Error> {
    let track_size = 5;
    let track_step = 30;
    let mut track = Track::new(Interpolator, track_size, track_step);
    let key_start = 1;

    track.reset_track(key_start);
    track.push_aligned(1)?;
    track.push_aligned(31)?;
    track.insert_not_aligned(8, DataNA(8))?;
    track.push_aligned(31)?;
    track.insert_not_aligned(16, DataNA(16))?;
    track.push_aligned(31)?;
    track.insert_not_aligned(24, DataNA(24))?;
    track.push_aligned(31)?;
    track.push_aligned(61)?;
    track.insert_not_aligned(41, DataNA(41))?;
    track.push_aligned(61)?;
    track.insert_not_aligned(52, DataNA(52))?;

    let nodes = track.find_nearby_nodes_in_range(0, &1);
    assert_eq!(nodes.begin_index, 0);
    assert_eq!(nodes.begin_key, 1);
    assert_eq!(nodes.end_index, 1);
    assert_eq!(nodes.end_key, 8);

    let nodes = track.find_nearby_nodes_in_range(0, &5);
    assert_eq!(nodes.begin_index, 0);
    assert_eq!(nodes.begin_key, 1);
    assert_eq!(nodes.end_index, 1);
    assert_eq!(nodes.end_key, 8);

    let nodes = track.find_nearby_nodes_in_range(0, &8);
    assert_eq!(nodes.begin_index, 1);
    assert_eq!(nodes.begin_key, 8);
    assert_eq!(nodes.end_index, 2);
    assert_eq!(nodes.end_key, 16);

    let nodes = track.find_nearby_nodes_in_range(0, &14);
    assert_eq!(nodes.begin_index, 1);
    assert_eq!(nodes.begin_key, 8);
    assert_eq!(nodes.end_index, 2);
    assert_eq!(nodes.end_key, 16);

    let nodes = track.find_nearby_nodes_in_range(0, &16);
    assert_eq!(nodes.begin_index, 2);
    assert_eq!(nodes.begin_key, 16);
    assert_eq!(nodes.end_index, 3);
    assert_eq!(nodes.end_key, 24);

    let nodes = track.find_nearby_nodes_in_range(0, &20);
    assert_eq!(nodes.begin_index, 2);
    assert_eq!(nodes.begin_key, 16);
    assert_eq!(nodes.end_index, 3);
    assert_eq!(nodes.end_key, 24);

    let nodes = track.find_nearby_nodes_in_range(0, &24);
    assert_eq!(nodes.begin_index, 3);
    assert_eq!(nodes.begin_key, 24);
    assert_eq!(nodes.end_index, 4);
    assert_eq!(nodes.end_key, 31);

    let nodes = track.find_nearby_nodes_in_range(0, &31);
    assert_eq!(nodes.begin_index, 3);
    assert_eq!(nodes.begin_key, 24);
    assert_eq!(nodes.end_index, 4);
    assert_eq!(nodes.end_key, 31);

    let nodes = track.find_nearby_nodes_in_range(1, &31);
    assert_eq!(nodes.begin_index, 4);
    assert_eq!(nodes.begin_key, 31);
    assert_eq!(nodes.end_index, 5);
    assert_eq!(nodes.end_key, 41);

    let nodes = track.find_nearby_nodes_in_range(1, &38);
    assert_eq!(nodes.begin_index, 4);
    assert_eq!(nodes.begin_key, 31);
    assert_eq!(nodes.end_index, 5);
    assert_eq!(nodes.end_key, 41);

    let nodes = track.find_nearby_nodes_in_range(1, &41);
    assert_eq!(nodes.begin_index, 5);
    assert_eq!(nodes.begin_key, 41);
    assert_eq!(nodes.end_index, 6);
    assert_eq!(nodes.end_key, 52);

    let nodes = track.find_nearby_nodes_in_range(1, &48);
    assert_eq!(nodes.begin_index, 5);
    assert_eq!(nodes.begin_key, 41);
    assert_eq!(nodes.end_index, 6);
    assert_eq!(nodes.end_key, 52);

    let nodes = track.find_nearby_nodes_in_range(1, &52);
    assert_eq!(nodes.begin_index, 5);
    assert_eq!(nodes.begin_key, 41);
    assert_eq!(nodes.end_index, 6);
    assert_eq!(nodes.end_key, 52);

    Ok(())
}

#[test]
fn test_interpolate() -> Result<(), Error> {
    let track_size = 8;
    let track_step = 10;
    let mut track = Track::new(Interpolator, track_size, track_step);

    track.push_aligned(0)?;
    track.push_aligned(10)?;
    track.insert_not_aligned(3, DataNA(3))?;
    track.push_aligned(10)?;
    track.insert_not_aligned(5, DataNA(5))?;
    track.push_aligned(10)?;
    track.push_aligned(20)?;
    track.insert_not_aligned(12, DataNA(12))?;
    track.push_aligned(20)?;
    track.push_aligned(30)?;
    track.push_aligned(40)?;
    track.insert_not_aligned(34, DataNA(34))?;

    let out = track.interpolate(&-1);
    assert!(out.is_err());
    assert_eq!(out.unwrap_err(), Error::KeyNotInRange);

    let out = track.interpolate(&0)?;
    assert_eq!(out.requested_key, 0);
    assert_eq!(out.begin_key, 0);
    assert_eq!(*out.begin_node.payload(), 0);
    assert_eq!(out.end_key, 3);
    assert_eq!(*out.end_node.payload(), 3);

    let out = track.interpolate(&1)?;
    assert_eq!(out.requested_key, 1);
    assert_eq!(out.begin_key, 0);
    assert_eq!(*out.begin_node.payload(), 0);
    assert_eq!(out.end_key, 3);
    assert_eq!(*out.end_node.payload(), 3);

    let out = track.interpolate(&2)?;
    assert_eq!(out.requested_key, 2);
    assert_eq!(out.begin_key, 0);
    assert_eq!(*out.begin_node.payload(), 0);
    assert_eq!(out.end_key, 3);
    assert_eq!(*out.end_node.payload(), 3);

    let out = track.interpolate(&3)?;
    assert_eq!(out.requested_key, 3);
    assert_eq!(out.begin_key, 3);
    assert_eq!(*out.begin_node.payload(), 3);
    assert_eq!(out.end_key, 5);
    assert_eq!(*out.end_node.payload(), 5);

    let out = track.interpolate(&4)?;
    assert_eq!(out.requested_key, 4);
    assert_eq!(out.begin_key, 3);
    assert_eq!(*out.begin_node.payload(), 3);
    assert_eq!(out.end_key, 5);
    assert_eq!(*out.end_node.payload(), 5);

    let out = track.interpolate(&5)?;
    assert_eq!(out.requested_key, 5);
    assert_eq!(out.begin_key, 5);
    assert_eq!(*out.begin_node.payload(), 5);
    assert_eq!(out.end_key, 10);
    assert_eq!(*out.end_node.payload(), 10);

    let out = track.interpolate(&7)?;
    assert_eq!(out.requested_key, 7);
    assert_eq!(out.begin_key, 5);
    assert_eq!(*out.begin_node.payload(), 5);
    assert_eq!(out.end_key, 10);
    assert_eq!(*out.end_node.payload(), 10);

    let out = track.interpolate(&10)?;
    assert_eq!(out.requested_key, 10);
    assert_eq!(out.begin_key, 10);
    assert_eq!(*out.begin_node.payload(), 10);
    assert_eq!(out.end_key, 12);
    assert_eq!(*out.end_node.payload(), 12);

    let out = track.interpolate(&11)?;
    assert_eq!(out.requested_key, 11);
    assert_eq!(out.begin_key, 10);
    assert_eq!(*out.begin_node.payload(), 10);
    assert_eq!(out.end_key, 12);
    assert_eq!(*out.end_node.payload(), 12);

    let out = track.interpolate(&12)?;
    assert_eq!(out.requested_key, 12);
    assert_eq!(out.begin_key, 12);
    assert_eq!(*out.begin_node.payload(), 12);
    assert_eq!(out.end_key, 20);
    assert_eq!(*out.end_node.payload(), 20);

    let out = track.interpolate(&15)?;
    assert_eq!(out.requested_key, 15);
    assert_eq!(out.begin_key, 12);
    assert_eq!(*out.begin_node.payload(), 12);
    assert_eq!(out.end_key, 20);
    assert_eq!(*out.end_node.payload(), 20);

    let out = track.interpolate(&20)?;
    assert_eq!(out.requested_key, 20);
    assert_eq!(out.begin_key, 20);
    assert_eq!(*out.begin_node.payload(), 20);
    assert_eq!(out.end_key, 30);
    assert_eq!(*out.end_node.payload(), 30);

    let out = track.interpolate(&25)?;
    assert_eq!(out.requested_key, 25);
    assert_eq!(out.begin_key, 20);
    assert_eq!(*out.begin_node.payload(), 20);
    assert_eq!(out.end_key, 30);
    assert_eq!(*out.end_node.payload(), 30);

    let out = track.interpolate(&30)?;
    assert_eq!(out.requested_key, 30);
    assert_eq!(out.begin_key, 30);
    assert_eq!(*out.begin_node.payload(), 30);
    assert_eq!(out.end_key, 34);
    assert_eq!(*out.end_node.payload(), 34);

    let out = track.interpolate(&32)?;
    assert_eq!(out.requested_key, 32);
    assert_eq!(out.begin_key, 30);
    assert_eq!(*out.begin_node.payload(), 30);
    assert_eq!(out.end_key, 34);
    assert_eq!(*out.end_node.payload(), 34);

    let out = track.interpolate(&33)?;
    assert_eq!(out.requested_key, 33);
    assert_eq!(out.begin_key, 30);
    assert_eq!(*out.begin_node.payload(), 30);
    assert_eq!(out.end_key, 34);
    assert_eq!(*out.end_node.payload(), 34);

    let out = track.interpolate(&34);
    assert!(out.is_err());
    assert_eq!(out.unwrap_err(), Error::KeyNotInRange);

    Ok(())
}

#[test]
fn test_range_index() {
    let track_size = 5;
    let step = 2;

    let track = Track::new(Interpolator, track_size, step);

    assert_eq!(track.range_index(&0), 0);
    assert_eq!(track.range_index(&1), 0);
    assert_eq!(track.range_index(&2), 1);
    assert_eq!(track.range_index(&3), 1);
    assert_eq!(track.range_index(&4), 2);
    assert_eq!(track.range_index(&5), 2);
    assert_eq!(track.range_index(&6), 3);
    assert_eq!(track.range_index(&7), 3);
    assert_eq!(track.range_index(&8), 4);
    assert_eq!(track.range_index(&9), 4);
}

fn test_insert_not_inner_range(track: &mut Track<Interpolator>) {
    let key_start = *track.key_start();
    let key_end = *track.key_end();
    let test_node = 42;

    let result = track.insert_not_aligned(key_start, DataNA(test_node));
    assert!(result.is_err());
    assert_eq!(result.unwrap_err(), Error::KeyIsNotInInnerRange);

    let result = track.insert_not_aligned(key_start.add_distance(&-1), DataNA(test_node));
    assert!(result.is_err());
    assert_eq!(result.unwrap_err(), Error::KeyIsNotInInnerRange);

    let result = track.insert_not_aligned(key_end, DataNA(test_node));
    assert!(result.is_err());
    assert_eq!(result.unwrap_err(), Error::KeyIsNotInInnerRange);

    let result = track.insert_not_aligned(key_end.add_distance(&1), DataNA(test_node));
    assert!(result.is_err());
    assert_eq!(result.unwrap_err(), Error::KeyIsNotInInnerRange);
}

fn test_aligned_full_push() -> Result<(), Error> {
    let track_size = 5;
    let step = 2;

    let mut track = Track::new(Interpolator, track_size, step);

    track.push_aligned(0)?;
    assert!(track.ranges_len() == 0);

    assert_eq!(*track.key_start(), 0);
    assert_eq!(*track.key_end(), 0);

    track.push_aligned(1)?;
    assert_eq!(track.ranges_len(), 1);
    assert_eq!(track.range_at(0), (0, 1));
    assert_eq!(*track.key_start(), 0);
    assert_eq!(*track.key_end(), step);

    track.push_aligned(2)?;
    assert_eq!(track.ranges_len(), 2);
    assert_eq!(track.range_at(0), (0, 1));
    assert_eq!(track.range_at(1), (1, 2));
    assert_eq!(*track.key_start(), 0);
    assert_eq!(*track.key_end(), step * 2);

    track.push_aligned(3)?;
    assert_eq!(track.ranges_len(), 3);
    assert_eq!(track.range_at(0), (0, 1));
    assert_eq!(track.range_at(1), (1, 2));
    assert_eq!(track.range_at(2), (2, 3));
    assert_eq!(*track.key_start(), 0);
    assert_eq!(*track.key_end(), step * 3);

    track.push_aligned(4)?;
    assert_eq!(track.ranges_len(), 4);
    assert_eq!(track.range_at(0), (0, 1));
    assert_eq!(track.range_at(1), (1, 2));
    assert_eq!(track.range_at(2), (2, 3));
    assert_eq!(track.range_at(3), (3, 4));
    assert_eq!(*track.key_start(), 0);
    assert_eq!(*track.key_end(), step * 4);

    assert!(track.push_aligned(track_size).is_err());

    assert_eq!(*track.key_start(), 0);
    assert_eq!(*track.key_end(), step * (track_size as i64 - 1));

    Ok(())
}

fn test_one_range_push() -> Result<(), Error> {
    let track_size = 5;
    let step = 4;

    let mut track = Track::new(Interpolator, track_size, step);
    track.push_aligned(0)?;
    assert!(track.ranges_len() == 0);
    assert_eq!(*track.key_start(), 0);
    assert_eq!(*track.key_end(), 0);

    track.push_aligned(4)?;
    track.insert_not_aligned(1, DataNA(10))?;

    assert_eq!(track.ranges_len(), 1);
    assert_eq!(track.range_at(0), (0, 1));

    assert_eq!(*track.key_start(), 0);
    assert_eq!(*track.key_end(), 1);

    track.push_aligned(4)?;
    track.insert_not_aligned(2, DataNA(20))?;

    assert_eq!(track.ranges_len(), 1);
    assert_eq!(track.range_at(0), (0, 2));

    assert_eq!(*track.key_start(), 0);
    assert_eq!(*track.key_end(), 2);

    track.push_aligned(4)?;
    track.insert_not_aligned(3, DataNA(30))?;

    assert_eq!(track.ranges_len(), 1);
    assert_eq!(track.range_at(0), (0, 3));

    assert_eq!(*track.key_start(), 0);
    assert_eq!(*track.key_end(), 3);

    track.push_aligned(4)?;
    assert_eq!(track.ranges_len(), 1);
    assert_eq!(track.range_at(0), (0, 4));

    assert_eq!(*track.key_start(), 0);
    assert_eq!(*track.key_end(), step);

    assert_eq!(*track.node_ref(0).payload(), 0);
    check_not_aligned_node(track.node_ref(1), 1, 10, 4, 4);
    check_not_aligned_node(track.node_ref(2), 2, 20, 4, 4);
    check_not_aligned_node(track.node_ref(3), 3, 30, 4, 4);
    assert_eq!(*track.node_ref(4).payload(), 4);

    Ok(())
}

fn test_two_ranges_push() -> Result<(), Error> {
    let track_size = 6;
    let step = 4;

    let mut track = Track::new(Interpolator, track_size, step);

    track.push_aligned(0)?;
    assert!(track.ranges_len() == 0);
    assert_eq!(*track.key_start(), 0);
    assert_eq!(*track.key_end(), 0);

    track.push_aligned(4)?;
    track.insert_not_aligned(1, DataNA(10))?;

    assert_eq!(track.ranges_len(), 1);
    assert_eq!(track.range_at(0), (0, 1));
    assert_eq!(*track.key_start(), 0);
    assert_eq!(*track.key_end(), 1);

    track.push_aligned(4)?;
    assert_eq!(track.ranges_len(), 1);
    assert_eq!(track.range_at(0), (0, 2));
    assert_eq!(*track.key_start(), 0);
    assert_eq!(*track.key_end(), step);

    track.push_aligned(8)?;
    track.insert_not_aligned(step + 2, DataNA(20))?;

    assert_eq!(track.ranges_len(), 2);
    assert_eq!(track.range_at(0), (0, 2));
    assert_eq!(track.range_at(1), (2, 3));
    assert_eq!(*track.key_start(), 0);
    assert_eq!(*track.key_end(), step + 2);

    track.push_aligned(8)?;
    track.insert_not_aligned(step + 3, DataNA(30))?;

    assert_eq!(track.ranges_len(), 2);
    assert_eq!(track.range_at(0), (0, 2));
    assert_eq!(track.range_at(1), (2, 4));
    assert_eq!(*track.key_start(), 0);
    assert_eq!(*track.key_end(), step + 3);

    track.push_aligned(8)?;
    assert_eq!(track.ranges_len(), 2);
    assert_eq!(track.range_at(0), (0, 2));
    assert_eq!(track.range_at(1), (2, 5));
    assert_eq!(*track.key_start(), 0);
    assert_eq!(*track.key_end(), step + step);

    Ok(())
}

fn test_grow_push() -> Result<(), Error> {
    let track_size = 4;
    let step = 4;

    let mut track = Track::new(Interpolator, track_size, step);
    track.push_aligned(0)?;
    assert!(track.ranges_len() == 0);
    assert_eq!(*track.key_start(), 0);
    assert_eq!(*track.key_end(), 0);

    track.push_aligned(4)?;
    track.insert_not_aligned(1, DataNA(10))?;

    assert_eq!(track.ranges_len(), 1);
    assert_eq!(track.range_at(0), (0, 1));
    assert_eq!(*track.key_start(), 0);
    assert_eq!(*track.key_end(), 1);

    track.push_aligned(4)?;
    track.insert_not_aligned(2, DataNA(20))?;

    assert_eq!(track.ranges_len(), 1);
    assert_eq!(track.range_at(0), (0, 2));
    assert_eq!(*track.key_start(), 0);
    assert_eq!(*track.key_end(), 2);

    track.push_aligned(4)?;
    track.insert_not_aligned(3, DataNA(30))?;

    assert_eq!(track.ranges_len(), 1);
    assert_eq!(track.range_at(0), (0, 3));
    assert_eq!(*track.key_start(), 0);
    assert_eq!(*track.key_end(), 3);

    let old_capacity = track.node_capacity();
    track.push_aligned(4)?;

    assert!(old_capacity < track.node_capacity());

    assert_eq!(track.ranges_len(), 1);
    assert_eq!(track.range_at(0), (0, 4));
    assert_eq!(*track.key_start(), 0);
    assert_eq!(*track.key_end(), step);

    assert_eq!(*track.node_ref(0).payload(), 0);
    check_not_aligned_node(track.node_ref(1), 1, 10, 4, 4);
    check_not_aligned_node(track.node_ref(2), 2, 20, 4, 4);
    check_not_aligned_node(track.node_ref(3), 3, 30, 4, 4);
    assert_eq!(*track.node_ref(4).payload(), 4);

    Ok(())
}

fn test_truncate_back_one_range() -> Result<(), Error> {
    let mut track = Track::new(Interpolator, 2, 1);
    let key_start = 1;

    track.reset_track(key_start);
    track.push_aligned(0)?;
    track.push_aligned(1)?;

    track.truncate_back(&0);
    assert_eq!(*track.key_start(), key_start);
    assert_eq!(track.ranges_len(), 1);
    assert_eq!(track.range_at(0), (0, 1));
    assert_eq!(track.nodes_len(), 2);
    assert_eq!(*track.node_ref(0).payload(), 0);
    assert_eq!(*track.node_ref(1).payload(), 1);

    track.truncate_back(&1);
    assert_eq!(*track.key_start(), key_start);
    assert_eq!(track.ranges_len(), 1);
    assert_eq!(track.range_at(0), (0, 1));
    assert_eq!(track.nodes_len(), 2);
    assert_eq!(*track.node_ref(0).payload(), 0);
    assert_eq!(*track.node_ref(1).payload(), 1);

    track.truncate_back(&2);
    assert_eq!(*track.key_start(), key_start);
    assert_eq!(track.ranges_len(), 1);
    assert_eq!(track.range_at(0), (0, 1));
    assert_eq!(track.nodes_len(), 2);
    assert_eq!(*track.node_ref(0).payload(), 0);
    assert_eq!(*track.node_ref(1).payload(), 1);

    Ok(())
}

fn test_truncate_back_two_ranges() -> Result<(), Error> {
    let mut track = Track::new(Interpolator, 3, 1);
    let key_start = 1;

    track.reset_track(key_start);
    track.push_aligned(0)?;
    track.push_aligned(1)?;
    track.push_aligned(2)?;

    track.truncate_back(&0);
    assert_eq!(*track.key_start(), key_start);
    assert_eq!(track.ranges_len(), 2);
    assert_eq!(track.range_at(0), (0, 1));
    assert_eq!(track.range_at(1), (1, 2));
    assert_eq!(track.nodes_len(), 3);
    assert_eq!(*track.node_ref(0).payload(), 0);
    assert_eq!(*track.node_ref(1).payload(), 1);
    assert_eq!(*track.node_ref(2).payload(), 2);

    track.truncate_back(&1);
    assert_eq!(track.ranges_len(), 2);
    assert_eq!(track.range_at(0), (0, 1));
    assert_eq!(track.range_at(1), (1, 2));
    assert_eq!(track.nodes_len(), 3);
    assert_eq!(*track.node_ref(0).payload(), 0);
    assert_eq!(*track.node_ref(1).payload(), 1);
    assert_eq!(*track.node_ref(2).payload(), 2);

    track.truncate_back(&2);
    assert_eq!(*track.key_start(), 2);
    assert_eq!(track.ranges_len(), 1);
    assert_eq!(track.range_at(0), (1, 2));
    assert_eq!(track.nodes_len(), 2);
    assert_eq!(*track.node_ref(0).payload(), 1);
    assert_eq!(*track.node_ref(1).payload(), 2);

    track.truncate_back(&20);
    assert_eq!(*track.key_start(), 2);
    assert_eq!(track.ranges_len(), 1);
    assert_eq!(track.range_at(0), (1, 2));
    assert_eq!(track.nodes_len(), 2);
    assert_eq!(*track.node_ref(0).payload(), 1);
    assert_eq!(*track.node_ref(1).payload(), 2);

    Ok(())
}

fn test_truncate_back_two_ranges_not_aligned() -> Result<(), Error> {
    let key_step = 100;
    let key_start = 100;
    let mut track = Track::new(Interpolator, 3, key_step);

    track.reset_track(key_start);
    track.push_aligned(100)?;
    track.push_aligned(200)?;
    track.insert_not_aligned(125, DataNA(125))?;
    track.push_aligned(200)?;
    track.insert_not_aligned(150, DataNA(150))?;
    track.push_aligned(200)?;
    track.insert_not_aligned(175, DataNA(175))?;
    track.push_aligned(200)?;
    track.push_aligned(300)?;

    track.truncate_back(&0);
    assert_eq!(*track.key_start(), 100);
    assert_eq!(track.ranges_len(), 2);
    assert_eq!(track.range_at(0), (0, 4));
    assert_eq!(track.range_at(1), (4, 5));
    assert_eq!(track.nodes_len(), 6);
    assert_eq!(*track.node_ref(0).payload(), 100);
    assert_eq!(*track.node_ref(1).payload(), 125);
    assert_eq!(*track.node_ref(2).payload(), 150);
    assert_eq!(*track.node_ref(3).payload(), 175);
    assert_eq!(*track.node_ref(4).payload(), 200);
    assert_eq!(*track.node_ref(5).payload(), 300);

    track.truncate_back(&100);
    assert_eq!(*track.key_start(), 100);
    assert_eq!(track.ranges_len(), 2);
    assert_eq!(track.range_at(0), (0, 4));
    assert_eq!(track.range_at(1), (4, 5));
    assert_eq!(track.nodes_len(), 6);
    assert_eq!(*track.node_ref(0).payload(), 100);
    assert_eq!(*track.node_ref(1).payload(), 125);
    assert_eq!(*track.node_ref(2).payload(), 150);
    assert_eq!(*track.node_ref(3).payload(), 175);
    assert_eq!(*track.node_ref(4).payload(), 200);
    assert_eq!(*track.node_ref(5).payload(), 300);

    track.truncate_back(&200);
    assert_eq!(*track.key_start(), 200);
    assert_eq!(track.ranges_len(), 1);
    assert_eq!(track.range_at(0), (4, 5));
    assert_eq!(track.nodes_len(), 2);
    assert_eq!(*track.node_ref(0).payload(), 200);
    assert_eq!(*track.node_ref(1).payload(), 300);

    track.truncate_back(&2000);
    assert_eq!(*track.key_start(), 200);
    assert_eq!(track.ranges_len(), 1);
    assert_eq!(track.range_at(0), (4, 5));
    assert_eq!(track.nodes_len(), 2);
    assert_eq!(*track.node_ref(0).payload(), 200);
    assert_eq!(*track.node_ref(1).payload(), 300);

    Ok(())
}

fn test_truncate_back_seq() -> Result<(), Error> {
    let key_step = 1;
    let key_start = 1;
    let mut track = Track::new(Interpolator, 6, key_step);

    track.reset_track(key_start);
    track.push_aligned(0)?;
    track.push_aligned(1)?;
    track.push_aligned(2)?;
    track.push_aligned(3)?;
    track.push_aligned(4)?;
    track.push_aligned(5)?;

    track.truncate_back(&3);
    assert_eq!(*track.key_start(), 3);
    assert_eq!(track.ranges_len(), 3);
    assert_eq!(track.range_at(0), (2, 3));
    assert_eq!(track.range_at(1), (3, 4));
    assert_eq!(track.range_at(2), (4, 5));
    assert_eq!(track.nodes_len(), 4);
    assert_eq!(*track.node_ref(0).payload(), 2);
    assert_eq!(*track.node_ref(1).payload(), 3);
    assert_eq!(*track.node_ref(2).payload(), 4);
    assert_eq!(*track.node_ref(3).payload(), 5);

    track.push_aligned(6)?;
    track.push_aligned(7)?;
    assert_eq!(track.ranges_len(), 5);
    assert_eq!(track.range_at(0), (2, 3));
    assert_eq!(track.range_at(1), (3, 4));
    assert_eq!(track.range_at(2), (4, 5));
    assert_eq!(track.range_at(3), (5, 6));
    assert_eq!(track.range_at(4), (6, 7));
    assert_eq!(track.nodes_len(), 6);
    assert_eq!(*track.node_ref(0).payload(), 2);
    assert_eq!(*track.node_ref(1).payload(), 3);
    assert_eq!(*track.node_ref(2).payload(), 4);
    assert_eq!(*track.node_ref(3).payload(), 5);
    assert_eq!(*track.node_ref(4).payload(), 6);
    assert_eq!(*track.node_ref(5).payload(), 7);

    track.truncate_back(&5);
    assert_eq!(*track.key_start(), 5);
    assert_eq!(track.ranges_len(), 3);
    assert_eq!(track.range_at(0), (4, 5));
    assert_eq!(track.range_at(1), (5, 6));
    assert_eq!(track.range_at(2), (6, 7));
    assert_eq!(track.nodes_len(), 4);
    assert_eq!(*track.node_ref(0).payload(), 4);
    assert_eq!(*track.node_ref(1).payload(), 5);
    assert_eq!(*track.node_ref(2).payload(), 6);
    assert_eq!(*track.node_ref(3).payload(), 7);

    track.push_aligned(8)?;
    track.push_aligned(9)?;
    assert_eq!(track.ranges_len(), 5);
    assert_eq!(track.range_at(0), (4, 5));
    assert_eq!(track.range_at(1), (5, 6));
    assert_eq!(track.range_at(2), (6, 7));
    assert_eq!(track.range_at(3), (7, 8));
    assert_eq!(track.range_at(4), (8, 9));
    assert_eq!(track.nodes_len(), 6);
    assert_eq!(*track.node_ref(0).payload(), 4);
    assert_eq!(*track.node_ref(1).payload(), 5);
    assert_eq!(*track.node_ref(2).payload(), 6);
    assert_eq!(*track.node_ref(3).payload(), 7);
    assert_eq!(*track.node_ref(4).payload(), 8);
    assert_eq!(*track.node_ref(5).payload(), 9);

    track.truncate_back(&8);
    assert_eq!(*track.key_start(), 8);
    assert_eq!(track.ranges_len(), 2);
    assert_eq!(track.range_at(0), (7, 8));
    assert_eq!(track.range_at(1), (8, 9));
    assert_eq!(track.nodes_len(), 3);
    assert_eq!(*track.node_ref(0).payload(), 7);
    assert_eq!(*track.node_ref(1).payload(), 8);
    assert_eq!(*track.node_ref(2).payload(), 9);

    Ok(())
}

fn test_cancel_forward_one_range() -> Result<(), Error> {
    let track_size = 5;
    let track_step = 10;
    let mut track = Track::new(Interpolator, track_size, track_step);
    let key_start = 1;

    track.reset_track(key_start);
    track.push_aligned(1)?;
    track.push_aligned(10)?;
    track.insert_not_aligned(3, DataNA(3))?;
    track.push_aligned(10)?;
    track.insert_not_aligned(4, DataNA(4))?;
    track.push_aligned(10)?;
    track.insert_not_aligned(5, DataNA(5))?;
    track.push_aligned(10)?;

    let key_end = *track.key_end();

    let canceled = track.cancel_forward(&(key_end + 1));
    assert!(canceled.is_empty());

    let canceled = track.cancel_forward(&key_end);
    assert_eq!(canceled.len(), 1);
    assert_eq!(*canceled.nth(0).unwrap().payload(), 10);
    assert_eq!(track.ranges_len(), 1);
    assert_eq!(track.range_at(0), (0, 3));
    assert_eq!(track.nodes_len(), 4);
    assert_eq!(*track.node_ref(0).payload(), 1);
    assert_eq!(*track.node_ref(1).payload(), 3);
    assert_eq!(*track.node_ref(2).payload(), 4);
    assert_eq!(*track.node_ref(3).payload(), 5);
    assert_eq!(*track.key_end(), 5);

    let canceled = track.cancel_forward(&4);
    assert_eq!(canceled.len(), 2);
    assert_eq!(*canceled.nth(0).unwrap().payload(), 4);
    assert_eq!(*canceled.nth(1).unwrap().payload(), 5);
    assert_eq!(track.ranges_len(), 1);
    assert_eq!(track.range_at(0), (0, 1));
    assert_eq!(track.nodes_len(), 2);
    assert_eq!(*track.node_ref(0).payload(), 1);
    assert_eq!(*track.node_ref(1).payload(), 3);
    assert_eq!(*track.key_end(), 3);

    let canceled = track.cancel_forward(&3);
    assert_eq!(canceled.len(), 1);
    assert_eq!(*canceled.nth(0).unwrap().payload(), 3);
    assert!(track.ranges_len() == 0);
    assert_eq!(track.nodes_len(), 1);
    assert_eq!(*track.node_ref(0).payload(), 1);
    assert_eq!(*track.key_end(), 1);

    let canceled = track.cancel_forward(&1);
    assert_eq!(canceled.len(), 1);
    assert_eq!(*canceled.nth(0).unwrap().payload(), 1);
    assert!(track.ranges_len() == 0);
    assert!(track.is_empty());
    assert_eq!(*track.key_end(), 0);

    Ok(())
}

fn build_two_range_track() -> Result<Track<Interpolator>, Error> {
    let track_size = 8;
    let track_step = 10;
    let mut track = Track::new(Interpolator, track_size, track_step);
    let key_start = 1;

    track.reset_track(key_start);
    track.push_aligned(1)?;
    track.push_aligned(10)?;
    track.insert_not_aligned(3, DataNA(3))?;
    track.push_aligned(10)?;
    track.insert_not_aligned(4, DataNA(4))?;
    track.push_aligned(10)?;
    track.insert_not_aligned(5, DataNA(5))?;
    track.push_aligned(10)?;
    track.push_aligned(20)?;
    track.insert_not_aligned(14, DataNA(14))?;
    track.push_aligned(20)?;
    track.insert_not_aligned(15, DataNA(15))?;
    track.push_aligned(20)?;

    Ok(track)
}

fn test_cancel_two_ranges() -> Result<(), Error> {
    let mut track = build_two_range_track()?;

    let canceled = track.cancel_forward(&4);
    assert_eq!(canceled.len(), 6);
    assert_eq!(*canceled.nth(0).unwrap().payload(), 4);
    assert_eq!(*canceled.nth(1).unwrap().payload(), 5);
    assert_eq!(*canceled.nth(2).unwrap().payload(), 10);
    assert_eq!(*canceled.nth(3).unwrap().payload(), 14);
    assert_eq!(*canceled.nth(4).unwrap().payload(), 15);
    assert_eq!(*canceled.nth(5).unwrap().payload(), 20);
    assert_eq!(track.ranges_len(), 1);
    assert_eq!(track.range_at(0), (0, 1));
    assert_eq!(track.nodes_len(), 2);
    assert_eq!(*track.node_ref(0).payload(), 1);
    assert_eq!(*track.node_ref(1).payload(), 3);
    assert_eq!(*track.key_end(), 3);

    let mut track = build_two_range_track()?;

    let canceled = track.cancel_forward(&11);
    assert_eq!(canceled.len(), 4);
    assert_eq!(*canceled.nth(0).unwrap().payload(), 10);
    assert_eq!(*canceled.nth(1).unwrap().payload(), 14);
    assert_eq!(*canceled.nth(2).unwrap().payload(), 15);
    assert_eq!(*canceled.nth(3).unwrap().payload(), 20);
    assert_eq!(track.ranges_len(), 1);
    assert_eq!(track.range_at(0), (0, 3));
    assert_eq!(track.nodes_len(), 4);
    assert_eq!(*track.node_ref(0).payload(), 1);
    assert_eq!(*track.node_ref(1).payload(), 3);
    assert_eq!(*track.node_ref(2).payload(), 4);
    assert_eq!(*track.node_ref(3).payload(), 5);
    assert_eq!(*track.key_end(), 5);

    Ok(())
}

fn test_cancel_aligned() -> Result<(), Error> {
    let mut track = build_two_range_track()?;

    let canceled = track.cancel_forward(&10);
    assert_eq!(canceled.len(), 4);
    assert_eq!(*canceled.nth(0).unwrap().payload(), 10);
    assert_eq!(*canceled.nth(1).unwrap().payload(), 14);
    assert_eq!(*canceled.nth(2).unwrap().payload(), 15);
    assert_eq!(*canceled.nth(3).unwrap().payload(), 20);
    assert_eq!(track.ranges_len(), 1);
    assert_eq!(track.range_at(0), (0, 3));
    assert_eq!(track.nodes_len(), 4);
    assert_eq!(*track.node_ref(0).payload(), 1);
    assert_eq!(*track.node_ref(1).payload(), 3);
    assert_eq!(*track.node_ref(2).payload(), 4);
    assert_eq!(*track.node_ref(3).payload(), 5);
    assert_eq!(*track.key_end(), 5);

    Ok(())
}

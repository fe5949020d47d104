use veloren_core::codec::{decode_frames, encode_frames};
use veloren_core::frame::Frame;
use veloren_core::mux::multiplex;

fn internal_frames(n: u64) -> Vec<Frame> {
    (0..n).map(|i| Frame::OpenStream { sid: i, prio: 0, promises: 0 }).collect()
}

fn external_frames(n: u64) -> Vec<Frame> {
    (0..n).map(|i| Frame::CloseStream { sid: i }).collect()
}

#[test]
fn both_queues_drain_with_both_sources_on_the_wire() {
    // 100 frames in each source; an arbitrary pick pattern.
    let picks: Vec<bool> = (0..150).map(|i| i % 3 != 0).collect();
    let out = multiplex(internal_frames(100), external_frames(100), &picks);
    assert_eq!(out.len(), 200);
    let from_internal = out.iter().filter(|(i, _)| *i).count();
    let from_external = out.iter().filter(|(i, _)| !*i).count();
    assert_eq!(from_internal, 100);
    assert_eq!(from_external, 100);
}

#[test]
fn order_within_each_source_is_kept() {
    let picks: Vec<bool> = vec![false, true, true, false, false, true];
    let out = multiplex(internal_frames(5), external_frames(4), &picks);
    let internal_seen: Vec<Frame> =
        out.iter().filter(|(i, _)| *i).map(|(_, f)| f.clone()).collect();
    let external_seen: Vec<Frame> =
        out.iter().filter(|(i, _)| !*i).map(|(_, f)| f.clone()).collect();
    assert_eq!(internal_seen, internal_frames(5));
    assert_eq!(external_seen, external_frames(4));
}

#[test]
fn picks_decide_while_both_are_ready() {
    let picks: Vec<bool> = vec![false, true];
    let out = multiplex(internal_frames(2), external_frames(1), &picks);
    assert_eq!(out[0], (false, Frame::CloseStream { sid: 0 }));
    assert_eq!(out[1], (true, Frame::OpenStream { sid: 0, prio: 0, promises: 0 }));
    // The external queue is empty now: the rest comes from internal.
    assert_eq!(out[2], (true, Frame::OpenStream { sid: 1, prio: 0, promises: 0 }));
}

#[test]
fn empty_queues_terminate_at_once() {
    let picks: Vec<bool> = Vec::new();
    let out = multiplex(Vec::new(), Vec::new(), &picks);
    assert!(out.is_empty());
}

#[test]
fn multiplexed_wire_bytes_decode_to_the_emission_order() {
    let picks: Vec<bool> = vec![true, false, false, true];
    let out = multiplex(internal_frames(3), external_frames(3), &picks);
    let emitted: Vec<Frame> = out.into_iter().map(|(_, f)| f).collect();
    let wire = encode_frames(&emitted);
    let (decoded, clean) = decode_frames(&wire);
    assert!(clean);
    assert_eq!(decoded, emitted);
}

#[test]
fn writer_without_picks_still_drains_both() {
    let picks: Vec<bool> = Vec::new();
    let out = multiplex(internal_frames(3), external_frames(3), &picks);
    assert_eq!(out.len(), 6);
    assert_eq!(out.iter().filter(|(i, _)| *i).count(), 3);
    assert_eq!(out.iter().filter(|(i, _)| !*i).count(), 3);
}

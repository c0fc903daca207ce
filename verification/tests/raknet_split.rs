use bedrock::raknet::datagram::DATAGRAM_HEADER_LEN;
use bedrock::raknet::frame::{Frame, Reliability, Split};
use bedrock::raknet::split::{fragment_capacity, Limits, Reassembler, SplitError, Splitter};

const SEC: u64 = 1_000_000_000;

fn now() -> u64 {
    7 * SEC
}

fn reassemble(frames: Vec<Frame>) -> Option<Vec<u8>> {
    let mut r = Reassembler::new(Limits::default());
    let t = now();
    let mut out = None;
    for frame in frames {
        if let Some(payload) = r.push(frame, t).unwrap() {
            out = Some(payload);
        }
    }
    assert_eq!(r.buffered(), 0, "nothing should stay buffered");
    out
}

#[test]
fn payloads_round_trip_through_fragmentation() {
    let capacity = fragment_capacity(1472);
    for size in [1024usize, 64 * 1024, 1024 * 1024] {
        let payload: Vec<u8> = (0..size).map(|i| (i % 251) as u8).collect();
        let frames = Splitter::default().split(payload.clone(), capacity);
        assert_eq!(frames.len(), size.div_ceil(capacity), "{size}");
        assert_eq!(reassemble(frames), Some(payload), "{size}");
    }
}

#[test]
fn a_payload_that_fits_is_not_split() {
    let frames = Splitter::default().split(b"small".to_vec(), 1400);
    assert_eq!(frames.len(), 1);
    assert!(frames[0].split.is_none());
    assert_eq!(reassemble(frames), Some(b"small".to_vec()));
}

#[test]
fn fragments_reassemble_out_of_order() {
    let payload: Vec<u8> = (0..5000).map(|i| (i % 253) as u8).collect();
    let mut frames = Splitter::default().split(payload.clone(), 1000);
    frames.reverse();
    assert_eq!(reassemble(frames), Some(payload));
}

#[test]
fn every_fragment_fits_the_datagram() {
    let limit = 1472;
    let capacity = fragment_capacity(limit);
    for frame in Splitter::default().split(vec![0; 100_000], capacity) {
        assert!(
            frame.encoded_len() + DATAGRAM_HEADER_LEN <= limit,
            "{} bytes overruns {limit}",
            frame.encoded_len()
        );
    }
}

#[test]
fn split_ids_differ_between_payloads() {
    let mut splitter = Splitter::default();
    let a = splitter.split(vec![0; 3000], 1000);
    let b = splitter.split(vec![0; 3000], 1000);
    assert_ne!(a[0].split.map(|s| s.id), b[0].split.map(|s| s.id));
}

fn fragment(id: u16, count: u32, index: u32, len: usize) -> Frame {
    Frame {
        reliability: Reliability::ReliableOrdered,
        reliable_index: 0,
        sequence_index: 0,
        order_index: 0,
        order_channel: 0,
        split: Some(Split { count, id, index }),
        payload: vec![0; len],
    }
}

#[test]
fn an_absurd_fragment_count_is_refused() {
    let mut r = Reassembler::new(Limits::default());
    assert_eq!(
        r.push(fragment(1, u32::MAX, 0, 10), now()),
        Err(SplitError::TooManyFragments(u32::MAX))
    );
    assert_eq!(r.buffered(), 0);
}

#[test]
fn an_index_past_the_count_is_refused() {
    let mut r = Reassembler::new(Limits::default());
    assert!(matches!(
        r.push(fragment(1, 4, 4, 10), now()),
        Err(SplitError::Inconsistent { .. })
    ));
    assert!(matches!(
        r.push(fragment(1, 0, 0, 10), now()),
        Err(SplitError::Inconsistent { .. })
    ));
}

#[test]
fn too_many_open_reassemblies_are_refused() {
    let limits = Limits {
        max_pending: 3,
        ..Limits::default()
    };
    let mut r = Reassembler::new(limits);
    let t = now();
    for id in 0..3 {
        assert_eq!(r.push(fragment(id, 10, 0, 100), t), Ok(None));
    }
    assert_eq!(
        r.push(fragment(99, 10, 0, 100), t),
        Err(SplitError::TooManyPending)
    );
    assert_eq!(r.pending(), 3);
}

#[test]
fn buffering_past_the_limit_is_refused() {
    let limits = Limits {
        max_payload: 250,
        ..Limits::default()
    };
    let mut r = Reassembler::new(limits);
    let t = now();
    assert_eq!(r.push(fragment(1, 4, 0, 200), t), Ok(None));
    assert_eq!(
        r.push(fragment(1, 4, 1, 200), t),
        Err(SplitError::PayloadTooLarge)
    );
}

#[test]
fn a_repeated_index_is_refused_without_growing() {
    let mut r = Reassembler::new(Limits::default());
    let t = now();
    assert_eq!(r.push(fragment(1, 4, 0, 100), t), Ok(None));
    assert_eq!(
        r.push(fragment(1, 4, 0, 100), t),
        Err(SplitError::DuplicateIndex(0))
    );
    assert_eq!(r.buffered(), 100);
}

#[test]
fn a_changed_count_is_refused() {
    let mut r = Reassembler::new(Limits::default());
    let t = now();
    assert_eq!(r.push(fragment(1, 4, 0, 100), t), Ok(None));
    assert!(matches!(
        r.push(fragment(1, 9, 1, 100), t),
        Err(SplitError::Inconsistent { .. })
    ));
}

#[test]
fn incomplete_reassemblies_expire() {
    let limits = Limits {
        timeout: 10 * SEC,
        ..Limits::default()
    };
    let mut r = Reassembler::new(limits);
    let t = now();
    assert_eq!(r.push(fragment(1, 4, 0, 100), t), Ok(None));
    assert_eq!(r.buffered(), 100);

    r.expire(t + 5 * SEC);
    assert_eq!(r.pending(), 1, "still within the timeout");

    r.expire(t + 11 * SEC);
    assert_eq!(r.pending(), 0);
    assert_eq!(r.buffered(), 0, "expiring must give the memory back");
}

#[test]
fn the_capacity_leaves_room_for_both_headers() {
    assert_eq!(fragment_capacity(1472), 1472 - 4 - 20);
    assert_eq!(fragment_capacity(10), 0);
    assert_eq!(fragment_capacity(100_000), 8191);
    assert!(Splitter::default().split(vec![1, 2, 3], 0).is_empty());
    let frames = Splitter::default().split(vec![1, 2, 3, 4, 5], 2);
    let pieces: Vec<Vec<u8>> = frames.iter().map(|f| f.payload.clone()).collect();
    assert_eq!(pieces, vec![vec![1, 2], vec![3, 4], vec![5]]);
    let splits: Vec<(u32, u32)> = frames
        .iter()
        .map(|f| (f.split.unwrap().count, f.split.unwrap().index))
        .collect();
    assert_eq!(splits, vec![(3, 0), (3, 1), (3, 2)]);
}

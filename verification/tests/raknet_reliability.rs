use bedrock::raknet::datagram::Acknowledgement;
use bedrock::raknet::order::{Dedup, OrderBuffer, OutOfWindow};
use bedrock::raknet::retransmit::{Limits, Retransmitter, Rtt, WindowFull};

const MS: u64 = 1_000_000;
const SEC: u64 = 1_000_000_000;
/// An arbitrary starting clock reading, in nanoseconds.
const T0: u64 = 5 * SEC;

fn payload(n: u8) -> Vec<u8> {
    vec![n]
}

#[test]
fn in_order_payloads_pass_straight_through() {
    let mut o = OrderBuffer::new(64);
    for n in 0..5u32 {
        let ready = o.push(n, payload(n as u8)).unwrap();
        assert_eq!(ready, vec![payload(n as u8)]);
    }
    assert_eq!(o.buffered(), 0);
}

#[test]
fn a_gap_holds_everything_behind_it() {
    let mut o = OrderBuffer::new(64);
    assert!(o.push(1, payload(1)).unwrap().is_empty());
    assert!(o.push(2, payload(2)).unwrap().is_empty());
    assert_eq!(o.buffered(), 2);

    let ready = o.push(0, payload(0)).unwrap();
    assert_eq!(ready, vec![payload(0), payload(1), payload(2)]);
    assert_eq!(o.buffered(), 0);
    assert_eq!(o.expected(), 3);
}

#[test]
fn a_replayed_payload_is_dropped_not_redelivered() {
    let mut o = OrderBuffer::new(64);
    assert_eq!(o.push(0, payload(0)).unwrap().len(), 1);
    assert!(o.push(0, payload(0)).unwrap().is_empty());
}

#[test]
fn an_index_beyond_the_window_is_refused() {
    let mut o = OrderBuffer::new(8);
    assert_eq!(
        o.push(8, payload(0)),
        Err(OutOfWindow {
            index: 8,
            expected: 0
        })
    );
    assert_eq!(o.buffered(), 0);
    assert!(o.push(7, payload(0)).is_ok());
}

#[test]
fn the_window_moves_with_delivery() {
    let mut o = OrderBuffer::new(4);
    assert!(o.push(4, payload(0)).is_err());
    for n in 0..3 {
        o.push(n, payload(0)).unwrap();
    }
    assert!(o.push(4, payload(0)).is_ok(), "window moved forward");
}

#[test]
fn dedup_accepts_once() {
    let mut d = Dedup::new(64);
    assert!(d.accept(1));
    assert!(!d.accept(1));
    assert!(d.accept(2));
}

#[test]
fn dedup_accepts_out_of_order() {
    let mut d = Dedup::new(64);
    assert!(d.accept(5));
    assert!(d.accept(3));
    assert!(!d.accept(5));
}

#[test]
fn dedup_forgets_beyond_the_window() {
    let mut d = Dedup::new(16);
    for index in 0..1000 {
        assert!(d.accept(index), "{index}");
    }
    assert!(d.remembered() <= 17, "remembered {}", d.remembered());
    assert!(!d.accept(0), "anything below the floor reads as seen");
    assert!(!d.accept(900));
}

fn datagram(byte: u8) -> Vec<u8> {
    vec![byte; 32]
}

fn limits() -> Limits {
    Limits {
        min_rto: 100 * MS,
        max_rto: 2 * SEC,
        max_retries: 3,
        max_in_flight: 4,
    }
}

#[test]
fn timeout_starts_at_the_ceiling() {
    let rtt = Rtt::new(100 * MS, 2 * SEC);
    assert_eq!(rtt.timeout(), 2 * SEC);
    assert_eq!(rtt.smoothed(), None);
}

#[test]
fn the_first_sample_seeds_the_estimate() {
    let mut rtt = Rtt::new(10 * MS, 2 * SEC);
    rtt.sample(200 * MS);
    assert_eq!(rtt.smoothed(), Some(200 * MS));
    assert_eq!(rtt.timeout(), 600 * MS);
}

#[test]
fn the_estimate_converges_on_a_steady_link() {
    let mut rtt = Rtt::new(10 * MS, 30 * SEC);
    for _ in 0..40 {
        rtt.sample(80 * MS);
    }
    let smoothed = rtt.smoothed().unwrap_or_default();
    assert!(smoothed.abs_diff(80 * MS) < 2 * MS, "{smoothed:?}");
    assert!(rtt.timeout() < 120 * MS);
}

#[test]
fn the_timeout_is_clamped_both_ways() {
    let min = 100 * MS;
    let max = 500 * MS;

    let mut fast = Rtt::new(min, max);
    for _ in 0..20 {
        fast.sample(200_000);
    }
    assert_eq!(fast.timeout(), min);

    let mut slow = Rtt::new(min, max);
    for _ in 0..20 {
        slow.sample(9 * SEC);
    }
    assert_eq!(slow.timeout(), max);
}

#[test]
fn an_ack_clears_the_datagram_and_measures_the_trip() {
    let mut r = Retransmitter::new(limits());
    let t = T0;
    r.track(1, datagram(1), t).unwrap();

    r.on_ack(&Acknowledgement::single(1), t + 120 * MS);
    assert_eq!(r.in_flight(), 0);
    assert_eq!(r.rtt().smoothed(), Some(120 * MS));
}

#[test]
fn a_retransmitted_datagram_is_not_measured() {
    let mut r = Retransmitter::new(limits());
    let t = T0;
    r.track(1, datagram(1), t).unwrap();

    assert_eq!(r.due(t + 3 * SEC).len(), 1);
    r.on_ack(&Acknowledgement::single(1), t + 3 * SEC + 50 * MS);

    assert_eq!(r.in_flight(), 0);
    assert_eq!(r.rtt().smoothed(), None, "no sample from a retransmission");
}

#[test]
fn nothing_is_due_before_the_timeout() {
    let mut r = Retransmitter::new(limits());
    let t = T0;
    r.track(1, datagram(1), t).unwrap();
    assert!(r.due(t + 50 * MS).is_empty());
    assert_eq!(r.in_flight(), 1);
}

#[test]
fn a_nack_resends_immediately() {
    let mut r = Retransmitter::new(limits());
    let t = T0;
    r.track(7, datagram(7), t).unwrap();

    let resent = r.on_nack(&Acknowledgement::single(7), t);
    assert_eq!(resent.len(), 1);
    assert_eq!(resent[0][0], 7);
    assert_eq!(r.in_flight(), 1, "still unacknowledged until an ACK arrives");
}

#[test]
fn a_nack_for_something_unsent_is_ignored() {
    let mut r = Retransmitter::new(limits());
    let t = T0;
    r.track(1, datagram(1), t).unwrap();
    assert!(r.on_nack(&Acknowledgement::single(99), t).is_empty());
}

#[test]
fn retries_back_off() {
    let mut r = Retransmitter::new(limits());
    let mut t = T0;
    r.track(1, datagram(1), t).unwrap();

    assert!(r.due(t + 1999 * MS).is_empty());
    t += 2 * SEC;
    assert_eq!(r.due(t).len(), 1);
    assert!(r.due(t + 1999 * MS).is_empty());
}

#[test]
fn a_peer_that_never_acknowledges_is_declared_gone() {
    let mut r = Retransmitter::new(limits());
    let mut t = T0;
    r.track(1, datagram(1), t).unwrap();

    for _ in 0..limits().max_retries + 1 {
        t += 3 * SEC;
        r.due(t);
    }
    assert!(r.is_dead());
}

#[test]
fn the_window_stops_an_unbounded_backlog() {
    let mut r = Retransmitter::new(limits());
    let t = T0;
    for sequence in 0..4 {
        r.track(sequence, datagram(0), t).unwrap();
    }
    assert_eq!(r.track(4, datagram(0), t), Err(WindowFull));
}

#[test]
fn a_huge_ack_range_clears_only_what_is_held() {
    let mut r = Retransmitter::new(limits());
    let t = T0;
    for sequence in 0..4 {
        r.track(sequence, datagram(0), t).unwrap();
    }
    r.on_ack(
        &Acknowledgement {
            ranges: vec![(0, 0xff_ffff)],
        },
        t + 10 * MS,
    );
    assert_eq!(r.in_flight(), 0);
}

#[test]
fn a_second_sample_moves_the_estimate_an_eighth_of_the_way() {
    let mut rtt = Rtt::new(0, 10 * SEC);
    rtt.sample(800 * MS);
    rtt.sample(0);
    // smoothed = (7 * 800 + 0) / 8 = 700; variation = (3 * 400 + 800) / 4 = 500.
    assert_eq!(rtt.smoothed(), Some(700 * MS));
    assert_eq!(rtt.timeout(), 2700 * MS);
    assert_eq!(rtt.clone_estimate().smoothed(), Some(700 * MS));
}

use quic_relay::ping::{ping_payload, PingAction, PingError, PingEvent, PingLoop};
use quic_relay::relay_bench::{
    benchmark_plan, lookup_target, sample_line, stats_report, table_heading, BenchStats, Transport,
};
use quic_relay::text::{decimal_text, left_aligned, right_aligned};

fn stats(rtts: &[u64]) -> BenchStats {
    BenchStats {
        rtts: rtts.to_vec(),
    }
}

#[test]
fn no_samples() {
    let none = BenchStats::default();
    assert_eq!(none.min(), 0);
    assert_eq!(none.max(), 0);
    assert_eq!(none.avg(), 0);
    assert_eq!(none.p95(), 0);
    assert_eq!(
        stats_report("relay-ws", &none),
        "\n--- relay-ws stats: no samples ---"
    );
}

#[test]
fn smallest_largest_and_mean() {
    let some = stats(&[30, 10, 20, 15]);
    assert_eq!(some.min(), 10);
    assert_eq!(some.max(), 30);
    assert_eq!(some.avg(), 18);
    let one = stats(&[7]);
    assert_eq!((one.min(), one.avg(), one.p95(), one.max()), (7, 7, 7, 7));
}

#[test]
fn mean_of_the_largest_sum() {
    assert_eq!(stats(&[u64::MAX, 0]).avg(), u64::MAX / 2);
}

#[test]
fn percentile_picks_by_rank() {
    assert_eq!(stats(&[3, 1, 2]).p95(), 3);
    let twenty: Vec<u64> = (1..=20).rev().collect();
    assert_eq!(stats(&twenty).p95(), 20);
    let forty: Vec<u64> = (1..=40).rev().collect();
    assert_eq!(stats(&forty).p95(), 39);
    let hundred: Vec<u64> = (1..=100).rev().collect();
    assert_eq!(stats(&hundred).p95(), 96);
}

#[test]
fn percentile_rank_agrees_with_floating_point() {
    for len in 1..=2000usize {
        let rtts: Vec<u64> = (0..len as u64).collect();
        let rank = ((len as f64 * 0.95) as usize).min(len - 1);
        assert_eq!(stats(&rtts).p95(), rank as u64);
    }
}

#[test]
fn order_of_samples_does_not_matter() {
    let a = stats(&[5, 9, 1, 1, 8]);
    let b = stats(&[1, 8, 9, 5, 1]);
    assert_eq!(a.min(), b.min());
    assert_eq!(a.max(), b.max());
    assert_eq!(a.avg(), b.avg());
    assert_eq!(a.p95(), b.p95());
}

#[test]
fn statistics_lie_between_the_extremes() {
    let some = stats(&[12, 900, 45, 45, 3]);
    assert!(some.min() <= some.avg() && some.avg() <= some.max());
    assert!(some.min() <= some.p95() && some.p95() <= some.max());
}

#[test]
fn report_of_samples() {
    assert_eq!(
        stats_report("relay-quic", &stats(&[30, 10, 20, 15])),
        "\n--- relay-quic (4 pings) ---\nmin=10ms  avg=18ms  p95=30ms  max=30ms"
    );
}

#[test]
fn table_lines() {
    assert_eq!(table_heading(), format!("{:<6} {:>10}  transport", "seq", "rtt"));
    assert_eq!(sample_line(3, 125, "QUIC"), "3           125ms  QUIC");
    assert_eq!(
        sample_line(1234567, 1234567890, "WS"),
        format!("{:<6} {:>8}ms  {}", 1234567, 1234567890, "WS")
    );
}

#[test]
fn numbers_and_columns() {
    assert_eq!(decimal_text(0), "0");
    assert_eq!(decimal_text(10), "10");
    assert_eq!(decimal_text(1234567890), "1234567890");
    assert_eq!(decimal_text(u64::MAX), "18446744073709551615");
    assert_eq!(left_aligned("ab", 4), "ab  ");
    assert_eq!(right_aligned("ab", 4), "  ab");
    assert_eq!(left_aligned("abcde", 4), "abcde");
    assert_eq!(right_aligned("abcde", 4), "abcde");
}

#[test]
fn lookup_targets() {
    assert_eq!(lookup_target("relay.example", 7843), "relay.example:7843");
    assert_eq!(lookup_target("localhost", 0), "localhost:0");
}

#[test]
fn plans() {
    assert!(benchmark_plan(false, false).is_empty());
    assert_eq!(benchmark_plan(true, false), [Transport::WebSocket]);
    assert_eq!(benchmark_plan(false, true), [Transport::Quic]);
    assert_eq!(
        benchmark_plan(true, true),
        [Transport::WebSocket, Transport::Quic]
    );
}

fn pong(seq: u32, elapsed_ms: u64) -> PingEvent {
    PingEvent::Pong {
        payload: ping_payload(seq),
        elapsed_ms,
    }
}

#[test]
fn payloads_carry_the_number() {
    assert_eq!(ping_payload(1), [1, 0, 0, 0, 0, 0, 0, 0]);
    assert_eq!(ping_payload(0x0403_0201), [1, 2, 3, 4, 0, 0, 0, 0]);
    assert_eq!(ping_payload(u32::MAX)[..4], u32::MAX.to_le_bytes());
}

#[test]
fn no_pings() {
    let (pings, action) = PingLoop::start(0);
    assert!(matches!(action, PingAction::Done));
    assert!(pings.into_stats().rtts.is_empty());
}

#[test]
fn each_ping_gives_a_sample() {
    let (mut pings, action) = PingLoop::start(2);
    assert!(matches!(action, PingAction::Send { seq: 1 }));
    let action = pings.on_event(PingEvent::Sent).unwrap();
    assert!(matches!(action, PingAction::Receive));
    let action = pings.on_event(pong(1, 40)).unwrap();
    assert!(matches!(
        action,
        PingAction::Sample {
            seq: 1,
            rtt: 40,
            last: false
        }
    ));
    let action = pings.on_event(PingEvent::Resumed).unwrap();
    assert!(matches!(action, PingAction::Send { seq: 2 }));
    pings.on_event(PingEvent::Sent).unwrap();
    let action = pings.on_event(pong(2, 30)).unwrap();
    assert!(matches!(
        action,
        PingAction::Sample {
            seq: 2,
            rtt: 30,
            last: true
        }
    ));
    assert!(pings.on_event(PingEvent::Resumed).is_none());
    assert_eq!(pings.into_stats().rtts, [40, 30]);
}

#[test]
fn other_messages_are_skipped() {
    let (mut pings, _) = PingLoop::start(1);
    pings.on_event(PingEvent::Sent).unwrap();
    for event in [PingEvent::OtherMessage, pong(2, 5), pong(0, 5)] {
        let action = pings.on_event(event).unwrap();
        assert!(matches!(action, PingAction::Receive));
    }
    pings.on_event(pong(1, 9)).unwrap();
    assert_eq!(pings.into_stats().rtts, [9]);
}

#[test]
fn failures_end_the_benchmark() {
    let (mut pings, _) = PingLoop::start(3);
    match pings.on_event(PingEvent::SendFailed("broken".to_string())) {
        Some(PingAction::Fail { error }) => assert_eq!(error.message(), "send Ping: broken"),
        other => panic!("{other:?}"),
    }
    assert!(pings.on_event(PingEvent::Sent).is_none());

    let (mut pings, _) = PingLoop::start(3);
    pings.on_event(PingEvent::Sent).unwrap();
    match pings.on_event(PingEvent::ReceiveFailed("reset".to_string())) {
        Some(PingAction::Fail { error }) => assert_eq!(error.message(), "recv: reset"),
        other => panic!("{other:?}"),
    }

    let (mut pings, _) = PingLoop::start(3);
    pings.on_event(PingEvent::Sent).unwrap();
    match pings.on_event(PingEvent::Disconnected) {
        Some(PingAction::Fail { error }) => {
            assert_eq!(error.message(), "connection closed");
            assert!(matches!(error, PingError::Closed));
        }
        other => panic!("{other:?}"),
    }
}

#[test]
fn pings_go_out_in_order() {
    let (mut pings, mut action) = PingLoop::start(4);
    let mut sent = Vec::new();
    let mut shown = Vec::new();
    let mut waiting = 0;
    loop {
        let event = match action {
            PingAction::Send { seq } => {
                sent.push(seq);
                waiting = 0;
                PingEvent::Sent
            }
            PingAction::Receive => {
                let seq = *sent.last().unwrap();
                waiting += 1;
                match waiting {
                    1 => PingEvent::OtherMessage,
                    2 => pong(seq - 1, 99),
                    _ => pong(seq, 10 * seq as u64),
                }
            }
            PingAction::Sample { rtt, last, .. } => {
                shown.push(rtt);
                if last {
                    break;
                }
                PingEvent::Resumed
            }
            PingAction::Done | PingAction::Fail { .. } => panic!("unexpected action"),
        };
        action = pings.on_event(event).unwrap();
    }
    assert_eq!(sent, [1, 2, 3, 4]);
    assert_eq!(shown, [10, 20, 30, 40]);
    assert_eq!(pings.into_stats().rtts, shown);
}

use ping_sweep::progress::sample;
use ping_sweep::record::{is_reply, record_from_bytes, TIMEOUT_BITS};
use ping_sweep::store::ResultStore;
use ping_sweep::sweep::{drain_pipeline, reorder_results, SweepConfig, SweepState};
use ping_sweep::SweepError;

fn read_records(bytes: &[u8]) -> Vec<u32> {
    bytes
        .chunks_exact(4)
        .map(|c| record_from_bytes(c[0], c[1], c[2], c[3]))
        .collect()
}

#[test]
fn zero_concurrency_is_a_configuration_error() {
    assert_eq!(
        SweepConfig::new(0, 2, 1).unwrap_err(),
        SweepError::ZeroConcurrency
    );
}

#[test]
fn valid_configuration_is_kept() {
    let c = SweepConfig::new(100_000, 2, 1).unwrap();
    assert_eq!(c.cap, 100_000);
    assert_eq!(c.timeout_secs, 2);
    assert_eq!(c.interval_secs, 1);
}

#[test]
fn cap_is_never_exceeded() {
    let mut s = SweepState::start(10, 0, 3);
    let mut max_running: u64 = 0;
    // Submit as eagerly as the admission check allows, completing one probe
    // every third step; the in-flight count must stay at or below the cap.
    let mut finished: u64 = 0;
    while finished < 10 {
        if s.can_submit() {
            s.on_submit();
        } else if s.submitted > s.completed {
            s.on_complete();
            finished += 1;
        }
        let running = s.submitted - s.completed;
        if running > max_running {
            max_running = running;
        }
        assert!(running <= 3);
    }
    assert!(max_running == 3);
    assert!(s.is_finished());
}

#[test]
fn serial_fallback_with_cap_one_completes() {
    let mut s = SweepState::start(4, 0, 1);
    while !s.is_finished() {
        assert!(s.can_submit() || s.submitted > s.completed);
        if s.can_submit() {
            s.on_submit();
        } else {
            s.on_complete();
        }
    }
    assert_eq!(s.completed, 4);
}

#[test]
fn resume_starts_from_done_count() {
    let s = SweepState::start(10, 7, 2);
    assert_eq!(s.completed, 7);
    assert_eq!(s.submitted, 7);
    assert!(!s.is_finished());
}

#[test]
fn reorder_restores_submission_order() {
    // Completion order is the reverse of submission order.
    let pairs: Vec<(usize, Option<u32>)> = vec![
        (4, Some(40)),
        (3, Some(30)),
        (2, None),
        (1, Some(10)),
        (0, Some(0)),
    ];
    let v = reorder_results(&pairs, 5).expect("a full batch should reorder");
    assert_eq!(v, vec![Some(0), Some(10), None, Some(30), Some(40)]);
}

#[test]
fn reorder_rejects_duplicates_and_gaps() {
    assert!(reorder_results(&vec![(0, None), (0, None)], 2).is_none());
    assert!(reorder_results(&vec![(0, None), (2, None)], 2).is_none());
    assert!(reorder_results(&vec![(0, None)], 2).is_none());
}

#[test]
fn records_follow_submission_order_not_completion_order() {
    let latency = |i: u32| Some(0.001f32 * i as f32).map(|f| f.to_bits());
    // Probes complete in a scrambled order.
    let pairs: Vec<(usize, Option<u32>)> = vec![
        (3, latency(3)),
        (0, latency(0)),
        (2, None),
        (1, latency(1)),
    ];
    let (mut store, _) = ResultStore::open(0);
    assert!(drain_pipeline(&mut store, &pairs, 4));
    let records = read_records(&store.take_pending());
    assert_eq!(
        records,
        vec![
            latency(0).unwrap(),
            latency(1).unwrap(),
            TIMEOUT_BITS,
            latency(3).unwrap(),
        ]
    );
}

#[test]
fn alternating_outcomes_round_trip() {
    // A probe client that alternates a 0.01 s reply and a timeout must yield
    // records alternating 0.01 and the negative sentinel.
    let bits = 0.01f32.to_bits();
    let (mut store, _) = ResultStore::open(0);
    for i in 0..6u32 {
        if i % 2 == 0 {
            store.append(Some(bits));
        } else {
            store.append(None);
        }
    }
    let records = read_records(&store.take_pending());
    for (i, r) in records.iter().enumerate() {
        if i % 2 == 0 {
            assert_eq!(f32::from_bits(*r), 0.01);
            assert!(is_reply(*r));
        } else {
            assert_eq!(f32::from_bits(*r), -1.0);
            assert!(!is_reply(*r));
        }
    }
}

#[test]
fn progress_sample_reports_completion() {
    let mut s = SweepState::start(10, 0, 4);
    for _ in 0..4 {
        s.on_submit();
    }
    for _ in 0..3 {
        s.on_complete();
    }
    let p = sample(&s, 1);
    assert_eq!(p.done, 3);
    assert_eq!(p.running, 1);
    assert_eq!(p.total, 10);
    assert_eq!(p.delta, 2);
    assert_eq!(p.permille, 300);
    assert!(!p.finished);
}

#[test]
fn progress_on_empty_sweep_is_finished() {
    let s = SweepState::start(0, 0, 1);
    let p = sample(&s, 0);
    assert_eq!(p.permille, 1000);
    assert!(p.finished);
}

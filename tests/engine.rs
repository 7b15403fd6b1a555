use resample::engine::{Outcome, ProcessError, Resample, MAX_FRAMES};
use resample::factor::{width_for, Factor, FRAME_UNITS};

fn counts(o: Outcome) -> (u64, Vec<u64>) {
    match o {
        Outcome::Processed { consumed, taps } => (consumed, taps),
        Outcome::EndOfStream => panic!("unexpected end of stream"),
        Outcome::Failed(e) => panic!("unexpected failure {:?}", e),
    }
}

fn open(high: bool, min: (u32, u32), max: (u32, u32)) -> Resample {
    Resample::new(high, Factor::new(min.0, min.1), Factor::new(max.0, max.1)).unwrap()
}

/// Feeds `total` frames in chunks of `chunk`, re-presenting what was not taken,
/// then drains; returns all output positions.
fn drive(r: &mut Resample, f: Factor, total: u64, chunk: u64, capacity: usize) -> Vec<u64> {
    let mut out: Vec<u64> = Vec::new();
    let mut fed: u64 = 0;
    loop {
        let offered = if total - fed < chunk { total - fed } else { chunk };
        let last = fed + offered == total;
        match r.process(f, offered, capacity, last) {
            Outcome::Processed { consumed, taps } => {
                fed += consumed;
                out.extend(taps);
            }
            Outcome::EndOfStream => return out,
            Outcome::Failed(e) => panic!("unexpected failure {:?}", e),
        }
    }
}

#[test]
fn it_works() {
    let resample = open(true, (1, 1), (6, 5));
    resample.get_filter_width();
    let mut resample_cloned = resample.duplicate();
    let (i, o) = counts(resample_cloned.process(Factor::new(11, 10), 100, 200, false));
    assert_eq!(i, 100);
    assert_eq!(o.len(), 80);
}

#[test]
fn filter_width_by_quality_and_range() {
    assert_eq!(open(true, (1, 1), (6, 5)).get_filter_width(), 28);
    assert_eq!(open(false, (1, 1), (6, 5)).get_filter_width(), 16);
    assert_eq!(open(true, (1, 2), (1, 1)).get_filter_width(), 46);
    assert_eq!(open(true, (2, 3), (1, 1)).get_filter_width(), 37);
    assert_eq!(open(false, (1, 4), (4, 1)).get_filter_width(), 34);
    assert_eq!(width_for(true, Factor::new(1, 256)), 4618);
}

#[test]
fn filter_width_stays_fixed() {
    let mut r = open(true, (1, 2), (2, 1));
    let w = r.get_filter_width();
    counts(r.process(Factor::new(3, 2), 500, 50, false));
    counts(r.process(Factor::new(1, 2), 0, 50, false));
    assert_eq!(r.get_filter_width(), w);
}

#[test]
fn open_rejects_bad_ranges() {
    assert!(Resample::new(true, Factor::new(6, 5), Factor::new(1, 1)).is_none());
    assert!(Resample::new(true, Factor::new(0, 1), Factor::new(1, 1)).is_none());
    assert!(Resample::new(true, Factor::new(1, 0), Factor::new(1, 1)).is_none());
    assert!(Resample::new(true, Factor::new(1, 257), Factor::new(1, 1)).is_none());
    assert!(Resample::new(true, Factor::new(1, 1), Factor::new(257, 1)).is_none());
    assert!(Resample::new(false, Factor::new(1, 256), Factor::new(256, 1)).is_some());
}

#[test]
fn factor_outside_range_is_refused() {
    let mut r = open(true, (1, 1), (6, 5));
    match r.process(Factor::new(13, 10), 100, 200, false) {
        Outcome::Failed(e) => assert_eq!(e, ProcessError::FactorOutOfRange),
        _ => panic!("expected a refusal"),
    }
    match r.process(Factor::new(9, 10), 100, 200, false) {
        Outcome::Failed(e) => assert_eq!(e, ProcessError::FactorOutOfRange),
        _ => panic!("expected a refusal"),
    }
    // the context is untouched
    let (i, o) = counts(r.process(Factor::new(11, 10), 100, 200, false));
    assert_eq!((i, o.len()), (100, 80));
}

#[test]
fn overlong_stream_is_refused() {
    let mut r = open(true, (1, 1), (6, 5));
    match r.process(Factor::new(1, 1), MAX_FRAMES + 1, 10, false) {
        Outcome::Failed(e) => assert_eq!(e, ProcessError::StreamTooLong),
        _ => panic!("expected a refusal"),
    }
}

#[test]
fn output_positions_are_exact() {
    let mut r = open(true, (1, 1), (6, 5));
    let (_, o) = counts(r.process(Factor::new(11, 10), 100, 200, false));
    assert_eq!(o[0], 0);
    assert_eq!(o[1], 3904515723);
    assert_eq!(o[2], 2 * 3904515723);
    assert_eq!(o[79], 79 * 3904515723);
}

#[test]
fn capacity_limits_consumption() {
    let mut r = open(true, (1, 1), (6, 5));
    let (i, o) = counts(r.process(Factor::new(11, 10), 100, 30, false));
    assert_eq!(i, 55);
    assert_eq!(o.len(), 30);
}

#[test]
fn zero_capacity_produces_nothing() {
    let mut r = open(true, (1, 1), (6, 5));
    let (i, o) = counts(r.process(Factor::new(11, 10), 100, 0, false));
    assert_eq!((i, o.len()), (0, 0));
}

#[test]
fn pending_frames_come_first() {
    let mut r = open(true, (1, 1), (2, 1));
    let f = Factor::new(2, 1);
    let (i, o) = counts(r.process(f, 100, 10, false));
    assert_eq!((i, o.len()), (33, 10));
    let (i, o) = counts(r.process(f, 67, 5, false));
    assert_eq!((i, o.len()), (3, 5));
    assert_eq!(o[0], 10 * (FRAME_UNITS / 2));
    let (i, o) = counts(r.process(f, 64, 1, false));
    assert_eq!(i, 0);
    assert_eq!(o, vec![15 * (FRAME_UNITS / 2)]);
}

#[test]
fn flush_emits_up_to_end_of_input() {
    let mut r = open(true, (1, 1), (6, 5));
    let (i, o) = counts(r.process(Factor::new(1, 1), 100, 1000, true));
    assert_eq!((i, o.len()), (100, 100));
    assert_eq!(o[99], 99 * FRAME_UNITS);

    let mut d = open(true, (1, 2), (1, 1));
    assert_eq!(d.get_filter_width(), 46);
    let (i, o) = counts(d.process(Factor::new(1, 2), 100, 1000, true));
    assert_eq!((i, o.len()), (100, 50));
}

#[test]
fn end_of_stream_after_drain() {
    let mut r = open(false, (1, 1), (6, 5));
    counts(r.process(Factor::new(11, 10), 10, 1000, true));
    assert!(matches!(r.process(Factor::new(11, 10), 10, 1000, true), Outcome::EndOfStream));
    assert!(matches!(r.process(Factor::new(1, 1), 0, 1000, false), Outcome::EndOfStream));
}

#[test]
fn empty_stream_drains_at_once() {
    let mut r = open(true, (1, 1), (6, 5));
    let (i, o) = counts(r.process(Factor::new(1, 1), 0, 10, true));
    assert_eq!((i, o.len()), (0, 0));
    assert!(matches!(r.process(Factor::new(1, 1), 0, 10, true), Outcome::EndOfStream));
}

#[test]
fn rechunking_gives_identical_output() {
    let f = Factor::new(11, 10);
    let mut one = open(true, (1, 1), (6, 5));
    let whole = drive(&mut one, f, 1000, 1000, 5000);
    let mut many = open(true, (1, 1), (6, 5));
    let split = drive(&mut many, f, 1000, 7, 3);
    assert_eq!(whole.len(), 1101);
    assert_eq!(whole, split);

    let g = Factor::new(1, 3);
    let mut low = open(false, (1, 4), (4, 1));
    let mut low2 = open(false, (1, 4), (4, 1));
    assert_eq!(drive(&mut low, g, 301, 301, 1000), drive(&mut low2, g, 301, 13, 1));
}

#[test]
fn duplicate_evolves_independently() {
    let f = Factor::new(11, 10);
    let mut a = open(true, (1, 1), (6, 5));
    counts(a.process(f, 50, 200, false));
    let mut b = a.duplicate();
    let mut c = a.duplicate();
    counts(b.process(Factor::new(1, 1), 300, 7, false));
    counts(b.process(Factor::new(6, 5), 30, 200, true));
    let (ia, oa) = counts(a.process(f, 100, 200, false));
    let (ic, oc) = counts(c.process(f, 100, 200, false));
    assert_eq!((ia, &oa), (ic, &oc));
    assert_eq!(oa.len(), 110);
}

#[test]
fn factor_comparisons() {
    assert!(Factor::new(1, 1).at_most(&Factor::new(6, 5)));
    assert!(!Factor::new(6, 5).at_most(&Factor::new(1, 1)));
    assert!(Factor::new(2, 2).at_most(&Factor::new(1, 1)));
    assert!(Factor::new(256, 1).is_in_range());
    assert!(!Factor::new(257, 1).is_in_range());
    assert_eq!(Factor::new(11, 10).step_units(), 3904515723);
    assert_eq!(Factor::new(1, 256).step_units(), 256 * FRAME_UNITS);
}

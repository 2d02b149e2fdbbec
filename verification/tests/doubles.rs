//! Doubles held as bits come to what the machine's own doubles come to.

use comline_simulator::double::Double;
use comline_simulator::faults::{corrupt_bytes, Direction};
use comline_simulator::rng::Mulberry32;
use comline_simulator::wire::{Channel, SendOutcome};

fn bits(x: f64) -> Double {
    Double { bits: x.to_bits() }
}

fn num(x: Double) -> f64 {
    f64::from_bits(x.bits)
}

/// The same value; a zero has no sign here, and a NaN no payload.
fn same(a: f64, b: f64) -> bool {
    a == b || (a.is_nan() && b.is_nan())
}

/// Values at the ends of every range, and some that round.
fn values() -> Vec<f64> {
    let mut v = vec![
        0.0,
        f64::from_bits(1),
        f64::from_bits(3),
        f64::from_bits(0x000f_ffff_ffff_ffff),
        f64::MIN_POSITIVE,
        1e-300,
        1e-9,
        0.1,
        0.2,
        0.3,
        0.4995,
        0.7,
        1.0,
        1.0000000000000002,
        1.5,
        2.0,
        3.0,
        100.0,
        12345.678,
        4503599627370495.5,
        4503599627370496.0,
        4503599627370497.0,
        9007199254740991.0,
        9007199254740992.0,
        9007199254740994.0,
        1e18,
        1.8446744073709552e19,
        1e300,
        f64::MAX,
        f64::INFINITY,
        f64::NAN,
    ];
    let mut r = Mulberry32::new(7);
    for i in 0..60 {
        let x = r.next_u32() as u64;
        let y = r.next_u32() as u64;
        v.push(f64::from_bits((x << 32 | y) & 0x7fff_ffff_ffff_ffff));
        // and some close together, where a sum loses bits
        v.push(1.0 + (y as f64) / 4294967296.0 * (2.0f64).powi(-(i % 60)));
    }
    let mut both = v.clone();
    for x in v {
        both.push(-x);
    }
    both
}

#[test]
fn sums_are_the_nearest_doubles() {
    let v = values();
    for &a in &v {
        for &b in &v {
            let got = num(bits(a).plus(bits(b)));
            assert!(same(got, a + b), "{a:e} + {b:e} gave {got:e}, not {:e}", a + b);
            let got = num(bits(a).plus(bits(b).minus()));
            assert!(same(got, a - b), "{a:e} - {b:e} gave {got:e}, not {:e}", a - b);
        }
    }
}

#[test]
fn parts_are_the_nearest_doubles() {
    let mut r = Mulberry32::new(3);
    for a in values() {
        if a.is_nan() || a.is_sign_negative() {
            continue;
        }
        for draw in [0, 1, 2, 0x7fff_ffff, 0x8000_0000, 0xffff_ffff, r.next_u32(), r.next_u32()] {
            let want = f64::from(draw) / 4294967296.0 * a;
            let got = num(bits(a).part_at(draw));
            assert!(same(got, want), "{draw} of {a:e} gave {got:e}, not {want:e}");
        }
    }
}

#[test]
fn whole_numbers_become_doubles_and_come_back() {
    let mut r = Mulberry32::new(11);
    let mut numbers = vec![0, 1, 2, 3, 1 << 52, (1 << 53) - 1, 1 << 53, (1 << 53) + 1, (1 << 54) + 2, u64::MAX];
    for i in 0..200u32 {
        numbers.push(((r.next_u32() as u64) << 32 | r.next_u32() as u64) >> (i % 64));
    }
    for n in numbers {
        assert_eq!(num(Double::of_number(n)), n as f64);
        assert_eq!(num(Double::of_half(n)), n as f64 / 2.0);
    }
    for x in values() {
        assert_eq!(bits(x).floor_up_to(u64::MAX), x.floor() as u64, "floor of {x:e}");
        assert_eq!(bits(x).floor_up_to(5), (x.floor() as u64).min(5));
        assert_eq!(bits(x).to_micros(), (x.max(0.0) * 1000.0).round() as i64, "micros of {x:e}");
        if x > 0.0 {
            assert_eq!(bits(x).to_nearest(), x.round() as i64, "nearest to {x:e}");
        }
    }
}

#[test]
fn microseconds_become_milliseconds() {
    let mut r = Mulberry32::new(13);
    let mut instants = vec![0, 1, 2, 3, 700, 800, 999, 1000, 1001, 4_503_599_627_370_497, i64::MAX, i64::MIN, -1, -1500];
    for i in 0..500u32 {
        instants.push((((r.next_u32() as u64) << 32 | r.next_u32() as u64) >> (i % 63)) as i64);
    }
    for us in instants {
        assert_eq!(num(Double::of_micros(us)), us as f64 / 1000.0, "{us}");
    }
    for n in [0u32, 1, 7, 1000, 4_000_000_000] {
        assert_eq!(bits(n as f64).to_micros(), n as i64 * 1000);
    }
}

#[test]
fn doubles_compare_as_the_machine_compares() {
    let v = values();
    for &a in &v {
        if a.is_nan() {
            continue;
        }
        for &b in &v {
            assert_eq!(bits(a).at_most(bits(b)), a <= b, "{a:e} <= {b:e}");
        }
    }
}

#[test]
fn nothing_added_changes_nothing() {
    for x in values() {
        assert!(same(num(bits(x).plus(Double::zero())), x));
    }
}

// ── what the wire does with them ────────────────────────────────────────

/// Sends a frame over a wire with that latency and those delays: when it arrives,
/// and what the log says.
fn sent(latency: f64, min: f64, max: f64, seed: u32) -> (f64, Option<String>) {
    let mut ch = Channel::new("c".into(), "s".into());
    ch.latency_ms = bits(latency);
    ch.faults_mut().delay_min = bits(min);
    ch.faults_mut().delay_max = bits(max);
    match ch.send(Direction::Request, b"x", bits(0.0), &mut Mulberry32::new(seed)) {
        SendOutcome::Deliver { delay_ms, .. } => (num(delay_ms), ch.tap.frames[0].fault.clone()),
        other => panic!("expected delivery, got {other:?}"),
    }
}

#[test]
fn a_jitter_is_summed_in_milliseconds_and_rounded_once() {
    // below half a microsecond it still shows in the log
    assert_eq!(sent(0.0, 0.0001, 0.0001, 1), (0.0001, Some("+0 ms".into())));
    assert_eq!(sent(0.0, 0.4995, 0.4995, 1), (0.4995, Some("+0 ms".into())));
    assert_eq!(sent(0.0, 0.5, 0.5, 1), (0.5, Some("+1 ms".into())));
    assert_eq!(sent(0.0004, 0.0, 0.0, 1), (0.0004, None));
    // two parts that each round down come to a microsecond together
    assert_eq!(bits(sent(0.0004, 0.0003, 0.0003, 1).0).to_micros(), 1);
}

#[test]
fn a_jitter_is_what_the_machine_comes_to() {
    let mut seeds = Mulberry32::new(5);
    for latency in [0.0, 0.1, 20.0, 1e-7, f64::NAN, -3.0] {
        for min in [0.0, 0.1, 5.3, 50.0, -4.0, f64::NAN, f64::NEG_INFINITY] {
            for max in [0.0, 0.3, 5.4, 49.9, 1e19, f64::INFINITY, f64::NAN] {
                let seed = seeds.next_u32();
                let mut r = Mulberry32::new(seed);
                let _drop = r.next_u32();
                let range = (max - min).max(0.0);
                let jitter = if max > 0.0 { min + f64::from(r.next_u32()) / 4294967296.0 * range } else { 0.0 };
                let delay = latency + jitter;
                let note = (jitter > 0.0).then(|| format!("+{} ms", jitter.round() as i64));
                let got = sent(latency, min, max, seed);
                assert!(same(got.0, delay), "{latency} {min} {max} {seed}");
                assert_eq!(got.1, note, "{latency} {min} {max} {seed}");
            }
        }
    }
}

#[test]
fn a_missing_lower_delay_delays_nothing() {
    let (delay, note) = sent(20.0, f64::NAN, 50.0, 1);
    assert!(delay.is_nan() && note.is_none());
    assert_eq!(bits(delay).to_micros(), 0);
}

#[test]
fn a_large_frame_is_flipped_where_a_double_falls() {
    for (len, seed) in [(1usize, 1u32), (2, 2), (7, 3), (1000, 4), (1 << 20, 5), (3_000_001, 6), (5_000_003, 7)] {
        let bytes = vec![0u8; len];
        let out = corrupt_bytes(&bytes, &mut Mulberry32::new(seed));
        let half = len as f64 / 2.0;
        let draw = f64::from(Mulberry32::new(seed).next_u32()) / 4294967296.0;
        let at = ((half + draw * half).floor() as usize).min(len - 1);
        assert!(at >= len / 2);
        assert_eq!(out[at], 0xff);
        assert_eq!(out.iter().filter(|b| **b != 0).count(), 1);
    }
}

#[test]
fn a_batch_is_shuffled_as_the_machine_shuffles() {
    let mut ch = Channel::new("c".into(), "s".into());
    ch.faults_mut().reorder_window = 200;
    let mut r = Mulberry32::new(9);
    let mut want: Vec<Vec<u8>> = Vec::new();
    for i in 0..100u8 {
        want.push(vec![i]);
        ch.send(Direction::Request, &[i], bits(0.0), &mut r);
    }
    let mut twin = r;
    for i in (1..want.len()).rev() {
        let draw = f64::from(twin.next_u32()) / 4294967296.0;
        want.swap(i, (draw * (i as f64 + 1.0)).floor() as usize);
    }
    assert_eq!(ch.flush_reorder(&mut r), want);
}

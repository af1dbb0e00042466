use tuning_studio::float_bits::{clamp, in_range, is_finite, is_nan, less, less_or_equal};
use tuning_studio::float_sum::{negate, sum};
use tuning_studio::table::{
    fnv1a, Access, Entry, Kind, Table, TableError, Tunable, WatchBool, WatchF32, WatchI32, WatchU32,
};

fn gain() -> Tunable {
    tunable_named("test.gain", 2.0, 0.0, 10.0, 0.5)
}

fn tunable_named(name: &str, default: f32, min: f32, max: f32, max_step: f32) -> Tunable {
    Tunable::new(
        name,
        "",
        default.to_bits(),
        min.to_bits(),
        max.to_bits(),
        max_step.to_bits(),
    )
}

fn tunable(default: f32) -> Tunable {
    tunable_named("t", default, -10.0, 10.0, 1.0)
}

fn apply(t: &mut Tunable, current: f32) -> f32 {
    f32::from_bits(t.apply(current.to_bits()))
}

fn request(t: &mut Tunable, value: f32) {
    t.request(value.to_bits());
}

fn requested(t: &Tunable) -> f32 {
    f32::from_bits(t.requested())
}

fn table() -> Table {
    Table::new(vec![
        gain().into_entry(),
        WatchF32::new("test.angle_rad", "rad").into_entry(),
        WatchU32::new("test.ticks", "").into_entry(),
    ])
}

#[test]
fn fnv1a_matches_the_reference_vectors() {
    assert_eq!(fnv1a(b""), 0x811c_9dc5);
    assert_eq!(fnv1a(b"a"), 0xe40c_292c);
    assert_eq!(fnv1a(b"foobar"), 0xbf9c_f968);
}

#[test]
fn a_table_of_distinct_names_validates() {
    let table = table();
    assert_eq!(table.validate(), Ok(()));
    assert_eq!(table.entries().len(), 3);
    assert_eq!(table.format(), (u32::from_le_bytes(*b"RMTT"), 1));
    assert_eq!(gain().entry().id(), fnv1a(b"test.gain"));
    assert_eq!(gain().entry().access(), Access::Live);
    assert_eq!(WatchF32::new("test.angle_rad", "rad").entry().kind(), Kind::F32);
    assert_eq!(WatchU32::new("test.ticks", "").entry().kind(), Kind::U32);
}

#[test]
fn a_repeated_name_is_refused() {
    let dup = Table::new(vec![
        tunable_named("same", 0.0, 0.0, 1.0, 1.0).into_entry(),
        WatchBool::new("same", "").into_entry(),
    ]);
    assert_eq!(
        dup.validate(),
        Err(TableError::DuplicateId {
            first: "same".to_string(),
            second: "same".to_string()
        })
    );
}

#[test]
fn with_no_request_the_default_is_applied() {
    let mut t = tunable(3.0);
    assert_eq!(apply(&mut t, 3.0), 3.0);
    assert_eq!(f32::from_bits(t.entry().applied_bits()), 3.0);
}

#[test]
fn a_request_is_approached_by_at_most_one_step_per_apply() {
    let mut t = tunable(0.0);
    request(&mut t, 2.5);
    let mut value = 0.0;
    let mut seen = [0.0; 4];
    for slot in &mut seen {
        value = apply(&mut t, value);
        *slot = value;
    }
    assert_eq!(seen, [1.0, 2.0, 2.5, 2.5]);
    assert_eq!(requested(&t), 2.5);
}

#[test]
fn an_out_of_range_request_is_clamped_and_written_back() {
    let mut t = tunable(0.0);
    request(&mut t, 50.0);
    assert_eq!(apply(&mut t, 9.5), 10.0);
    assert_eq!(requested(&t), 10.0);
    request(&mut t, -50.0);
    assert_eq!(apply(&mut t, -9.5), -10.0);
    assert_eq!(requested(&t), -10.0);
}

#[test]
fn a_request_that_is_not_a_number_keeps_the_current_value() {
    let mut t = tunable(1.0);
    request(&mut t, f32::NAN);
    assert_eq!(apply(&mut t, 4.0), 4.0);
    assert_eq!(requested(&t), 4.0);
    request(&mut t, f32::INFINITY);
    assert_eq!(apply(&mut t, 4.0), 4.0);
}

#[test]
fn a_current_value_that_is_not_a_number_jumps_to_the_target() {
    let mut t = tunable(1.0);
    request(&mut t, 5.0);
    assert_eq!(apply(&mut t, f32::NAN), 5.0);
    request(&mut t, f32::NAN);
    assert_eq!(apply(&mut t, f32::NAN), 1.0, "falls back to the default");
}

#[test]
fn watches_publish_their_bits() {
    let mut angle = WatchF32::new("test.angle_rad", "rad");
    angle.publish((-1.5f32).to_bits());
    assert_eq!(f32::from_bits(angle.entry().applied_bits()), -1.5);
    let mut ticks = WatchU32::new("test.ticks", "");
    ticks.publish(7);
    assert_eq!(ticks.entry().applied_bits(), 7);
    let mut signed = WatchI32::new("s", "");
    signed.publish(-2);
    assert_eq!(signed.entry().applied_bits(), 0xffff_fffe);
    let mut flag = WatchBool::new("b", "");
    flag.publish(true);
    assert_eq!(flag.entry().applied_bits(), 1);
}

#[test]
fn entries_describe_themselves() {
    let e: Entry = Tunable::new(
        "arm.kp",
        "1/s",
        2.0f32.to_bits(),
        0.0f32.to_bits(),
        10.0f32.to_bits(),
        0.5f32.to_bits(),
    )
    .safe_only()
    .into_entry();
    assert_eq!((e.name(), e.unit()), ("arm.kp", "1/s"));
    assert_eq!(e.access(), Access::SafeOnly);
    assert!(e.is_tunable());
    assert_eq!(
        e.range(),
        (0.0f32.to_bits(), 10.0f32.to_bits(), 0.5f32.to_bits())
    );
    assert_eq!(e.default_bits(), 2.0f32.to_bits());
    assert_eq!(e.requested_bits(), 2.0f32.to_bits());
    let w = WatchI32::new("n", "");
    assert!(!w.entry().is_tunable());
    assert_eq!(w.entry().kind(), Kind::I32);
    assert_eq!(w.entry().access(), Access::ReadOnly);
    assert_eq!(Kind::F32.tag(), 0);
    assert_eq!(Access::ReadOnly.tag(), 0);
}

#[test]
fn the_fingerprint_covers_descriptors_and_not_values() {
    let mut a = table();
    let before = a.fingerprint();
    a.request(0, 3.0f32.to_bits());
    a.publish(2, 9);
    assert_eq!(a.fingerprint(), before);
    let other = Table::new(vec![
        tunable_named("test.gain", 2.0, 0.0, 11.0, 0.5).into_entry(),
        WatchF32::new("test.angle_rad", "rad").into_entry(),
        WatchU32::new("test.ticks", "").into_entry(),
    ]);
    assert_ne!(other.fingerprint(), before);
}

#[test]
fn a_table_is_tuned_by_index() {
    let mut t = table();
    assert_eq!(t.len(), 3);
    assert_eq!(t.find(fnv1a(b"test.ticks")), Some(2));
    assert_eq!(t.find(7), None);
    t.request(0, 5.0f32.to_bits());
    assert_eq!(f32::from_bits(t.apply(0, 2.0f32.to_bits())), 2.5);
    assert_eq!(t.entry(0).applied_bits(), 2.5f32.to_bits());
}

/// Every pair of these, against the float unit.
fn samples() -> Vec<f32> {
    let mut all = Vec::new();
    for bits in [
        0u32, 1, 2, 3, 0x007f_ffff, 0x0080_0000, 0x0080_0001, 0x00ff_ffff, 0x0100_0000, 0x3380_0000,
        0x3f7f_ffff, 0x3f80_0000, 0x3f80_0001, 0x3f80_0002, 0x4000_0000, 0x4040_0001, 0x4b7f_ffff,
        0x4b80_0000, 0x4b80_0001, 0x4c80_0001, 0x7e7f_ffff, 0x7f00_0000, 0x7f7f_ffff, 0x7f7f_fffe,
        0x1234_5678, 0x2abc_def1, 0x5555_5555, 0x3dcc_cccd, 0x3e4c_cccd,
    ] {
        all.push(f32::from_bits(bits));
        all.push(-f32::from_bits(bits));
    }
    all
}

#[test]
fn sums_are_those_of_the_float_unit() {
    for a in samples() {
        for b in samples() {
            assert_eq!(sum(a.to_bits(), b.to_bits()), (a + b).to_bits(), "{a:?} + {b:?}");
        }
        assert_eq!(negate(a.to_bits()), (-a).to_bits());
        assert_eq!(sum(a.to_bits(), f32::INFINITY.to_bits()), f32::INFINITY.to_bits());
    }
}

#[test]
fn sums_of_neighbouring_scales_round_to_even() {
    let mut x: u32 = 0x3f80_0000;
    let mut y: u32 = 0x3300_0001;
    for _ in 0..2000 {
        x = x.wrapping_mul(1_664_525).wrapping_add(1_013_904_223) % 0x7f80_0000;
        y = y.wrapping_mul(22_695_477).wrapping_add(1) % 0x7f80_0000;
        for d in 0..30u32 {
            let z = (x % 0x0080_0000) + (((x / 0x0080_0000) + d) % 255) * 0x0080_0000;
            let (a, b, c) = (f32::from_bits(x), f32::from_bits(z), f32::from_bits(y));
            assert_eq!(sum(x, z), (a + b).to_bits());
            assert_eq!(sum(x, negate(z)), (a - b).to_bits());
            assert_eq!(sum(negate(x), y), (-a + c).to_bits());
        }
    }
}

#[test]
fn steps_are_those_of_the_float_unit() {
    for current in samples() {
        for wanted in samples() {
            for step in [1.0e-3f32, 0.5, 3.0e38, f32::INFINITY] {
                let mut t = tunable_named("t", 0.0, -3.0e38, 3.0e38, step);
                request(&mut t, wanted);
                let target = wanted.clamp(-3.0e38, 3.0e38);
                let next = current + (target - current).clamp(-step, step);
                assert_eq!(t.apply(current.to_bits()), next.to_bits());
                assert_eq!(t.requested(), target.to_bits());
            }
        }
    }
}

#[test]
fn a_value_at_rest_stays() {
    let mut t = tunable(0.0);
    request(&mut t, 2.5);
    assert_eq!(apply(&mut t, 2.5), 2.5);
    assert_eq!(requested(&t), 2.5);
    assert_eq!(f32::from_bits(t.entry().applied_bits()), 2.5);
}

#[test]
fn a_step_goes_toward_the_request_and_no_farther_than_the_step() {
    let mut t = tunable_named("t", 0.0, -100.0, 100.0, 0.1);
    request(&mut t, 50.0);
    let next = apply(&mut t, 7.3);
    assert!(next >= 7.3 && next <= 7.3 + 0.1);
    request(&mut t, -50.0);
    let next = apply(&mut t, 7.3);
    assert!(next <= 7.3 && next >= 7.3 - 0.1);
}

#[test]
fn numbers_compare_by_their_bits() {
    for a in samples() {
        for b in samples() {
            assert_eq!(less(a.to_bits(), b.to_bits()), a < b);
            assert_eq!(less_or_equal(a.to_bits(), b.to_bits()), a <= b);
        }
    }
    assert!(is_nan(f32::NAN.to_bits()) && !is_nan(f32::INFINITY.to_bits()));
    assert!(is_finite(1.0f32.to_bits()) && !is_finite(f32::INFINITY.to_bits()));
    assert!(!less(f32::NAN.to_bits(), 0) && !less_or_equal(0, f32::NAN.to_bits()));
    assert_eq!(
        clamp(5.0f32.to_bits(), 0.0f32.to_bits(), 1.0f32.to_bits()),
        1.0f32.to_bits()
    );
    assert!(in_range(0.5f32.to_bits(), 0, 1.0f32.to_bits()));
    assert!(!in_range(f32::NAN.to_bits(), 0, 1.0f32.to_bits()));
}

#[test]
fn an_exact_step_never_leaves_the_range() {
    let mut t = tunable_named("t", 0.0, -4.0, 4.0, 0.75);
    for wish in [-1000.0, -4.0, -0.5, 0.0, 2.5, 4.0, 1000.0] {
        let mut value = 0.0;
        for _ in 0..20 {
            request(&mut t, wish);
            value = apply(&mut t, value);
            assert!((-4.0..=4.0).contains(&value));
        }
        assert_eq!(value, wish.clamp(-4.0, 4.0));
    }
}

#[test]
fn a_rounded_distance_may_pass_a_tiny_target() {
    let mut t = tunable_named("t", 1.0, 1e-8, 2.0, 1.0);
    request(&mut t, 1e-8);
    assert_eq!(apply(&mut t, 1.0), 0.0);
}

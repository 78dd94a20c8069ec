use meshdiff::diag::{display_width, Field, PreDebug};
use meshdiff::floatilla::{Fp, FpRepr, Real, TryMath};
use meshdiff::fps_tracker::FpsTracker;
use meshdiff::pool::{Pool, PoolGuard, PoolLogic};

#[test]
fn fps_counts_frames_within_period() {
    let mut t = FpsTracker::new(1_000_000_000);
    t.log_frame_at(0);
    t.log_frame_at(400_000_000);
    t.log_frame_at(900_000_000);
    assert_eq!(t.fps_at(1_000_000_000), 3);
}

#[test]
fn fps_drops_stale_frames() {
    let mut t = FpsTracker::new(1_000_000_000);
    t.log_frame_at(0);
    t.log_frame_at(2_500_000_000);
    // the frame at 0 is more than one period old by now
    assert_eq!(t.fps_at(2_500_000_000), 1);
}

#[test]
fn fps_scales_by_period() {
    // two frames retained over a two-second period: one frame per second
    let mut t = FpsTracker::new(2_000_000_000);
    t.log_frame_at(0);
    t.log_frame_at(1_000_000_000);
    assert_eq!(t.fps_at(1_500_000_000), 1);
}

#[test]
fn fps_with_zero_period_saturates() {
    let mut t = FpsTracker::new(0);
    t.log_frame_at(5);
    assert_eq!(t.fps_at(6), u32::MAX);
}

#[test]
fn fps_default_period_is_one_second() {
    let mut t = FpsTracker::default();
    t.log_frame_at(100);
    assert_eq!(t.fps_at(200), 1);
}

struct CounterPool;

impl PoolLogic<u64> for CounterPool {
    fn is_fresh(&self, elem: u64) -> bool {
        elem == 0
    }

    fn create(&self) -> u64 {
        0
    }

    fn recycle(&self, elem: &mut u64) {
        *elem = 0;
    }
}

#[test]
fn pool_hands_out_fresh_elements() {
    let mut pool: Pool<u64, CounterPool> = Pool::new(CounterPool, 2);
    let guard: PoolGuard<u64> = pool.get();
    let mut v = guard.take();
    assert_eq!(v, 0);
    v = 17;
    pool.put(v);
    // the recycled element comes back restored to its fresh state
    assert_eq!(pool.get().take(), 0);
}

#[test]
fn pre_debug_captures_both_renderings() {
    let p = PreDebug::new(vec![1, 2]);
    assert_eq!(p.debug, "[1, 2]");
    assert_eq!(p.debug_alt, "[\n    1,\n    2,\n]");
}

#[test]
fn field_new_accepts_key_and_value() {
    let _f = Field::new("answer", 42);
    let _g = Field::new(String::from("other"), "text");
}

#[derive(Copy, Clone, Debug)]
struct F32(f32);

impl Fp for F32 {
    fn is_infinite_spec(&self) -> bool {
        self.0.is_infinite()
    }

    fn is_nan_spec(&self) -> bool {
        self.0.is_nan()
    }

    fn is_sign_positive_spec(&self) -> bool {
        self.0.is_sign_positive()
    }

    fn is_infinite(&self) -> bool {
        self.0.is_infinite()
    }

    fn is_nan(&self) -> bool {
        self.0.is_nan()
    }

    fn is_sign_positive(&self) -> bool {
        self.0.is_sign_positive()
    }

    fn infinity() -> F32 {
        F32(f32::INFINITY)
    }

    fn neg_infinity() -> F32 {
        F32(f32::NEG_INFINITY)
    }

    fn nan() -> F32 {
        F32(f32::NAN)
    }
}

#[test]
fn real_accepts_finite_floats_only() {
    assert!(Real::try_new(F32(1.5)).is_ok());
    assert!(Real::try_new(F32(-0.0)).is_ok());
    assert!(Real::try_new(F32(f32::INFINITY)).is_err());
    assert!(Real::try_new(F32(f32::NEG_INFINITY)).is_err());
    assert!(Real::try_new(F32(f32::NAN)).is_err());
    let e = Real::try_new(F32(f32::INFINITY)).unwrap_err();
    assert!(e.0 .0.is_infinite());
}

#[test]
fn real_round_trips_its_float() {
    let r = Real::new(F32(2.25));
    assert_eq!(r.to_float().0, 2.25);
    let t = TryMath(r);
    assert_eq!(t.to_float().0, 2.25);
    assert_eq!(t.to_real().to_float().0, 2.25);
}

#[test]
fn real_map_reports_non_real_results() {
    let r = Real::new(F32(2.0));
    let doubled = r.map(|f: F32| F32(f.0 * 2.0)).unwrap();
    assert_eq!(doubled.to_float().0, 4.0);
    let err = r.map(|f: F32| F32(f.0 / 0.0)).unwrap_err();
    assert!(err.0 .0.is_infinite());
}

#[test]
fn fp_repr_classifies_floats() {
    assert!(matches!(FpRepr::new(F32(f32::INFINITY)), FpRepr::PosInf));
    assert!(matches!(FpRepr::new(F32(f32::NEG_INFINITY)), FpRepr::NegInf));
    assert!(matches!(FpRepr::new(F32(f32::NAN)), FpRepr::Nan));
    let r = FpRepr::new(F32(3.0));
    assert!(matches!(r, FpRepr::Real(_)));
    assert_eq!(r.to_real().to_float().0, 3.0);
    assert_eq!(r.to_float().0, 3.0);
    assert!(FpRepr::new(F32(f32::NAN)).to_float().0.is_nan());
}

#[test]
fn fp_repr_map_reclassifies() {
    let r = FpRepr::new(F32(2.0));
    let mapped = r.map(|f: F32| F32(f.0 - 2.0));
    assert!(matches!(mapped, FpRepr::Real(_)));
    assert_eq!(mapped.to_float().0, 0.0);
    let inf = r.map(|f: F32| F32(f.0 / 0.0));
    assert!(matches!(inf, FpRepr::PosInf));
}

#[test]
fn display_width_measures_the_widest_line() {
    assert_eq!(display_width(""), 0);
    assert_eq!(display_width("ab"), 2);
    assert_eq!(display_width("ab\ncdef\nx"), 4);
}

#[test]
fn display_width_strips_ansi_escapes() {
    // a raw count of the visible characters would be far larger
    assert_eq!(display_width("\x1b[31mred\x1b[0m"), 3);
}

#[test]
fn display_width_counts_columns_not_chars() {
    // a fullwidth character occupies two columns
    assert_eq!(display_width("\u{65e5}\u{672c}"), 4);
    // a control character occupies none
    assert_eq!(display_width("a\tb"), 2);
}

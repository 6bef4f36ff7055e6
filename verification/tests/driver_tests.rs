use bk2_to_gbi::driver::StepDriver;
use bk2_to_gbi::driver::SAMPLES_PER_FRAME;
use bk2_to_gbi::input::Button;
use bk2_to_gbi::input::Input;
use bk2_to_gbi::recorder::InputGetter;

#[test]
fn recorder_records_every_query() {
    let mut rec = InputGetter::new();
    rec.set_input(Input::empty().press(Button::A));
    assert_eq!(rec.record_query(0), 0x01);
    assert_eq!(rec.record_query(100), 0x01);
    rec.advance_clock(500);
    rec.set_input(Input::empty());
    assert_eq!(rec.record_query(7), 0x00);
    let samples = rec.get_input_samples();
    assert_eq!(samples.len(), 3);
    assert_eq!(samples[0], (0, Input::from_bits(0x01)));
    assert_eq!(samples[1], (100, Input::from_bits(0x01)));
    assert_eq!(samples[2], (507, Input::empty()));
}

#[test]
fn legacy_cadence_completes_after_one_run_with_no_overflow() {
    let mut d = StepDriver::new(false);
    for frame in 0..3u64 {
        d.begin_step(Input::empty());
        assert_eq!(d.request_samples(), SAMPLES_PER_FRAME);
        // the engine stops at its own boundary, short of the request
        d.apply_run(12345);
        assert!(d.frame_complete());
        assert_eq!(d.overflow_samples, 0);
        assert_eq!(d.frame, frame + 1);
    }
    assert_eq!(d.input_getter.sample_count, 3 * 12345);
}

#[test]
fn exact_cadence_carries_overflow_and_keeps_the_clock_on_frames() {
    let nominal = SAMPLES_PER_FRAME as u64;
    let mut d = StepDriver::new(true);

    // frame 1: two short runs, then one that overshoots by 500
    d.begin_step(Input::empty());
    d.apply_run(20000);
    assert!(!d.frame_complete());
    assert_eq!(d.request_samples(), SAMPLES_PER_FRAME - 20000);
    d.apply_run(10000);
    assert!(!d.frame_complete());
    d.apply_run(SAMPLES_PER_FRAME - 30000 + 500);
    assert!(d.frame_complete());
    assert_eq!(d.overflow_samples, 500);
    assert_eq!(d.frame, 1);
    assert_eq!(d.input_getter.sample_count, nominal + 500);

    // frame 2: the request already accounts for the carried overflow
    d.begin_step(Input::empty());
    assert_eq!(d.request_samples(), SAMPLES_PER_FRAME - 500);
    d.apply_run(SAMPLES_PER_FRAME - 500);
    assert!(d.frame_complete());
    assert_eq!(d.overflow_samples, 0);
    assert_eq!(d.frame, 2);
    assert_eq!(d.input_getter.sample_count, 2 * nominal);

    // after every completed frame: 0 <= overflow < nominal, and the clock
    // is within one frame of frame * nominal
    assert!((d.overflow_samples as u64) < nominal);
    assert_eq!(d.input_getter.sample_count, d.frame * nominal + d.overflow_samples as u64);
}

#[test]
fn exact_cadence_exactly_nominal_run_leaves_no_overflow() {
    let mut d = StepDriver::new(true);
    for frame in 0..4u64 {
        d.begin_step(Input::empty());
        let req = d.request_samples();
        d.apply_run(req);
        assert!(d.frame_complete());
        assert_eq!(d.overflow_samples, 0);
        assert_eq!(d.frame, frame + 1);
    }
    assert_eq!(d.input_getter.sample_count, 4 * SAMPLES_PER_FRAME as u64);
}

#[test]
fn step_shows_the_input_to_engine_queries() {
    let mut d = StepDriver::new(true);
    d.begin_step(Input::empty().press(Button::Start));
    let bits = d.input_getter.record_query(10);
    assert_eq!(bits, 0x08);
    d.apply_run(SAMPLES_PER_FRAME);
    let samples = d.get_input_samples();
    assert_eq!(samples, vec![(10, Input::from_bits(0x08))]);
}

use bk2_to_gbi::convert::convert_to_output_events;
use bk2_to_gbi::driver::StepDriver;
use bk2_to_gbi::driver::SAMPLES_PER_FRAME;
use bk2_to_gbi::input::Button;
use bk2_to_gbi::input::Input;

// floor((2 s + 2 * 484500) / 1024), the defined conversion formula
fn t(s: u64) -> u64 {
    (2 * s + 2 * 484500) / 1024
}

#[test]
fn output_starts_with_forced_neutral_event() {
    let events = convert_to_output_events(&vec![]);
    assert_eq!(events, vec![(0, Input::empty())]);
}

#[test]
fn change_at_sample_zero_still_follows_the_forced_event() {
    let a = Input::from_bits(0x01);
    let events = convert_to_output_events(&vec![(0, a)]);
    assert_eq!(events, vec![(0, Input::empty()), (t(0), a)]);
    assert_eq!(t(0), 946);
}

#[test]
fn only_changes_are_emitted() {
    let a = Input::from_bits(0x01);
    let b = Input::from_bits(0x02);
    let samples = vec![(1000, a), (2000, a), (3000, b), (4000, b), (5000, Input::empty())];
    let events = convert_to_output_events(&samples);
    assert_eq!(
        events,
        vec![(0, Input::empty()), (t(1000), a), (t(3000), b), (t(5000), Input::empty())]
    );
}

#[test]
fn output_times_strictly_increase_and_states_alternate() {
    let a = Input::from_bits(0x01);
    let mut samples: Vec<(u64, Input)> = Vec::new();
    // changes spaced well beyond half the scale factor
    for k in 0..50u64 {
        let state = if k % 2 == 0 { a } else { Input::empty() };
        samples.push((k * 600, state));
    }
    let events = convert_to_output_events(&samples);
    for w in events.windows(2) {
        assert!(w[0].0 < w[1].0);
        assert_ne!(w[0].1, w[1].1);
    }
}

#[test]
fn conversion_formula_exact_values() {
    let a = Input::from_bits(0x01);
    let events = convert_to_output_events(&vec![(35112, a)]);
    // (2 * 35112 + 969000) / 1024 = 1014
    assert_eq!(events[1].0, 1014);
}

#[test]
fn stub_engine_end_to_end_produces_four_events() {
    // a stub engine that reports exactly nominal samples per call and
    // samples input once per call at offset 0 of the advanced clock
    let nominal = SAMPLES_PER_FRAME as u64;
    let a = Input::empty().press(Button::A);
    let b = Input::empty().press(Button::B);
    let script = [a, a, b, Input::empty()];

    let mut d = StepDriver::new(true);
    for input in script {
        d.begin_step(input);
        loop {
            let req = d.request_samples();
            d.apply_run(req);
            let _ = d.input_getter.record_query(0);
            if d.frame_complete() {
                break;
            }
        }
    }
    // run past the end of inputs to flush any trailing neutral queries
    for _ in 0..3 {
        d.begin_step(Input::empty());
        let req = d.request_samples();
        d.apply_run(req);
        let _ = d.input_getter.record_query(0);
    }

    let samples = d.get_input_samples();
    let events = convert_to_output_events(&samples);
    assert_eq!(
        events,
        vec![
            (0, Input::empty()),
            (t(nominal), a),
            (t(3 * nominal), b),
            (t(4 * nominal), Input::empty()),
        ]
    );
    assert_eq!(events[1].0, 1014);
    assert_eq!(events[2].0, 1152);
    assert_eq!(events[3].0, 1220);
}

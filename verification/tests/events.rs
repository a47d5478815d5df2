use evremap::event::{
    make_event, moment, spans, InputEvent, KeyEventType, Span, EV_KEY, TIME_LIMIT,
};

#[test]
fn value_fields_and_their_meaning() {
    assert_eq!(KeyEventType::from_value(0), KeyEventType::Release);
    assert_eq!(KeyEventType::from_value(1), KeyEventType::Press);
    assert_eq!(KeyEventType::from_value(2), KeyEventType::Repeat);
    assert_eq!(KeyEventType::from_value(3), KeyEventType::Unknown(3));
    assert_eq!(KeyEventType::from_value(-1), KeyEventType::Unknown(-1));
    for value in [i32::MIN, -1, 0, 1, 2, 3, i32::MAX] {
        assert_eq!(KeyEventType::from_value(value).value(), value);
    }
    assert_eq!(
        KeyEventType::from_value(KeyEventType::Unknown(7).value()),
        KeyEventType::Unknown(7)
    );
    // An unknown thing that goes by a known value is taken for the known one.
    assert_eq!(
        KeyEventType::from_value(KeyEventType::Unknown(0).value()),
        KeyEventType::Release
    );
}

#[test]
fn key_of_an_event() {
    let key = InputEvent { event_type: EV_KEY, code: 30, value: 1, time: 0 };
    assert_eq!(key.key(), Some(30));
    let relative = InputEvent { event_type: 2, ..key };
    assert_eq!(relative.key(), None);
    let sync = InputEvent { event_type: 0, code: 0, value: 0, time: 0 };
    assert_eq!(sync.key(), None);
    let unheard_of = InputEvent { event_type: 0xffff, ..key };
    assert_eq!(unheard_of.key(), None);
}

#[test]
fn made_events_have_their_fields() {
    assert_eq!(
        make_event(464, 1_234_567_000, KeyEventType::Repeat),
        InputEvent { event_type: 1, code: 464, value: 2, time: 1_234_567_000 }
    );
    assert_eq!(
        make_event(29, 0, KeyEventType::Unknown(-5)),
        InputEvent { event_type: 1, code: 29, value: -5, time: 0 }
    );
}

#[test]
fn stamps_keep_microseconds() {
    assert_eq!(make_event(1, 1_999, KeyEventType::Press).time, 1_000);
    assert_eq!(make_event(1, 1_234_567_890_123, KeyEventType::Press).time, 1_234_567_890_000);
    assert_eq!(make_event(1, -3_500_000_999, KeyEventType::Press).time, -3_500_000_000);
    assert_eq!(make_event(1, -1_000_000_000, KeyEventType::Press).time, -1_000_000_000);
}

#[test]
fn stamps_just_ahead_of_the_epoch_lose_their_sign() {
    assert_eq!(make_event(1, -500_000_000, KeyEventType::Press).time, 500_000_000);
    assert_eq!(make_event(1, -999_999_999, KeyEventType::Press).time, 999_999_000);
}

#[test]
fn stamps_reach_to_their_limits() {
    assert_eq!(
        make_event(1, TIME_LIMIT - 1, KeyEventType::Press).time,
        9_223_372_036_854_775_807_999_999_000
    );
    assert_eq!(
        make_event(1, 1 - TIME_LIMIT, KeyEventType::Press).time,
        -9_223_372_036_854_775_807_999_999_000
    );
}

#[test]
fn stamping_again_changes_nothing() {
    for time in [0, 1, 1_999, -1, -999_999_999, -1_000_000_001, 1_700_000_000_123_456_789] {
        let once = make_event(1, time, KeyEventType::Press).time;
        assert_eq!(make_event(1, once, KeyEventType::Press).time, once);
    }
}

#[test]
fn moments_on_both_sides_of_the_epoch() {
    let none = Span { secs: 0, nanos: 0 };
    assert_eq!(moment(Span { secs: 2, nanos: 5 }, none), 2_000_000_005);
    assert_eq!(moment(none, Span { secs: 2, nanos: 5 }), -2_000_000_005);
    assert_eq!(
        moment(Span { secs: u64::MAX, nanos: u32::MAX }, none),
        18_446_744_073_709_551_615_000_000_000 + 4_294_967_295
    );
}

#[test]
fn moments_split_into_spans() {
    let none = Span { secs: 0, nanos: 0 };
    assert_eq!(spans(2_000_000_005), (Span { secs: 2, nanos: 5 }, none));
    assert_eq!(spans(-2_000_000_005), (none, Span { secs: 2, nanos: 5 }));
    assert_eq!(spans(0), (none, none));
    for time in [1 - TIME_LIMIT, -1, 0, 1, 999_999_999, TIME_LIMIT - 1] {
        let (after, before) = spans(time);
        assert_eq!(moment(after, before), time);
    }
}

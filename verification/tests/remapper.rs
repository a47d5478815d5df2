use evremap::event::{InputEvent, EV_KEY, TIME_LIMIT};
use evremap::mapping::Mapping;
use evremap::model::Action;
use evremap::remapper::{output_device_name, InputMapper};
use std::collections::HashSet;

const ESC: u16 = 1;
const KEY_1: u16 = 2;
const KEY_2: u16 = 3;
const Q: u16 = 16;
const W: u16 = 17;
const LEFTCTRL: u16 = 29;
const A: u16 = 30;
const C: u16 = 46;
const B: u16 = 48;
const LEFTSHIFT: u16 = 42;
const X: u16 = 45;
const LEFTALT: u16 = 56;
const CAPSLOCK: u16 = 58;
const F1: u16 = 59;

const MILLI: i128 = 1_000_000;

fn event(code: u16, value: i32, time: i128) -> InputEvent {
    InputEvent { event_type: EV_KEY, code, value, time }
}

fn mapper(mappings: Vec<Mapping>) -> InputMapper {
    InputMapper::create_mapper(vec![], mappings).0
}

fn remap(input: &[u16], output: &[u16]) -> Mapping {
    Mapping::Remap {
        input: input.iter().cloned().collect(),
        output: output.iter().cloned().collect(),
    }
}

fn modifiers(keys: &[u16]) -> Mapping {
    Mapping::ModifierKey { keys: keys.iter().cloned().collect() }
}

fn caps_lock() -> Mapping {
    Mapping::DualRole { input: CAPSLOCK, hold: vec![LEFTCTRL], tap: vec![ESC] }
}

/// Feeds an event in, carries everything out, and gives back the written codes and values.
fn feed(mapper: &mut InputMapper, code: u16, value: i32, time: i128) -> Vec<(u16, i32)> {
    let actions = mapper.update_with_event(&event(code, value, time), code);
    let mut written = vec![];
    for action in &actions {
        if let Action::Write(event) = action {
            assert_eq!(event.event_type, EV_KEY);
            assert_eq!(event.time, time);
            written.push((event.code, event.value));
        }
        mapper.perform(action);
    }
    written
}

fn set(keys: &[u16]) -> HashSet<u16> {
    keys.iter().cloned().collect()
}

#[test]
fn keys_pass_without_mappings() {
    let mut m = mapper(vec![]);
    assert_eq!(feed(&mut m, A, 1, 1000), vec![(A, 1)]);
    assert_eq!(feed(&mut m, A, 2, 2000), vec![(A, 2)]);
    assert_eq!(feed(&mut m, B, 1, 3000), vec![(B, 1)]);
    assert_eq!(m.compute_keys(), set(&[A, B]));
    assert_eq!(feed(&mut m, A, 0, 4000), vec![(A, 0)]);
    assert_eq!(feed(&mut m, B, 0, 5000), vec![(B, 0)]);
    assert_eq!(m.compute_keys(), set(&[]));
}

#[test]
fn release_of_a_key_that_is_not_held_passes() {
    let mut m = mapper(vec![caps_lock()]);
    assert_eq!(
        m.update_with_event(&event(A, 0, 1234), A),
        vec![Action::Write(event(A, 0, 1234))]
    );
    assert_eq!(
        m.update_with_event(&event(CAPSLOCK, 0, 1234), CAPSLOCK),
        vec![Action::Write(event(CAPSLOCK, 0, 1234))]
    );
}

#[test]
fn unknown_values_pass() {
    let mut m = mapper(vec![caps_lock(), remap(&[A], &[B])]);
    for value in [-1, 3, 77] {
        assert_eq!(
            m.update_with_event(&event(CAPSLOCK, value, 1), CAPSLOCK),
            vec![Action::Write(event(CAPSLOCK, value, 1))]
        );
        assert_eq!(feed(&mut m, A, value, 1000), vec![(A, value)]);
    }
    assert_eq!(m.compute_keys(), set(&[]));
}

#[test]
fn other_events_pass() {
    let mut m = mapper(vec![caps_lock()]);
    let motion = InputEvent { event_type: 2, code: CAPSLOCK, value: 1, time: 999 };
    assert_eq!(m.run_mapper(&motion), vec![Action::Write(motion)]);
    assert_eq!(m.compute_keys(), set(&[]));
    let press = event(CAPSLOCK, 1, 1000);
    assert_eq!(
        m.run_mapper(&press),
        vec![Action::Write(event(LEFTCTRL, 1, 1000)), Action::ArmTap(CAPSLOCK)]
    );
}

#[test]
fn dual_role_key_is_held() {
    let mut m = mapper(vec![caps_lock()]);
    assert_eq!(feed(&mut m, CAPSLOCK, 1, 0), vec![(LEFTCTRL, 1)]);
    assert_eq!(feed(&mut m, CAPSLOCK, 2, 300 * MILLI), vec![(LEFTCTRL, 2)]);
    assert_eq!(feed(&mut m, CAPSLOCK, 0, 400 * MILLI), vec![(LEFTCTRL, 0)]);
}

#[test]
fn dual_role_key_is_tapped() {
    let mut m = mapper(vec![caps_lock()]);
    assert_eq!(
        m.update_with_event(&event(CAPSLOCK, 1, 0), CAPSLOCK),
        vec![Action::Write(event(LEFTCTRL, 1, 0)), Action::ArmTap(CAPSLOCK)]
    );
    m.perform(&Action::Write(event(LEFTCTRL, 1, 0)));
    m.perform(&Action::ArmTap(CAPSLOCK));
    let time = 199_999_000;
    assert_eq!(
        m.update_with_event(&event(CAPSLOCK, 0, time), CAPSLOCK),
        vec![
            Action::Write(event(LEFTCTRL, 0, time)),
            Action::CancelTap,
            Action::Write(event(ESC, 1, time)),
            Action::Write(event(ESC, 0, time)),
        ]
    );
}

#[test]
fn taps_take_less_than_a_fifth_of_a_second() {
    let start = 1_700_000_000_000_000_000;
    for (elapsed, tapped) in [(0, true), (199_999_000, true), (200_000_000, false), (-1000, false)] {
        let mut m = mapper(vec![caps_lock()]);
        feed(&mut m, CAPSLOCK, 1, start);
        let expected = if tapped {
            vec![(LEFTCTRL, 0), (ESC, 1), (ESC, 0)]
        } else {
            vec![(LEFTCTRL, 0)]
        };
        assert_eq!(feed(&mut m, CAPSLOCK, 0, start + elapsed), expected);
    }
}

#[test]
fn another_key_prevents_a_tap() {
    let mut m = mapper(vec![caps_lock()]);
    feed(&mut m, CAPSLOCK, 1, 0);
    assert_eq!(feed(&mut m, A, 1, 10 * MILLI), vec![(A, 1)]);
    assert_eq!(feed(&mut m, CAPSLOCK, 0, 20 * MILLI), vec![(LEFTCTRL, 0)]);

    // So does one that has a mapping of its own.
    let mut m = mapper(vec![caps_lock(), remap(&[A], &[B])]);
    feed(&mut m, CAPSLOCK, 1, 0);
    assert_eq!(feed(&mut m, A, 1, 10 * MILLI), vec![(B, 1)]);
    assert_eq!(
        m.update_with_event(&event(CAPSLOCK, 0, 20 * MILLI), CAPSLOCK),
        vec![Action::Write(event(LEFTCTRL, 0, 20 * MILLI)), Action::CancelTap]
    );
}

#[test]
fn modifiers_are_pressed_first_and_released_last() {
    let mut m = mapper(vec![remap(&[F1], &[C, LEFTCTRL, LEFTALT]), modifiers(&[LEFTCTRL, LEFTALT])]);
    let pressed = feed(&mut m, F1, 1, 1000);
    assert_eq!(pressed.len(), 3);
    assert_eq!(pressed[2], (C, 1));
    assert!(pressed.contains(&(LEFTCTRL, 1)) && pressed.contains(&(LEFTALT, 1)));
    let released = feed(&mut m, F1, 0, 2000);
    assert_eq!(released.len(), 3);
    assert_eq!(released[0], (C, 0));
    assert!(released.contains(&(LEFTCTRL, 0)) && released.contains(&(LEFTALT, 0)));
}

fn alt_chords() -> InputMapper {
    mapper(vec![
        remap(&[LEFTALT, Q], &[KEY_1]),
        remap(&[LEFTALT, W], &[KEY_2]),
        modifiers(&[LEFTALT]),
    ])
}

#[test]
fn chords_share_a_modifier() {
    let mut m = alt_chords();
    assert_eq!(feed(&mut m, LEFTALT, 1, 1000), vec![(LEFTALT, 1)]);
    assert_eq!(feed(&mut m, Q, 1, 2000), vec![(LEFTALT, 0), (KEY_1, 1)]);
    assert_eq!(feed(&mut m, Q, 0, 3000), vec![(KEY_1, 0), (LEFTALT, 1)]);
    assert_eq!(feed(&mut m, W, 1, 4000), vec![(LEFTALT, 0), (KEY_2, 1)]);
    assert_eq!(feed(&mut m, W, 0, 5000), vec![(KEY_2, 0), (LEFTALT, 1)]);
    assert_eq!(feed(&mut m, LEFTALT, 0, 6000), vec![(LEFTALT, 0)]);
    assert_eq!(m.compute_keys(), set(&[]));
}

#[test]
fn chords_with_a_shared_modifier_overlap() {
    let mut m = alt_chords();
    feed(&mut m, LEFTALT, 1, 1000);
    feed(&mut m, Q, 1, 2000);
    assert_eq!(feed(&mut m, W, 1, 3000), vec![(KEY_2, 1)]);
    assert_eq!(m.compute_keys(), set(&[KEY_1, KEY_2]));
}

#[test]
fn broken_chord_does_not_leak() {
    let mut m = alt_chords();
    feed(&mut m, LEFTALT, 1, 1000);
    feed(&mut m, Q, 1, 2000);
    assert_eq!(feed(&mut m, LEFTALT, 0, 3000), vec![(KEY_1, 0)]);
    assert_eq!(m.compute_keys(), set(&[]));
    // Other keys do not bring it back, and its release says nothing.
    assert_eq!(feed(&mut m, A, 1, 4000), vec![(A, 1)]);
    assert_eq!(feed(&mut m, Q, 0, 5000), vec![]);
    // Pressed afresh, it is a plain key.
    assert_eq!(feed(&mut m, Q, 1, 6000), vec![(Q, 1)]);
}

#[test]
fn held_chord_does_not_repeat() {
    let mut m = alt_chords();
    feed(&mut m, LEFTALT, 1, 1000);
    feed(&mut m, Q, 1, 2000);
    assert_eq!(m.update_with_event(&event(Q, 2, 3000), Q), vec![]);
    // A repeat of a key of the chord that is not known to be down passes.
    assert_eq!(
        m.update_with_event(&event(W, 2, 4000), W),
        vec![Action::Write(event(W, 2, 4000))]
    );
}

#[test]
fn broken_chord_does_not_repeat() {
    let mut m = alt_chords();
    feed(&mut m, LEFTALT, 1, 1000);
    feed(&mut m, Q, 1, 2000);
    feed(&mut m, LEFTALT, 0, 3000);
    assert_eq!(m.update_with_event(&event(Q, 2, 4000), Q), vec![]);
    assert_eq!(feed(&mut m, Q, 0, 5000), vec![]);
}

fn control_x() -> InputMapper {
    mapper(vec![caps_lock(), remap(&[LEFTCTRL, C], &[X]), modifiers(&[LEFTCTRL])])
}

const START: i128 = 1_000_000_000;

#[test]
fn broken_chord_with_a_dual_role_key_does_not_leak() {
    let mut m = control_x();
    assert_eq!(feed(&mut m, CAPSLOCK, 1, START), vec![(LEFTCTRL, 1)]);
    assert_eq!(feed(&mut m, C, 1, START + 50 * MILLI), vec![(LEFTCTRL, 0), (X, 1)]);
    assert_eq!(feed(&mut m, CAPSLOCK, 0, START + 500 * MILLI), vec![(X, 0)]);
    assert_eq!(m.compute_keys(), set(&[]));
    // Nothing is down: other keys take nothing back, and the release of the key says nothing.
    assert_eq!(feed(&mut m, A, 1, START + 600 * MILLI), vec![(A, 1)]);
    assert_eq!(feed(&mut m, C, 0, START + 700 * MILLI), vec![]);
    // Pressed afresh, it is a plain key.
    assert_eq!(feed(&mut m, C, 1, START + 800 * MILLI), vec![(C, 1)]);
}

#[test]
fn chord_with_a_dual_role_key_does_not_repeat() {
    let mut m = control_x();
    feed(&mut m, CAPSLOCK, 1, START);
    feed(&mut m, C, 1, START + 50 * MILLI);
    assert_eq!(m.update_with_event(&event(C, 2, START + 300 * MILLI), C), vec![]);
    feed(&mut m, CAPSLOCK, 0, START + 500 * MILLI);
    assert_eq!(m.update_with_event(&event(C, 2, START + 600 * MILLI), C), vec![]);
    assert_eq!(feed(&mut m, C, 0, START + 700 * MILLI), vec![]);
}

#[test]
fn dual_role_key_that_completes_a_chord_consumes_the_others() {
    let mut m = control_x();
    assert_eq!(feed(&mut m, C, 1, START), vec![(C, 1)]);
    assert_eq!(feed(&mut m, CAPSLOCK, 1, START + 50 * MILLI), vec![(C, 0), (X, 1)]);
    assert_eq!(m.update_with_event(&event(C, 2, START + 300 * MILLI), C), vec![]);
    assert_eq!(feed(&mut m, CAPSLOCK, 0, START + 500 * MILLI), vec![(X, 0)]);
    assert_eq!(m.compute_keys(), set(&[]));
    assert_eq!(feed(&mut m, C, 0, START + 600 * MILLI), vec![]);
}

#[test]
fn release_that_completes_a_chord_consumes_its_keys() {
    let mut m = mapper(vec![
        caps_lock(),
        remap(&[LEFTCTRL, C], &[X]),
        modifiers(&[LEFTCTRL, LEFTSHIFT]),
    ]);
    assert_eq!(feed(&mut m, C, 1, START), vec![(C, 1)]);
    assert_eq!(feed(&mut m, LEFTSHIFT, 1, START + MILLI), vec![(C, 0), (LEFTSHIFT, 1)]);
    assert_eq!(feed(&mut m, CAPSLOCK, 1, START + 2 * MILLI), vec![(LEFTCTRL, 1)]);
    let written = feed(&mut m, LEFTSHIFT, 0, START + 300 * MILLI);
    assert_eq!(written.len(), 3);
    assert!(written.contains(&(LEFTSHIFT, 0)) && written.contains(&(LEFTCTRL, 0)));
    assert_eq!(written[2], (X, 1));
    assert_eq!(feed(&mut m, CAPSLOCK, 0, START + 500 * MILLI), vec![(X, 0)]);
}

#[test]
fn chord_that_fires_ahead_of_a_larger_one_consumes_its_keys() {
    let mut m = mapper(vec![remap(&[A, Q], &[KEY_1]), remap(&[A, B, W], &[KEY_2])]);
    feed(&mut m, B, 1, 1000);
    feed(&mut m, W, 1, 2000);
    feed(&mut m, Q, 1, 3000);
    feed(&mut m, A, 1, 4000);
    assert_eq!(m.compute_keys(), set(&[KEY_1]));
    assert_eq!(feed(&mut m, A, 0, 5000), vec![(KEY_1, 0)]);
    assert_eq!(m.compute_keys(), set(&[]));
}

#[test]
fn desired_keys_do_not_depend_on_what_was_done() {
    let mut done = control_x();
    let mut undone = control_x();
    for (code, time) in [(CAPSLOCK, START), (C, START + 50 * MILLI)] {
        feed(&mut done, code, 1, time);
        undone.update_with_event(&event(code, 1, time), code);
        assert_eq!(done.compute_keys(), undone.compute_keys());
    }
    assert_eq!(undone.compute_keys(), set(&[X]));
}

#[test]
fn chord_with_a_dual_role_key_fires_again() {
    let mut m = control_x();
    feed(&mut m, CAPSLOCK, 1, START);
    feed(&mut m, C, 1, START + 50 * MILLI);
    feed(&mut m, CAPSLOCK, 0, START + 500 * MILLI);
    assert_eq!(feed(&mut m, CAPSLOCK, 1, START + 600 * MILLI), vec![(X, 1)]);
    assert_eq!(feed(&mut m, CAPSLOCK, 0, START + 900 * MILLI), vec![(X, 0)]);
}

#[test]
fn larger_chord_leaves_one_with_a_dual_role_key_alone() {
    let mut m = mapper(vec![
        caps_lock(),
        remap(&[LEFTCTRL, LEFTSHIFT, C], &[KEY_2]),
        remap(&[LEFTCTRL, C], &[X]),
        modifiers(&[LEFTCTRL, LEFTSHIFT]),
    ]);
    feed(&mut m, CAPSLOCK, 1, START);
    assert_eq!(feed(&mut m, C, 1, START + 50 * MILLI), vec![(LEFTCTRL, 0), (X, 1)]);
    assert_eq!(feed(&mut m, CAPSLOCK, 0, START + 500 * MILLI), vec![(X, 0)]);
}

#[test]
fn events_pass_at_moments_that_cannot_be_stamped() {
    let mut m = mapper(vec![caps_lock()]);
    let release = event(A, 0, -TIME_LIMIT);
    assert!(!m.calls_for_stamp(&release, A));
    assert_eq!(m.update_with_event(&release, A), vec![Action::Write(release)]);
    let motion = InputEvent { event_type: 2, code: 0, value: -3, time: -TIME_LIMIT };
    assert_eq!(m.run_mapper(&motion), vec![Action::Write(motion)]);
    assert!(m.calls_for_stamp(&event(A, 1, 0), A));
    assert!(m.calls_for_stamp(&event(CAPSLOCK, 2, 0), CAPSLOCK));
    assert!(!m.calls_for_stamp(&event(A, 2, 0), A));
    feed(&mut m, A, 1, 1000);
    assert!(m.calls_for_stamp(&event(A, 0, 2000), A));
    assert!(!m.calls_for_stamp(&event(A, 7, 2000), A));
}

#[test]
fn run_writes_turn_by_turn() {
    let mut m = alt_chords();
    let sync = |time| InputEvent { event_type: 0, code: 0, value: 0, time };
    let motion = InputEvent { event_type: 2, code: 1, value: 5, time: 2500 };
    let mut written = vec![];
    for read in [
        event(LEFTALT, 1, 1000),
        sync(1000),
        event(Q, 1, 2000),
        sync(2000),
        motion,
        event(Q, 0, 3000),
        sync(3000),
    ] {
        for action in m.run_mapper(&read) {
            m.perform(&action);
            if let Action::Write(event) = action {
                written.push(event);
            }
        }
    }
    assert_eq!(
        written,
        vec![
            event(LEFTALT, 1, 1000),
            sync(1000),
            event(LEFTALT, 0, 2000),
            event(KEY_1, 1, 2000),
            sync(2000),
            motion,
            event(KEY_1, 0, 3000),
            event(LEFTALT, 1, 3000),
            sync(3000),
        ]
    );
}

#[test]
fn keys_before_the_modifier_do_not_count() {
    let mut m = alt_chords();
    assert_eq!(feed(&mut m, Q, 1, 1000), vec![(Q, 1)]);
    assert_eq!(feed(&mut m, LEFTALT, 1, 2000), vec![(Q, 0), (LEFTALT, 1)]);
    assert_eq!(m.compute_keys(), set(&[LEFTALT]));
    assert_eq!(feed(&mut m, LEFTALT, 0, 3000), vec![(LEFTALT, 0)]);

    let mut m = mapper(vec![modifiers(&[LEFTALT, LEFTCTRL])]);
    feed(&mut m, LEFTALT, 1, 1000);
    feed(&mut m, A, 1, 1000);
    assert_eq!(m.compute_keys(), set(&[LEFTALT]));
    feed(&mut m, B, 1, 2000);
    feed(&mut m, LEFTCTRL, 1, 3000);
    assert_eq!(m.compute_keys(), set(&[LEFTALT, LEFTCTRL, B]));
}

#[test]
fn outputs_are_no_input_for_later_mappings() {
    let mut m = mapper(vec![remap(&[A], &[B]), remap(&[B], &[C])]);
    assert_eq!(feed(&mut m, A, 1, 1000), vec![(B, 1)]);
    // A modifier is.
    let mut m = mapper(vec![remap(&[A], &[B]), remap(&[B], &[C]), modifiers(&[B])]);
    feed(&mut m, B, 1, 1000);
    assert_eq!(m.compute_keys(), set(&[C]));
    feed(&mut m, A, 1, 2000);
    assert_eq!(m.compute_keys(), set(&[C]));
}

#[test]
fn dual_roles_come_before_remaps() {
    let mut m = mapper(vec![remap(&[LEFTCTRL, C], &[KEY_1]), caps_lock()]);
    feed(&mut m, CAPSLOCK, 1, 1000);
    assert_eq!(feed(&mut m, C, 1, 2000), vec![(LEFTCTRL, 0), (KEY_1, 1)]);
}

#[test]
fn dual_role_has_precedence_over_chords() {
    let mut m = mapper(vec![
        remap(&[CAPSLOCK], &[A]),
        caps_lock(),
        Mapping::DualRole { input: CAPSLOCK, hold: vec![B], tap: vec![C] },
    ]);
    assert_eq!(m.lookup_mapping(CAPSLOCK), Some(caps_lock()));
    assert_eq!(m.lookup_dual_role_mapping(CAPSLOCK), Some(caps_lock()));
    assert_eq!(m.lookup_dual_role_mapping(A), None);
    // The hold of the first mapping has taken the key's place.
    feed(&mut m, CAPSLOCK, 1, 1000);
    assert_eq!(m.compute_keys(), set(&[LEFTCTRL]));
}

#[test]
fn largest_chord_is_looked_up() {
    let small = remap(&[A], &[KEY_1]);
    let large = remap(&[A, B], &[KEY_2]);
    let later = remap(&[A, B], &[C]);
    let unheld = remap(&[A, B, C], &[F1]);
    let mut m = mapper(vec![small.clone(), large.clone(), later, unheld, modifiers(&[A])]);
    assert_eq!(m.lookup_mapping(A), Some(small));
    assert_eq!(m.lookup_mapping(B), None);
    assert_eq!(m.lookup_mapping(F1), None);
    feed(&mut m, B, 1, 1000);
    assert_eq!(m.lookup_mapping(A), Some(large));
}

#[test]
fn undone_actions_leave_no_trace() {
    // The output device takes the release and refuses the press.
    let mut m = alt_chords();
    feed(&mut m, LEFTALT, 1, 1000);
    let actions = m.update_with_event(&event(Q, 1, 2000), Q);
    assert_eq!(
        actions,
        vec![
            Action::Write(event(LEFTALT, 0, 2000)),
            Action::Write(event(KEY_1, 1, 2000)),
            Action::ArmTap(Q),
        ]
    );
    m.perform(&actions[0]);
    // What is still missing is written with the next event, in no particular order.
    let mut written = feed(&mut m, A, 1, 3000);
    written.sort();
    assert_eq!(written, vec![(KEY_1, 1), (A, 1)]);
}

#[test]
fn last_release_leaves_no_key_down() {
    let mut m = mapper(vec![
        caps_lock(),
        remap(&[LEFTCTRL, C], &[KEY_1]),
        modifiers(&[LEFTCTRL]),
    ]);
    let mut down: HashSet<u16> = HashSet::new();
    for (code, value, time) in [
        (CAPSLOCK, 1, 1),
        (C, 1, 2),
        (A, 1, 3),
        (CAPSLOCK, 0, 4),
        (A, 2, 5),
        (C, 0, 6),
        (A, 0, 7),
    ] {
        for (written, value) in feed(&mut m, code, value, time * 1000) {
            if value == 0 {
                down.remove(&written);
            } else {
                down.insert(written);
            }
        }
    }
    assert_eq!(down, set(&[]));
    assert_eq!(m.compute_keys(), set(&[]));
}

#[test]
fn output_device_has_every_key() {
    let (_, keys) = InputMapper::create_mapper(
        vec![A, B, A],
        vec![
            caps_lock(),
            remap(&[LEFTALT, Q], &[KEY_1, KEY_2]),
            modifiers(&[F1]),
        ],
    );
    assert_eq!(keys, set(&[A, B, LEFTCTRL, ESC, KEY_1, KEY_2, F1]));
}

#[test]
fn output_device_is_named_after_the_input_device() {
    assert_eq!(
        output_device_name("/dev/input/event3"),
        "evremap Virtual input for /dev/input/event3"
    );
}

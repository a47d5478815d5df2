//! What holds of one turn of a mapper: what it takes in of an event, and what it does about it.
use crate::event;
use crate::event::{InputEvent, KeyCode, KeyEventType};
use crate::laws;
use crate::mapping::MappingView;
use crate::model;
use crate::model::{Action, MapperState, Membership};
use crate::remap_laws;
use vstd::prelude::*;

verus! {

// What is taken in.

/// The state in which the mapping for a key that goes down is looked up: the key is held.
pub open spec fn holding(s: MapperState, code: KeyCode, time: i128) -> MapperState {
    MapperState { held: s.held.insert(code, time), ..s }
}

/// The chord that applies to the key `code` going down has `k`, which is no modifier.
pub open spec fn joins(s: MapperState, code: KeyCode, time: i128, k: KeyCode) -> bool {
    !s.modifier_keys.contains(k) && (holding(s, code, time).mapping_for(code) matches Some(mapping)
        && remap_laws::in_input(mapping, k))
}

/// A key that goes down is held since the moment of the event, and nothing else becomes held or
/// comes up. If no mapping applies to it, no key is being tapped any more. The members of chords
/// stay; those of the chord that applies to the key join them, and those that chords consume.
pub proof fn press_is_taken_in(s: MapperState, event: InputEvent, code: KeyCode, k: KeyCode)
    requires
        event.value == 1,
    ensures
        ({
            let after = s.taken_in(event, code);
            &&& after.held == s.held.insert(code, event.time)
            &&& after.mappings == s.mappings
            &&& after.modifier_keys == s.modifier_keys
            &&& after.output_keys == s.output_keys
            &&& after.tapping == (if holding(s, code, event.time).mapping_for(code) is None {
                None
            } else {
                s.tapping
            })
            &&& after.chord_keys.contains_key(k) <==> s.chord_keys.contains_key(k) || joins(
                s,
                code,
                event.time,
                k,
            ) || after.consumed_keys().contains(k)
            &&& after.chord_keys.contains_key(k) ==> after.chord_keys[k] == (if joins(
                s,
                code,
                event.time,
                k,
            ) {
                Membership::Mapped
            } else if s.chord_keys.contains_key(k) {
                s.chord_keys[k]
            } else {
                Membership::Consumed
            })
        }),
{
    let down = s.with_key_down(code, event.time);
    assert(holding(s, code, event.time) == MapperState {
        held: s.held.insert(code, event.time),
        ..s
    });
    laws::membership_keeps_chords_firing(down);
    assert(s.taken_in(event, code) == down.settled());
}

/// A held key that comes up is held no more, and is no member of a chord any more unless it is a
/// modifier; nothing else comes up. Keys that chords then consume become members.
pub proof fn release_is_taken_in(s: MapperState, event: InputEvent, code: KeyCode, k: KeyCode)
    requires
        event.value == 0,
        s.held.contains_key(code),
    ensures
        ({
            let after = s.taken_in(event, code);
            let stays = s.chord_keys.contains_key(k) && (k != code || s.modifier_keys.contains(
                code,
            ));
            &&& after.held == s.held.remove(code)
            &&& after.mappings == s.mappings
            &&& after.modifier_keys == s.modifier_keys
            &&& after.output_keys == s.output_keys
            &&& after.tapping == s.tapping
            &&& after.chord_keys.contains_key(k) <==> stays || after.consumed_keys().contains(k)
            &&& after.chord_keys.contains_key(k) ==> after.chord_keys[k] == (if stays {
                s.chord_keys[k]
            } else {
                Membership::Consumed
            })
        }),
{
    let up = s.with_key_up(code);
    laws::membership_keeps_chords_firing(up);
    assert(s.taken_in(event, code) == up.settled());
}

/// Nothing is taken in of the release of a key that is not held, nor of a value that says neither
/// press, release nor repeat.
pub proof fn strange_event_changes_nothing(s: MapperState, event: InputEvent, code: KeyCode)
    requires
        event.value == 0 && !s.held.contains_key(code) || event.value < 0 || event.value > 2,
    ensures
        s.taken_in(event, code) == s,
{
}

/// A repeat changes nothing but that no key is being tapped any more, where no mapping applies to
/// the key and it is no member of a chord.
pub proof fn repeat_is_taken_in(s: MapperState, event: InputEvent, code: KeyCode)
    requires
        event.value == 2,
    ensures
        s.taken_in(event, code) == (MapperState {
            tapping: if s.mapping_for(code) is None && !s.chord_keys.contains_key(code) {
                None
            } else {
                s.tapping
            },
            ..s
        }),
{
}

// What is written.

/// The action writes a key event about `k` with this value, stamped with this moment.
pub open spec fn writes(action: Action, k: KeyCode, value: i32, time: int) -> bool {
    action matches Action::Write(event) && {
        &&& event.event_type == 1
        &&& event.code == k
        &&& event.value == value
        &&& event.time == event::stamped(time)
    }
}

/// The key that the action writes about.
pub open spec fn key_of(action: Action) -> KeyCode {
    action->Write_0.code
}

/// The value that the action writes.
pub open spec fn value_of(action: Action) -> i32 {
    action->Write_0.value
}

/// The moment is one that an event can have.
pub open spec fn is_moment(time: int) -> bool {
    i128::MIN <= time <= i128::MAX
}

/// The writes about a list of keys say of each key in turn what happened to it.
pub proof fn key_writes_go_key_by_key(
    list: Seq<KeyCode>,
    time: int,
    event_type: KeyEventType,
    value: i32,
)
    requires
        is_moment(time),
        event_type is Release && value == 0 || event_type is Press && value == 1
            || event_type is Repeat && value == 2,
    ensures
        model::key_writes(list, time, event_type).len() == list.len(),
        forall|i: int|
            0 <= i < list.len() ==> writes(
                #[trigger] model::key_writes(list, time, event_type)[i],
                list[i],
                value,
                time,
            ),
{
    let magnitude = if time < 0 { -time } else { time };
    assert(0 <= magnitude - magnitude % 1000 <= magnitude);
    assert(time == i128::MIN ==> magnitude % 1000 != 0);
}

/// To bring the output device to the desired keys, each key that is down and not desired is released
/// once and each that is desired and not down is pressed once, and nothing else is written. Releases
/// come before presses; among releases modifiers come last, and among presses first.
pub proof fn sync_writes_exactly(s: MapperState, time: int, actions: Seq<Action>)
    requires
        is_moment(time),
        s.syncs(time, actions),
    ensures
        forall|i: int|
            0 <= i < actions.len() ==> {
                let k = key_of(#[trigger] actions[i]);
                ||| writes(actions[i], k, 0, time) && s.output_keys.contains(k)
                    && !s.desired_keys().contains(k)
                ||| writes(actions[i], k, 1, time) && s.desired_keys().contains(k)
                    && !s.output_keys.contains(k)
            },
        forall|k: KeyCode|
            s.output_keys.contains(k) && !s.desired_keys().contains(k) ==> exists|i: int|
                0 <= i < actions.len() && #[trigger] writes(actions[i], k, 0, time),
        forall|k: KeyCode|
            s.desired_keys().contains(k) && !s.output_keys.contains(k) ==> exists|i: int|
                0 <= i < actions.len() && #[trigger] writes(actions[i], k, 1, time),
        forall|i: int, j: int|
            0 <= i < j < actions.len() ==> {
                let a = #[trigger] actions[i];
                let b = #[trigger] actions[j];
                &&& key_of(a) != key_of(b)
                &&& value_of(a) == 1 ==> value_of(b) == 1
                &&& value_of(a) == 0 && value_of(b) == 0 && s.modifier_keys.contains(key_of(a))
                    ==> s.modifier_keys.contains(key_of(b))
                &&& value_of(a) == 1 && value_of(b) == 1 && s.modifier_keys.contains(key_of(b))
                    ==> s.modifier_keys.contains(key_of(a))
            },
{
    let (released, pressed) = choose|released: Seq<KeyCode>, pressed: Seq<KeyCode>| #[trigger]
        s.syncs_by(time, actions, released, pressed);
    let releases = model::key_writes(released, time, KeyEventType::Release);
    let presses = model::key_writes(pressed, time, KeyEventType::Press);
    let n = released.len() as int;
    key_writes_go_key_by_key(released, time, KeyEventType::Release, 0);
    key_writes_go_key_by_key(pressed, time, KeyEventType::Press, 1);
    assert forall|i: int| 0 <= i < n implies writes(#[trigger] actions[i], released[i], 0, time)
        && released.contains(released[i]) by {
        assert(actions[i] == releases[i]);
    }
    assert forall|i: int| n <= i < actions.len() implies writes(
        #[trigger] actions[i],
        pressed[i - n],
        1,
        time,
    ) && pressed.contains(pressed[i - n]) by {
        assert(actions[i] == presses[i - n]);
    }
    assert forall|k: KeyCode|
        s.output_keys.contains(k) && !s.desired_keys().contains(k) implies exists|i: int|
        0 <= i < actions.len() && #[trigger] writes(actions[i], k, 0, time) by {
        assert(s.output_keys.difference(s.desired_keys()).contains(k));
        assert(released.contains(k));
        let i = choose|i: int| 0 <= i < released.len() && released[i] == k;
        assert(writes(actions[i], k, 0, time));
    }
    assert forall|k: KeyCode|
        s.desired_keys().contains(k) && !s.output_keys.contains(k) implies exists|i: int|
        0 <= i < actions.len() && #[trigger] writes(actions[i], k, 1, time) by {
        assert(s.desired_keys().difference(s.output_keys).contains(k));
        assert(pressed.contains(k));
        let i = choose|i: int| 0 <= i < pressed.len() && pressed[i] == k;
        assert(writes(actions[n + i], k, 1, time));
    }
    assert forall|i: int, j: int| 0 <= i < j < actions.len() implies {
        let a = #[trigger] actions[i];
        let b = #[trigger] actions[j];
        &&& key_of(a) != key_of(b)
        &&& value_of(a) == 1 ==> value_of(b) == 1
        &&& value_of(a) == 0 && value_of(b) == 0 && s.modifier_keys.contains(key_of(a))
            ==> s.modifier_keys.contains(key_of(b))
        &&& value_of(a) == 1 && value_of(b) == 1 && s.modifier_keys.contains(key_of(b))
            ==> s.modifier_keys.contains(key_of(a))
    } by {
        if j < n {
            assert(released[i] != released[j]);
        } else if n <= i {
            assert(pressed[i - n] != pressed[j - n]);
        } else {
            assert(released.contains(released[i]) && pressed.contains(pressed[j - n]));
        }
    }
}

/// A key that goes down is answered by bringing the output device to the keys that are then desired,
/// and then by taking note of the key as one that may be tapped, exactly if a mapping applies to it.
pub proof fn press_is_answered(
    s: MapperState,
    event: InputEvent,
    code: KeyCode,
    actions: Seq<Action>,
)
    requires
        event.value == 1,
        s.answers(event, code, actions),
    ensures
        exists|sync: Seq<Action>| #[trigger]
            s.taken_in(event, code).syncs(event.time as int, sync) && actions == sync + (
            if holding(s, code, event.time).mapping_for(code) is Some {
                seq![Action::ArmTap(code)]
            } else {
                seq![]
            }),
{
    assert(holding(s, code, event.time) == MapperState {
        held: s.held.insert(code, event.time),
        ..s
    });
    let sync = choose|sync: Seq<Action>| #[trigger]
        s.taken_in(event, code).syncs(event.time as int, sync) && actions == sync
            + s.further_actions(event, code);
    assert(s.taken_in(event, code).syncs(event.time as int, sync));
}

/// Whether a key that comes up now is tapped: a mapping gives it a dual role, it is the key that may
/// be tapped, and less than two hundred milliseconds, and no negative time, have gone by since it
/// went down.
pub open spec fn is_tapped(s: MapperState, code: KeyCode, time: int) -> bool {
    &&& s.dual_role_mapping(code) is Some
    &&& s.tapping == Some(code)
    &&& 0 <= time - s.held[code] < 200_000_000
}

/// A held key that comes up is answered by bringing the output device to the keys that are then
/// desired. If it has a dual role and some key may be tapped, that is over; and if the key is tapped,
/// its tap keys are pressed in order and then released in order. Nothing else is done.
pub proof fn release_is_answered(
    s: MapperState,
    event: InputEvent,
    code: KeyCode,
    actions: Seq<Action>,
)
    requires
        event.value == 0,
        s.held.contains_key(code),
        s.answers(event, code, actions),
    ensures
        exists|sync: Seq<Action>| #[trigger]
            s.taken_in(event, code).syncs(event.time as int, sync) && {
                let n = sync.len() as int;
                let tap = s.dual_role_mapping(code)->0->tap;
                let m = tap.len() as int;
                let time = event.time as int;
                &&& n <= actions.len() && actions.take(n) == sync
                &&& s.dual_role_mapping(code) is None || s.tapping is None ==> actions.len() == n
                &&& s.dual_role_mapping(code) is Some && s.tapping is Some ==> {
                    &&& actions.len() == n + 1 + (if is_tapped(s, code, time) {
                        2 * m
                    } else {
                        0
                    })
                    &&& actions[n] == Action::CancelTap
                    &&& is_tapped(s, code, time) ==> forall|i: int|
                        0 <= i < m ==> {
                            &&& writes(actions[n + 1 + i], #[trigger] tap[i], 1, time)
                            &&& writes(actions[n + 1 + m + i], tap[i], 0, time)
                        }
                }
            },
{
    let time = event.time as int;
    let taken = s.taken_in(event, code);
    let further = s.further_actions(event, code);
    let sync = choose|sync: Seq<Action>| #[trigger]
        taken.syncs(time, sync) && actions == sync + further;
    let n = sync.len() as int;
    laws::mapping_fits_key(s, code);
    assert(actions.take(n) =~= sync);
    if s.dual_role_mapping(code) is Some && s.tapping is Some {
        let tap = s.dual_role_mapping(code)->0->tap;
        let m = tap.len() as int;
        assert(further[0] == Action::CancelTap);
        if is_tapped(s, code, time) {
            let presses = model::key_writes(tap, time, KeyEventType::Press);
            let releases = model::key_writes(tap, time, KeyEventType::Release);
            key_writes_go_key_by_key(tap, time, KeyEventType::Press, 1);
            key_writes_go_key_by_key(tap, time, KeyEventType::Release, 0);
            assert(further =~= seq![Action::CancelTap] + presses + releases);
            assert forall|i: int| 0 <= i < m implies {
                &&& writes(actions[n + 1 + i], #[trigger] tap[i], 1, time)
                &&& writes(actions[n + 1 + m + i], tap[i], 0, time)
            } by {
                assert(actions[n + 1 + i] == presses[i]);
                assert(actions[n + 1 + m + i] == releases[i]);
            }
        }
    }
    assert(taken.syncs(time, sync));
}

/// A dual-role key that goes down and comes up again with no other event in between is tapped if it
/// comes up at least zero and less than 200_000_000 nanoseconds later, and only then: exactly so the
/// answer holds its tap keys.
pub proof fn quick_press_is_a_tap(
    s: MapperState,
    press: InputEvent,
    pressing: Seq<Action>,
    release: InputEvent,
    releasing: Seq<Action>,
    code: KeyCode,
)
    requires
        press.value == 1,
        release.value == 0,
        s.dual_role_mapping(code) is Some,
        s.answers(press, code, pressing),
        s.taken_in(press, code).done_all(pressing).answers(release, code, releasing),
    ensures
        ({
            let down = s.taken_in(press, code).done_all(pressing);
            let elapsed = release.time - press.time;
            let tap = s.dual_role_mapping(code)->0->tap;
            let m = tap.len() as int;
            let time = release.time as int;
            exists|sync: Seq<Action>| #[trigger]
                down.taken_in(release, code).syncs(time, sync) && {
                    let n = sync.len() as int;
                    &&& n < releasing.len() && releasing.take(n) == sync
                    &&& releasing[n] == Action::CancelTap
                    &&& 0 <= elapsed < 200_000_000 ==> {
                        &&& releasing.len() == n + 1 + 2 * m
                        &&& forall|i: int|
                            0 <= i < m ==> {
                                &&& writes(releasing[n + 1 + i], #[trigger] tap[i], 1, time)
                                &&& writes(releasing[n + 1 + m + i], tap[i], 0, time)
                            }
                    }
                    &&& elapsed < 0 || elapsed >= 200_000_000 ==> releasing.len() == n + 1
                }
        }),
{
    let down = s.taken_in(press, code).done_all(pressing);
    let time = release.time as int;
    laws::press_reaches_desired_keys(s, press, code, pressing);
    laws::actions_keep_desired_keys(s.taken_in(press, code), pressing);
    laws::mapping_fits_key(s, code);
    let pressed = s.with_pressed(code, press.time);
    assert(pressed.dual_role_mapping(code) == s.dual_role_mapping(code));
    assert(down.dual_role_mapping(code) == s.dual_role_mapping(code));
    assert(down.tapping == Some(code));
    assert(down.held[code] == press.time);
    release_is_answered(down, release, code, releasing);
}

/// If a key that comes up after some time is tapped, so is one that comes up sooner, but not before
/// it went down; and the time from which it is none is 200_000_000 nanoseconds.
pub proof fn sooner_release_is_a_tap_too(pressed_at: int, released_at: int, sooner: int)
    ensures
        model::is_quick(pressed_at, released_at) && pressed_at <= sooner <= released_at
            ==> model::is_quick(pressed_at, sooner),
        model::is_quick(pressed_at, pressed_at + 199_999_999),
        !model::is_quick(pressed_at, pressed_at + 200_000_000),
        model::is_quick(pressed_at, released_at) ==> pressed_at <= released_at < pressed_at
            + 200_000_000,
{
}

/// The release of a key that is not held, and any value that says neither press, release nor
/// repeat, is passed on as it is.
pub proof fn strange_event_is_passed_on(
    s: MapperState,
    event: InputEvent,
    code: KeyCode,
    actions: Seq<Action>,
)
    requires
        event.value == 0 && !s.held.contains_key(code) || event.value < 0 || event.value > 2,
        s.answers(event, code, actions),
    ensures
        actions == seq![Action::Write(event)],
{
}

/// The repeat of a dual-role key is answered by repeating, in order, every key that it stands for
/// while held. The repeat of a key to which a chord applies is silent if the key is held, and so is
/// that of a member of a chord; any other repeat is passed on as it is.
pub proof fn repeat_is_answered(
    s: MapperState,
    event: InputEvent,
    code: KeyCode,
    actions: Seq<Action>,
)
    requires
        event.value == 2,
        s.answers(event, code, actions),
    ensures
        match s.mapping_for(code) {
            Some(MappingView::DualRole { input, hold, tap }) => {
                &&& actions.len() == hold.len()
                &&& forall|i: int|
                    0 <= i < hold.len() ==> writes(
                        actions[i],
                        #[trigger] hold[i],
                        2,
                        event.time as int,
                    )
            },
            Some(_) => actions == (if s.held.contains_key(code) {
                seq![]
            } else {
                seq![Action::Write(event)]
            }),
            None => actions == (if s.chord_keys.contains_key(code) {
                seq![]
            } else {
                seq![Action::Write(event)]
            }),
        },
{
    laws::mapping_fits_key(s, code);
    match s.mapping_for(code) {
        Some(MappingView::DualRole { input, hold, tap }) => {
            key_writes_go_key_by_key(hold, event.time as int, KeyEventType::Repeat, 2);
            assert forall|i: int| 0 <= i < hold.len() implies writes(
                actions[i],
                #[trigger] hold[i],
                2,
                event.time as int,
            ) by {
                assert(actions[i] == model::key_writes(
                    hold,
                    event.time as int,
                    KeyEventType::Repeat,
                )[i]);
            }
        },
        Some(MappingView::Remap { input, output }) => {
            if s.held.contains_key(code) {
                assert forall|k: KeyCode| input.contains(k) implies s.held.dom().contains(k) by {
                    if k != code {
                        assert(input.remove(code).contains(k));
                    }
                }
            } else {
                assert(input.contains(code) && !s.held.dom().contains(code));
            }
        },
        _ => {},
    }
}

// What is noted of what has been done.

/// A key is down in the output device once an event has been written if the event says that it is
/// pressed or repeated, or if it was down and the event does not say that it is released; only key
/// events about this key matter. Nothing else changes.
pub proof fn write_is_noted(s: MapperState, event: InputEvent, k: KeyCode)
    ensures
        ({
            let after = s.done(Action::Write(event));
            let about = event.event_type == 1 && event.code == k;
            &&& after.output_keys.contains(k) <==> {
                ||| about && (event.value == 1 || event.value == 2)
                ||| s.output_keys.contains(k) && !(about && event.value == 0)
            }
            &&& after == (MapperState { output_keys: after.output_keys, ..s })
        }),
{
}

/// What may be tapped is noted, and nothing else changes.
pub proof fn tap_is_noted(s: MapperState, code: KeyCode)
    ensures
        s.done(Action::ArmTap(code)) == (MapperState { tapping: Some(code), ..s }),
        s.done(Action::CancelTap) == (MapperState { tapping: None, ..s }),
{
}

/// Actions are carried out one by one.
pub proof fn actions_are_done_one_by_one(s: MapperState, action: Action, actions: Seq<Action>)
    ensures
        s.done_all(Seq::empty()) == s,
        s.done_all(actions.push(action)) == s.done_all(actions).done(action),
        model::written(actions.push(action)) == (match action {
            Action::Write(event) => model::written(actions).push(event),
            _ => model::written(actions),
        }),
        model::written(Seq::empty()) == Seq::<InputEvent>::empty(),
{
    assert(actions.push(action).drop_last() =~= actions);
}

/// Events are read and answered one by one, each in the state that the earlier ones have left.
pub proof fn events_are_answered_one_by_one(
    s: MapperState,
    events: Seq<InputEvent>,
    turns: Seq<Seq<Action>>,
    event: InputEvent,
    turn: Seq<Action>,
)
    requires
        events.len() == turns.len(),
    ensures
        s.after_run(Seq::empty(), Seq::empty()) == s,
        s.answers_run(events.push(event), turns.push(turn)) <==> s.answers_run(events, turns)
            && s.after_run(events, turns).answers_read(event, turn),
        s.after_run(events.push(event), turns.push(turn)) == s.after_run(events, turns).read(
            event,
        ).done_all(turn),
        model::written_in_run(turns.push(turn)) == model::written_in_run(turns) + model::written(
            turn,
        ),
{
    assert(events.push(event).drop_last() =~= events);
    assert(turns.push(turn).drop_last() =~= turns);
}

/// A key event is taken in and answered as one about the key that its code names; any other event
/// changes nothing and is passed on as it is.
pub proof fn key_events_are_told_from_others(
    s: MapperState,
    event: InputEvent,
    actions: Seq<Action>,
)
    ensures
        event.event_type == 1 ==> s.read(event) == s.taken_in(event, event.code) && (
        s.answers_read(event, actions) <==> s.answers(event, event.code, actions)),
        event.event_type != 1 ==> s.read(event) == s && (s.answers_read(event, actions) <==> actions
            == seq![Action::Write(event)]),
{
}

/// The moment of an event has to be one that can be stamped at most where the event is a press, the
/// release of a held key, or the repeat of a dual-role key.
pub proof fn few_events_call_for_a_stamp(s: MapperState, event: InputEvent, code: KeyCode)
    requires
        s.calls_for_stamp(event, code),
    ensures
        event.value == 1 || event.value == 0 && s.held.contains_key(code) || event.value == 2
            && s.dual_role_mapping(code) is Some,
{
    laws::mapping_fits_key(s, code);
}

} // verus!

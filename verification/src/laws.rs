//! What holds of the mapper as a whole.
use crate::event;
use crate::event::{InputEvent, KeyCode, KeyEventType};
use crate::keys;
use crate::mapping::MappingView;
use crate::model;
use crate::model::{Action, MapperState, Membership};
use vstd::prelude::*;

verus! {

/// A value field keeps its meaning: what it says is said by the same value again.
pub proof fn value_survives(value: i32)
    ensures
        KeyEventType::spec_from_value(value).spec_value() == value,
{
}

/// What happened to a key survives being written as a value field, unless it is an unknown
/// thing that goes by the value of a known one.
pub proof fn event_type_survives(event_type: KeyEventType)
    requires
        event_type matches KeyEventType::Unknown(n) ==> n < 0 || n > 2,
    ensures
        KeyEventType::spec_from_value(event_type.spec_value()) == event_type,
{
}

/// The moment of an event survives being stamped on another one: such a moment has whole
/// microseconds, and is not within the second ahead of the epoch.
pub proof fn event_time_survives(time: int)
    requires
        time % 1000 == 0,
        time >= 0 || time <= -1_000_000_000,
    ensures
        event::stamped(time) == time,
{
}

/// Every stamp reads as the moment of an event, so that stamping again changes nothing.
pub proof fn stamped_is_stable(time: int)
    ensures
        event::stamped(event::stamped(time)) == event::stamped(time),
{
    let once = event::stamped(time);
    let magnitude = if time < 0 { -time } else { time };
    assert((magnitude - magnitude % 1000) % 1000 == 0);
    if time <= -1_000_000_000 {
        assert(once <= -1_000_000_000);
        assert((-once) % 1000 == 0);
    } else {
        assert(once >= 0);
    }
}

/// Carrying out one list of actions and then another is carrying out both in a row.
pub proof fn actions_compose(s: MapperState, a: Seq<Action>, b: Seq<Action>)
    ensures
        s.done_all(a + b) == s.done_all(a).done_all(b),
    decreases b.len(),
{
    if b.len() == 0 {
        assert(a + b == a);
    } else {
        actions_compose(s, a, b.drop_last());
        assert((a + b).drop_last() == a + b.drop_last());
        assert((a + b).last() == b.last());
    }
}

/// Writing that keys are pressed or repeated leaves them down in the output device.
pub proof fn pressing_leaves_down(
    s: MapperState,
    list: Seq<KeyCode>,
    time: int,
    event_type: KeyEventType,
)
    requires
        event_type is Press || event_type is Repeat,
    ensures
        s.done_all(model::key_writes(list, time, event_type)) == (MapperState {
            output_keys: s.output_keys.union(list.to_set()),
            ..s
        }),
    decreases list.len(),
{
    let writes = model::key_writes(list, time, event_type);
    if list.len() == 0 {
        assert(s.output_keys.union(list.to_set()) =~= s.output_keys);
    } else {
        let front = list.drop_last();
        pressing_leaves_down(s, front, time, event_type);
        assert(writes.drop_last() =~= model::key_writes(front, time, event_type));
        lemma_to_set_last(list);
        assert(s.output_keys.union(front.to_set()).insert(list.last()) =~= s.output_keys.union(
            list.to_set(),
        ));
    }
}

/// Writing that keys are released leaves them up in the output device.
pub proof fn releasing_leaves_up(s: MapperState, list: Seq<KeyCode>, time: int)
    ensures
        s.done_all(model::key_writes(list, time, KeyEventType::Release)) == (MapperState {
            output_keys: s.output_keys.difference(list.to_set()),
            ..s
        }),
    decreases list.len(),
{
    let writes = model::key_writes(list, time, KeyEventType::Release);
    if list.len() == 0 {
        assert(s.output_keys.difference(list.to_set()) =~= s.output_keys);
    } else {
        let front = list.drop_last();
        releasing_leaves_up(s, front, time);
        assert(writes.drop_last() =~= model::key_writes(front, time, KeyEventType::Release));
        lemma_to_set_last(list);
        assert(s.output_keys.difference(front.to_set()).remove(list.last())
            =~= s.output_keys.difference(list.to_set()));
    }
}

proof fn lemma_to_set_last(list: Seq<KeyCode>)
    requires
        list.len() > 0,
    ensures
        list.to_set() == list.drop_last().to_set().insert(list.last()),
{
    assert forall|k: KeyCode| #[trigger]
        list.to_set().contains(k) <==> list.drop_last().to_set().insert(list.last()).contains(
            k,
        ) by {
        keys::lemma_take_next(list, list.len() - 1);
        assert(list.take(list.len() as int) == list);
        assert(list.take(list.len() - 1) == list.drop_last());
    }
    assert(list.to_set() =~= list.drop_last().to_set().insert(list.last()));
}

/// Once the output device has been brought to the desired keys, exactly these are down in it,
/// and nothing else has changed.
pub proof fn sync_reaches_desired_keys(s: MapperState, time: int, actions: Seq<Action>)
    requires
        s.syncs(time, actions),
    ensures
        s.done_all(actions) == (MapperState { output_keys: s.desired_keys(), ..s }),
{
    let (released, pressed) = choose|released: Seq<KeyCode>, pressed: Seq<KeyCode>| #[trigger]
        s.syncs_by(time, actions, released, pressed);
    actions_compose(
        s,
        model::key_writes(released, time, KeyEventType::Release),
        model::key_writes(pressed, time, KeyEventType::Press),
    );
    releasing_leaves_up(s, released, time);
    let up = MapperState { output_keys: s.output_keys.difference(released.to_set()), ..s };
    pressing_leaves_down(up, pressed, time, KeyEventType::Press);
    assert(up.output_keys.union(pressed.to_set()) =~= s.desired_keys()) by {
        assert(released.to_set() =~= s.output_keys.difference(s.desired_keys()));
        assert(pressed.to_set() =~= s.desired_keys().difference(s.output_keys));
    }
}

/// Where exactly the desired keys are down in the output device already, bringing it to them
/// takes no writes.
pub proof fn no_writes_when_in_sync(s: MapperState, time: int, actions: Seq<Action>)
    requires
        s.syncs(time, actions),
        s.output_keys == s.desired_keys(),
    ensures
        actions == Seq::<Action>::empty(),
{
    let (released, pressed) = choose|released: Seq<KeyCode>, pressed: Seq<KeyCode>| #[trigger]
        s.syncs_by(time, actions, released, pressed);
    if released.len() > 0 {
        assert(released.contains(released[0]));
    }
    if pressed.len() > 0 {
        assert(pressed.contains(pressed[0]));
    }
}

/// The remapping depends on the keys that count, on the members of chords that were found to apply,
/// and on the mappings.
proof fn lemma_same_remapping(s: MapperState, t: MapperState)
    requires
        s.mappings == t.mappings,
        s.modifier_keys == t.modifier_keys,
        s.members_by(Membership::Mapped) == t.members_by(Membership::Mapped),
        s.held == t.held,
    ensures
        forall|i: int| #[trigger] s.remapping(i) == t.remapping(i),
        forall|i: int| #[trigger] s.fires(i) == t.fires(i),
        forall|i: int, k: KeyCode| #[trigger] s.consumes(i, k) == t.consumes(i, k),
        forall|i: int, k: KeyCode| #[trigger] t.consumes(i, k) == s.consumes(i, k),
        forall|i: int, k: KeyCode| #[trigger] s.supplies(i, k) == t.supplies(i, k),
        forall|i: int, k: KeyCode| #[trigger] t.supplies(i, k) == s.supplies(i, k),
        s.consumed_keys() == t.consumed_keys(),
{
    assert(forall|m: KeyCode| #[trigger] s.holds_modifier(m) <==> t.holds_modifier(m));
    assert(forall|m: KeyCode| #[trigger] t.holds_modifier(m) <==> s.holds_modifier(m));
    assert(s.visible_keys() =~= t.visible_keys());
    assert forall|i: int| #[trigger] s.fires(i) == t.fires(i) by {
        assert(s.remapping(i) == t.remapping(i));
    }
    assert forall|i: int, k: KeyCode| #[trigger] s.consumes(i, k) == t.consumes(i, k) by {
        assert(s.fires(i) == t.fires(i));
    }
    assert forall|i: int, k: KeyCode| #[trigger] s.supplies(i, k) == t.supplies(i, k) by {
        assert(s.fires(i) == t.fires(i));
    }
    assert(forall|i: int, k: KeyCode| #[trigger] t.consumes(i, k) ==> s.consumes(i, k));
    assert(forall|i: int, k: KeyCode| #[trigger] t.supplies(i, k) ==> s.supplies(i, k));
    assert(s.consumed_keys() =~= t.consumed_keys());
}

/// The keys that are desired depend on what is held, on the mappings, on the modifiers and on the
/// members of chords; not on what is down in the output device, nor on what is being tapped.
pub proof fn desired_keys_depend_on_input(s: MapperState, t: MapperState)
    requires
        s.held == t.held,
        s.mappings == t.mappings,
        s.modifier_keys == t.modifier_keys,
        s.chord_keys == t.chord_keys,
    ensures
        s.desired_keys() == t.desired_keys(),
        s.consumed_keys() == t.consumed_keys(),
{
    assert(s.members_by(Membership::Mapped) =~= t.members_by(Membership::Mapped));
    lemma_same_remapping(s, t);
    assert(s.suppressed_keys() =~= t.suppressed_keys());
}

/// Actions change neither what is desired nor anything that it depends on.
pub proof fn actions_keep_desired_keys(s: MapperState, actions: Seq<Action>)
    ensures
        s.done_all(actions).desired_keys() == s.desired_keys(),
        s.done_all(actions).held == s.held,
        s.done_all(actions).mappings == s.mappings,
        s.done_all(actions).chord_keys == s.chord_keys,
        s.done_all(actions).consumed_keys() == s.consumed_keys(),
        s.done_all(actions).modifier_keys == s.modifier_keys,
    decreases actions.len(),
{
    if actions.len() > 0 {
        actions_keep_desired_keys(s, actions.drop_last());
    }
    desired_keys_depend_on_input(s, s.done_all(actions));
}

/// A well-formed mapper stays well formed when an action is carried out.
pub proof fn action_keeps_well_formedness(s: MapperState, action: Action)
    requires
        s.wf(),
    ensures
        s.done(action).wf(),
{
    desired_keys_depend_on_input(s, s.done(action));
}

/// Once everything has been done about a key going down, exactly the desired keys are down in
/// the output device, and the key may turn out to be tapped if a mapping applies to it.
pub proof fn press_reaches_desired_keys(
    s: MapperState,
    event: InputEvent,
    code: KeyCode,
    actions: Seq<Action>,
)
    requires
        event.value == 1,
        s.answers(event, code, actions),
    ensures
        ({
            let pressed = s.with_pressed(code, event.time);
            let after = s.taken_in(event, code).done_all(actions);
            &&& after.output_keys == pressed.desired_keys()
            &&& after.desired_keys() == after.output_keys
            &&& after.tapping == (if pressed.mapping_for(code) is Some {
                Some(code)
            } else {
                None
            })
        }),
{
    let taken = s.taken_in(event, code);
    let sync = choose|sync: Seq<Action>| #[trigger]
        taken.syncs(event.time as int, sync) && actions == sync + s.further_actions(event, code);
    let further = s.further_actions(event, code);
    actions_compose(taken, sync, further);
    sync_reaches_desired_keys(taken, event.time as int, sync);
    actions_keep_desired_keys(taken, actions);
    let synced = taken.done_all(sync);
    let held = MapperState { held: s.held.insert(code, event.time), ..s };
    assert(taken.mapping_for(code) == held.mapping_for(code));
    if further.len() > 0 {
        assert(further.drop_last() =~= Seq::<Action>::empty());
        assert(synced.done_all(further.drop_last()) == synced);
        assert(synced.done_all(further) == synced.done(further.last()));
    }
}

/// Once everything has been done about a held key coming up, exactly the desired keys are down
/// in the output device, but for those that a tap has just released.
pub proof fn release_reaches_desired_keys(
    s: MapperState,
    event: InputEvent,
    code: KeyCode,
    actions: Seq<Action>,
)
    requires
        event.value == 0,
        s.held.contains_key(code),
        s.answers(event, code, actions),
    ensures
        ({
            let released = s.with_released(code);
            let after = s.taken_in(event, code).done_all(actions);
            match s.dual_role_mapping(code) {
                Some(MappingView::DualRole { input, hold, tap }) => {
                    &&& after.tapping is None
                    &&& after.output_keys == (if s.tapping == Some(code) && model::is_quick(
                        s.held[code] as int,
                        event.time as int,
                    ) {
                        released.desired_keys().difference(tap.to_set())
                    } else {
                        released.desired_keys()
                    })
                },
                _ => after.tapping == s.tapping && after.output_keys == released.desired_keys(),
            }
        }),
{
    let taken = s.taken_in(event, code);
    let time = event.time as int;
    let sync = choose|sync: Seq<Action>| #[trigger]
        taken.syncs(time, sync) && actions == sync + s.further_actions(event, code);
    let further = s.further_actions(event, code);
    actions_compose(taken, sync, further);
    sync_reaches_desired_keys(taken, time, sync);
    let synced = taken.done_all(sync);
    match (s.dual_role_mapping(code), s.tapping) {
        (Some(MappingView::DualRole { input, hold, tap }), Some(tapping)) => {
            let cancel = seq![Action::CancelTap];
            assert(cancel.drop_last() =~= Seq::<Action>::empty());
            assert(synced.done_all(cancel.drop_last()) == synced);
            let cancelled = synced.done_all(cancel);
            assert(cancelled == synced.done(Action::CancelTap));
            if tapping == code && model::is_quick(s.held[code] as int, time) {
                let presses = model::key_writes(tap, time, KeyEventType::Press);
                let releases = model::key_writes(tap, time, KeyEventType::Release);
                actions_compose(synced, cancel + presses, releases);
                actions_compose(synced, cancel, presses);
                pressing_leaves_down(cancelled, tap, time, KeyEventType::Press);
                releasing_leaves_up(cancelled.done_all(presses), tap, time);
                assert(cancelled.output_keys.union(tap.to_set()).difference(tap.to_set())
                    =~= taken.desired_keys().difference(tap.to_set()));
            }
        },
        _ => {
            assert(further =~= Seq::<Action>::empty());
        },
    }
}

/// A key with a dual role is mapped by the first mapping that gives it one, whatever chords the
/// key completes.
pub proof fn dual_role_has_precedence(s: MapperState, code: KeyCode, i: int)
    requires
        model::is_dual_role(s.mappings, code, i),
    ensures
        exists|j: int|
            j <= i && #[trigger] model::is_first_dual_role(s.mappings, code, j)
                && s.mapping_for(code) == Some(s.mappings[j]) && s.dual_role_mapping(code) == Some(
                s.mappings[j],
            ),
{
    let j = lemma_first_dual_role_exists(s.mappings, code, i);
    model::lemma_first_dual_role_unique(s.mappings, code, j);
}

proof fn lemma_first_dual_role_exists(mappings: Seq<MappingView>, code: KeyCode, i: int) -> (j: int)
    requires
        model::is_dual_role(mappings, code, i),
    ensures
        j <= i,
        model::is_first_dual_role(mappings, code, j),
    decreases i,
{
    if forall|k: int| 0 <= k < i ==> !#[trigger] model::is_dual_role(mappings, code, k) {
        i
    } else {
        let k = choose|k: int| 0 <= k < i && #[trigger] model::is_dual_role(mappings, code, k);
        lemma_first_dual_role_exists(mappings, code, k)
    }
}

/// A key without a dual role that completes a chord is mapped by the chord with the most keys
/// among those that it completes, and by the first of these.
pub proof fn largest_chord_wins(s: MapperState, code: KeyCode, i: int)
    requires
        s.dual_role_mapping(code) is None,
        model::is_chord(s.mappings, s.held.dom(), code, i),
    ensures
        exists|j: int| #[trigger]
            model::is_best_chord(s.mappings, s.held.dom(), code, j) && s.mapping_for(code) == Some(
                s.mappings[j],
            ),
{
    let held = s.held.dom();
    let j = lemma_best_chord_exists(s.mappings, held, code, i, s.mappings.len() as int);
    assert forall|n: int| #[trigger] model::is_chord(s.mappings, held, code, n) implies if n < j {
        model::chord_len(s.mappings, n) < model::chord_len(s.mappings, j)
    } else {
        model::chord_len(s.mappings, n) <= model::chord_len(s.mappings, j)
    } by {
        assert(n < s.mappings.len());
    }
    assert(model::is_best_chord(s.mappings, held, code, j));
    model::lemma_best_chord_unique(s.mappings, held, code, j);
    assert(s.chord_mapping(code) == Some(s.mappings[j]));
}

/// Among the first `n` mappings there is a best chord if there is a chord at all.
proof fn lemma_best_chord_exists(
    mappings: Seq<MappingView>,
    held: Set<KeyCode>,
    code: KeyCode,
    i: int,
    n: int,
) -> (best: int)
    requires
        model::is_chord(mappings, held, code, i),
        i < n <= mappings.len(),
    ensures
        model::is_chord(mappings, held, code, best),
        best < n,
        forall|j: int| #[trigger]
            model::is_chord(mappings, held, code, j) && j < n ==> if j < best {
                model::chord_len(mappings, j) < model::chord_len(mappings, best)
            } else {
                model::chord_len(mappings, j) <= model::chord_len(mappings, best)
            },
    decreases n,
{
    if forall|j: int| #[trigger] model::is_chord(mappings, held, code, j) && j < n ==> j == n - 1 {
        assert(i == n - 1);
        i
    } else {
        let k = choose|k: int| #[trigger] model::is_chord(mappings, held, code, k) && k < n - 1;
        let before = lemma_best_chord_exists(mappings, held, code, k, n - 1);
        if model::is_chord(mappings, held, code, n - 1) && model::chord_len(mappings, before)
            < model::chord_len(mappings, n - 1) {
            n - 1
        } else {
            before
        }
    }
}

/// What applies to a key is a dual role of this very key, or a chord that it is part of and
/// whose other keys are held; never a declaration of modifiers.
pub proof fn mapping_fits_key(s: MapperState, code: KeyCode)
    ensures
        match s.mapping_for(code) {
            Some(MappingView::DualRole { input, hold, tap }) => input == code,
            Some(MappingView::Remap { input, output }) => input.contains(code) && input.remove(
                code,
            ).subset_of(s.held.dom()),
            Some(MappingView::ModifierKey { keys }) => false,
            None => true,
        },
        match s.dual_role_mapping(code) {
            Some(MappingView::DualRole { input, hold, tap }) => input == code,
            Some(_) => false,
            None => true,
        },
{
}

/// A dual-role key that goes down and, with no other event in between, comes up again is tapped,
/// by what its mapping says, if it comes up quickly, and only then.
pub proof fn quick_release_taps(
    s: MapperState,
    press: InputEvent,
    pressing: Seq<Action>,
    release: InputEvent,
    releasing: Seq<Action>,
    code: KeyCode,
)
    requires
        press.value == 1,
        release.value == 0,
        s.dual_role_mapping(code) is Some,
        s.answers(press, code, pressing),
        s.taken_in(press, code).done_all(pressing).answers(release, code, releasing),
    ensures
        ({
            let down = s.taken_in(press, code).done_all(pressing);
            let tap = s.dual_role_mapping(code)->0->tap;
            let time = release.time as int;
            exists|sync: Seq<Action>| #[trigger]
                down.with_released(code).syncs(time, sync) && releasing == sync + seq![
                    Action::CancelTap,
                ] + (if model::is_quick(press.time as int, time) {
                    model::key_writes(tap, time, KeyEventType::Press) + model::key_writes(
                        tap,
                        time,
                        KeyEventType::Release,
                    )
                } else {
                    Seq::empty()
                })
        }),
{
    let down = s.taken_in(press, code).done_all(pressing);
    let time = release.time as int;
    press_reaches_desired_keys(s, press, code, pressing);
    actions_keep_desired_keys(s.taken_in(press, code), pressing);
    mapping_fits_key(s, code);
    let pressed = s.with_pressed(code, press.time);
    assert(pressed.dual_role_mapping(code) == s.dual_role_mapping(code));
    assert(down.dual_role_mapping(code) == s.dual_role_mapping(code));
    assert(down.tapping == Some(code));
    assert(down.held[code] == press.time);
    let tap = s.dual_role_mapping(code)->0->tap;
    let sync = choose|sync: Seq<Action>| #[trigger]
        down.taken_in(release, code).syncs(time, sync) && releasing == sync + down.further_actions(
            release,
            code,
        );
    assert(down.with_released(code).syncs(time, sync));
    assert(releasing =~= sync + seq![Action::CancelTap] + (if model::is_quick(
        press.time as int,
        time,
    ) {
        model::key_writes(tap, time, KeyEventType::Press) + model::key_writes(
            tap,
            time,
            KeyEventType::Release,
        )
    } else {
        Seq::empty()
    }));
}

/// A key going down ends the tap of any other: once everything has been done about it, the
/// other one coming up, however quickly, is no tap.
pub proof fn other_key_prevents_tap(
    s: MapperState,
    press: InputEvent,
    pressing: Seq<Action>,
    other: KeyCode,
    release: InputEvent,
    code: KeyCode,
)
    requires
        press.value == 1,
        other != code,
        s.answers(press, other, pressing),
    ensures
        ({
            let down = s.taken_in(press, other).done_all(pressing);
            let further = down.release_actions(release, code);
            further == Seq::<Action>::empty() || further == seq![Action::CancelTap]
        }),
{
    press_reaches_desired_keys(s, press, other, pressing);
}

/// While a chord is fully held, a repeat of one of its keys that would be mapped by it is
/// answered with silence, and changes nothing.
pub proof fn held_chord_repeats_silently(
    s: MapperState,
    event: InputEvent,
    code: KeyCode,
    actions: Seq<Action>,
)
    requires
        event.value == 2,
        s.held.contains_key(code),
        s.mapping_for(code) matches Some(MappingView::Remap { .. }),
        s.answers(event, code, actions),
    ensures
        actions == Seq::<Action>::empty(),
        s.taken_in(event, code) == s,
{
    mapping_fits_key(s, code);
    match s.mapping_for(code) {
        Some(MappingView::Remap { input, output }) => {
            assert forall|k: KeyCode| input.contains(k) implies s.held.dom().contains(k) by {
                if k != code {
                    assert(input.remove(code).contains(k));
                }
            }
        },
        _ => {},
    }
}

/// A key that goes down and comes up again leaves the same keys held as before.
pub proof fn release_undoes_press(s: MapperState, press: InputEvent, release: InputEvent, code: KeyCode)
    requires
        press.value == 1,
        release.value == 0,
        !s.held.contains_key(code),
    ensures
        s.taken_in(press, code).taken_in(release, code).held == s.held,
{
    assert(s.held.insert(code, press.time).remove(code) =~= s.held);
}

/// A key that is no modifier does not count if every held modifier went down when it did or
/// later, and there is one; a held modifier counts always.
pub proof fn keys_before_modifiers_do_not_count(s: MapperState, k: KeyCode, m: KeyCode)
    requires
        s.holds_modifier(m),
        !s.is_modifier(k),
        forall|n: KeyCode| #[trigger] s.holds_modifier(n) ==> s.held[k] <= s.held[n],
    ensures
        !s.visible_keys().contains(k),
        s.visible_keys().contains(m),
{
}

/// What is available never grows on the way through the mappings, and never loses a modifier:
/// a modifier that one chord uses is there for every other chord.
pub proof fn modifiers_stay_available(s: MapperState, i: int, j: int)
    requires
        0 <= i <= j <= s.mappings.len(),
    ensures
        s.remapping(j).available.subset_of(s.remapping(i).available),
        s.remapping(j).available.intersect(s.modifier_keys) == s.remapping(i).available.intersect(
            s.modifier_keys,
        ),
    decreases j - i,
{
    if i < j {
        modifiers_stay_available(s, i, j - 1);
        model::lemma_remapping_next(s, j - 1);
        assert(s.remapping(j).available.intersect(s.modifier_keys) =~= s.remapping(i,
        ).available.intersect(s.modifier_keys));
    }
}

/// What a mapping has taken or put out is not visible as input for later mappings, unless it is
/// a modifier: a later mapping that needs it does not fire.
pub proof fn outputs_feed_no_later_mapping(s: MapperState, i: int, j: int, k: KeyCode)
    requires
        s.fires(i),
        i < j < s.mappings.len(),
        !s.is_modifier(k),
        s.mappings[i]->Remap_input.contains(k) || s.mappings[i]->output.contains(k),
        s.mappings[j] matches MappingView::Remap { input, output } && input.contains(k),
    ensures
        !s.fires(j),
{
    model::lemma_remapping_next(s, i);
    modifiers_stay_available(s, i + 1, j);
    assert(!s.remapping(i + 1).available.contains(k));
    assert(!s.remapping(j).available.contains(k));
}

/// A key that the remapping has lost by the mapping with index `i` stays lost if no later
/// mapping that fires puts it out.
proof fn lemma_stays_lost(s: MapperState, i: int, j: int, k: KeyCode)
    requires
        0 <= i <= j <= s.mappings.len(),
        !s.remapping(i).keys.contains(k),
        forall|n: int| i <= n < j ==> !#[trigger] s.supplies(n, k),
    ensures
        !s.remapping(j).keys.contains(k),
    decreases j - i,
{
    if i < j {
        lemma_stays_lost(s, i, j - 1, k);
        model::lemma_remapping_next(s, j - 1);
        assert(!s.supplies(j - 1, k));
    }
}

/// A mapping that does not put out `k` does not supply it.
proof fn lemma_not_supplied(s: MapperState, i: int, k: KeyCode)
    requires
        forall|n: int| i <= n < s.mappings.len() ==> !model::puts_out(#[trigger] s.mappings[n], k),
    ensures
        forall|n: int| i <= n ==> !#[trigger] s.supplies(n, k),
{
    assert forall|n: int| i <= n implies !#[trigger] s.supplies(n, k) by {
        if 0 <= n < s.mappings.len() {
            assert(!model::puts_out(s.mappings[n], k));
        }
    }
}

/// A key that the remapping has won by the mapping with index `i` stays won if no later mapping
/// takes it.
proof fn lemma_stays_won(s: MapperState, i: int, j: int, k: KeyCode)
    requires
        0 <= i <= j <= s.mappings.len(),
        s.remapping(i).keys.contains(k),
        forall|n: int| i <= n < j ==> !model::takes(#[trigger] s.mappings[n], k),
    ensures
        s.remapping(j).keys.contains(k),
    decreases j - i,
{
    if i < j {
        lemma_stays_won(s, i, j - 1, k);
        model::lemma_remapping_next(s, j - 1);
        assert(!model::takes(s.mappings[j - 1], k));
    }
}

/// What a mapping that fires puts out is desired, unless a later mapping takes it.
pub proof fn fired_output_is_desired(s: MapperState, i: int, k: KeyCode)
    requires
        s.fires(i),
        model::puts_out(s.mappings[i], k),
        forall|n: int| i < n < s.mappings.len() ==> !model::takes(#[trigger] s.mappings[n], k),
    ensures
        s.desired_keys().contains(k),
{
    model::lemma_remapping_next(s, i);
    lemma_stays_won(s, i + 1, s.mappings.len() as int, k);
    assert(s.supplies(i, k));
}

/// The mapping takes `k` as part of its input, or puts it out.
pub open spec fn concerns(mapping: MappingView, k: KeyCode) -> bool {
    model::takes(mapping, k) || model::puts_out(mapping, k)
}

/// A chord whose keys are all there fires, if no earlier mapping concerns those of them that are
/// no modifiers: however many other chords share its modifiers, and whether these fire or not.
pub proof fn held_chord_fires(s: MapperState, i: int)
    requires
        0 <= i < s.mappings.len(),
        s.mappings[i] matches MappingView::Remap { input, output } && input.subset_of(
            model::hold_roles(s.mappings, s.visible_keys()),
        ),
        forall|j: int, k: KeyCode|
            0 <= j < i && model::takes(s.mappings[i], k) && !s.is_modifier(k) ==> !#[trigger] concerns(
                s.mappings[j],
                k,
            ),
    ensures
        s.fires(i),
{
    match s.mappings[i] {
        MappingView::Remap { input, output } => {
            assert(s.mappings.take(0) =~= Seq::<MappingView>::empty());
            assert forall|k: KeyCode| input.contains(k) implies s.remapping(i,
            ).available.contains(k) by {
                assert(s.remapping(0).available.contains(k));
                if s.is_modifier(k) {
                    modifiers_stay_available(s, 0, i);
                    assert(s.remapping(0).available.intersect(s.modifier_keys).contains(k));
                    assert(s.remapping(i).available.intersect(s.modifier_keys).contains(k));
                } else {
                    assert(model::takes(s.mappings[i], k));
                    lemma_stays_available(s, i, k);
                }
            }
        },
        _ => {},
    }
}

/// A key that no mapping before the one with index `j` concerns is still available there.
proof fn lemma_stays_available(s: MapperState, j: int, k: KeyCode)
    requires
        0 <= j <= s.mappings.len(),
        s.remapping(0).available.contains(k),
        forall|n: int| 0 <= n < j ==> !#[trigger] concerns(s.mappings[n], k),
    ensures
        s.remapping(j).available.contains(k),
    decreases j,
{
    if j > 0 {
        lemma_stays_available(s, j - 1, k);
        model::lemma_remapping_next(s, j - 1);
        assert(!concerns(s.mappings[j - 1], k));
    }
}

/// What a mapping that fires takes is not desired, unless this or a later mapping puts it out.
pub proof fn fired_input_is_not_desired(s: MapperState, i: int, k: KeyCode)
    requires
        s.fires(i),
        model::takes(s.mappings[i], k),
        forall|n: int| i <= n < s.mappings.len() ==> !model::puts_out(#[trigger] s.mappings[n], k),
    ensures
        !s.desired_keys().contains(k),
{
    model::lemma_remapping_next(s, i);
    assert(!model::puts_out(s.mappings[i], k));
    lemma_not_supplied(s, i, k);
    lemma_stays_lost(s, i + 1, s.mappings.len() as int, k);
}

/// A member of a chord is not desired, whether the chord is complete or broken, unless the chord's
/// mapping or a later one puts it out; or unless, where the key is a member only because a mapping
/// has taken it, an earlier one that fires does.
pub proof fn chord_members_do_not_leak(s: MapperState, i: int, k: KeyCode)
    requires
        s.chord_keys.contains_key(k),
        !s.is_modifier(k),
        0 <= i < s.mappings.len(),
        model::takes(s.mappings[i], k),
        forall|n: int| i <= n < s.mappings.len() ==> !model::puts_out(#[trigger] s.mappings[n], k),
        s.chord_keys[k] == Membership::Consumed ==> forall|n: int|
            n < i ==> !#[trigger] s.supplies(n, k),
    ensures
        !s.desired_keys().contains(k),
{
    lemma_not_supplied(s, i, k);
    if s.chord_keys[k] == Membership::Consumed {
        assert(forall|n: int| !#[trigger] s.supplies(n, k));
        assert(s.suppressed_keys().contains(k));
    } else {
        model::lemma_remapping_next(s, i);
        assert(!model::puts_out(s.mappings[i], k));
        assert(s.members_by(Membership::Mapped).contains(k));
        lemma_stays_lost(s, i + 1, s.mappings.len() as int, k);
    }
}

/// A member that no mapping puts out is never desired, whatever became of its chord.
pub proof fn members_are_not_desired(s: MapperState, k: KeyCode)
    requires
        s.wf(),
        s.chord_keys.contains_key(k),
        forall|n: int|
            0 <= n < s.mappings.len() ==> !model::puts_out(#[trigger] s.mappings[n], k),
    ensures
        !s.desired_keys().contains(k),
{
    assert(model::is_input(s.mappings, k));
    let i = choose|i: int|
        0 <= i < s.mappings.len() && model::takes(#[trigger] s.mappings[i], k);
    lemma_not_supplied(s, 0, k);
    assert(forall|n: int| n < 0 ==> !#[trigger] s.supplies(n, k));
    chord_members_do_not_leak(s, i, k);
}

/// The action writes that `k` is pressed or repeated.
pub open spec fn presses(action: Action, k: KeyCode) -> bool {
    match action {
        Action::Write(event) => event.spec_key() == Some(k) && (event.value == 1 || event.value
            == 2),
        _ => false,
    }
}

/// A member of a chord does not leak through as a bare keypress: until it comes up, no event is
/// answered by writing that it is pressed or repeated, unless a mapping brings it in.
pub proof fn members_are_not_written(
    s: MapperState,
    event: InputEvent,
    code: KeyCode,
    actions: Seq<Action>,
    k: KeyCode,
    i: int,
)
    requires
        s.wf(),
        s.chord_keys.contains_key(k),
        forall|n: int|
            0 <= n < s.mappings.len() ==> !model::mentions_output(#[trigger] s.mappings[n], k),
        event.spec_key() == Some(code),
        k != code || event.value != 0,
        s.answers(event, code, actions),
        0 <= i < actions.len(),
    ensures
        !presses(actions[i], k),
{
    let further = s.further_actions(event, code);
    lemma_further_is_silent(s, event, code, k);
    if s.calls_for_sync(event, code) {
        let taken = s.taken_in(event, code);
        let time = event.time as int;
        let sync = choose|sync: Seq<Action>| #[trigger]
            taken.syncs(time, sync) && actions == sync + further;
        let (released, pressed) = choose|released: Seq<KeyCode>, pressed: Seq<KeyCode>| #[trigger]
            taken.syncs_by(time, sync, released, pressed);
        well_formedness_is_kept(s, event, code, Seq::empty());
        assert(taken.chord_keys.contains_key(k));
        assert forall|n: int| 0 <= n < taken.mappings.len() implies !model::puts_out(
            #[trigger] taken.mappings[n],
            k,
        ) by {
            assert(!model::mentions_output(s.mappings[n], k));
        }
        members_are_not_desired(taken, k);
        if i < released.len() {
        } else if i < sync.len() {
            assert(pressed.contains(pressed[i - released.len()]));
        } else {
            assert(actions[i] == further[i - sync.len()]);
        }
    }
}

proof fn lemma_further_is_silent(s: MapperState, event: InputEvent, code: KeyCode, k: KeyCode)
    requires
        s.wf(),
        s.chord_keys.contains_key(k),
        forall|n: int|
            0 <= n < s.mappings.len() ==> !model::mentions_output(#[trigger] s.mappings[n], k),
        event.spec_key() == Some(code),
        k != code || event.value != 0,
    ensures
        forall|i: int|
            0 <= i < s.further_actions(event, code).len() ==> !presses(
                #[trigger] s.further_actions(event, code)[i],
                k,
            ),
{
    let further = s.further_actions(event, code);
    mapping_fits_key(s, code);
    assert forall|i: int| 0 <= i < further.len() implies !presses(#[trigger] further[i], k) by {
        match KeyEventType::spec_from_value(event.value) {
            KeyEventType::Release => if s.held.contains_key(code) {
                match (s.dual_role_mapping(code), s.tapping) {
                    (Some(MappingView::DualRole { input, hold, tap }), Some(tapping)) => {
                        let j = choose|j: int| model::is_first_dual_role(s.mappings, code, j);
                        assert(!model::mentions_output(s.mappings[j], k));
                        assert(forall|n: int|
                            0 <= n < tap.len() ==> tap.contains(#[trigger] tap[n]));
                        if 1 <= i < 1 + tap.len() {
                            assert(tap[i - 1] != k);
                        } else if i >= 1 + tap.len() {
                            assert(tap[i - 1 - tap.len()] != k);
                        }
                    },
                    _ => {},
                }
            },
            KeyEventType::Repeat => match s.mapping_for(code) {
                Some(MappingView::DualRole { input, hold, tap }) => {
                    assert(s.dual_role_mapping(code) is Some);
                    let j = choose|j: int| model::is_first_dual_role(s.mappings, code, j);
                    assert(!model::mentions_output(s.mappings[j], k));
                    assert(hold.contains(hold[i]));
                },
                Some(MappingView::Remap { input, output }) => {
                    if code == k {
                        assert(s.held.contains_key(code));
                        assert forall|m: KeyCode| input.contains(m) implies s.held.dom().contains(
                            m,
                        ) by {
                            if m != code {
                                assert(input.remove(code).contains(m));
                            }
                        }
                    }
                },
                _ => {},
            },
            _ => {},
        }
    }
}

/// A held key, but for modifiers, that a mapping which fires takes is a member as soon as the press
/// or release that made the mapping fire has been taken in; so a chord of which a dual-role key
/// supplies a part has members too, whichever of its keys went down last.
pub proof fn consumed_key_becomes_member(
    s: MapperState,
    event: InputEvent,
    code: KeyCode,
    i: int,
    k: KeyCode,
)
    requires
        s.calls_for_sync(event, code),
        s.taken_in(event, code).consumes(i, k),
        s.taken_in(event, code).held.contains_key(k),
        !s.is_modifier(k),
    ensures
        s.taken_in(event, code).chord_keys.contains_key(k),
{
    let unsettled = if event.value == 0 {
        s.with_key_up(code)
    } else {
        s.with_key_down(code, event.time)
    };
    let taken = s.taken_in(event, code);
    assert(taken == unsettled.settled());
    membership_keeps_chords_firing(unsettled);
    assert(taken.consumed_keys().contains(k));
}

/// That the keys which chords consume become members changes nothing at once: the same mappings
/// fire, and the same keys are desired.
pub proof fn membership_keeps_chords_firing(s: MapperState)
    ensures
        forall|i: int| #[trigger] s.settled().fires(i) == s.fires(i),
        s.settled().consumed_keys() == s.consumed_keys(),
        s.settled().desired_keys() == s.desired_keys(),
{
    let t = s.settled();
    assert(t.members_by(Membership::Mapped) =~= s.members_by(Membership::Mapped));
    lemma_same_remapping(t, s);
    assert forall|k: KeyCode| #[trigger]
        t.desired_keys().contains(k) <==> s.desired_keys().contains(k) by {
        if t.suppressed_keys().contains(k) && !s.suppressed_keys().contains(k) {
            assert(s.consumed_keys().contains(k));
            let i = choose|i: int| #[trigger] s.consumes(i, k);
            model::lemma_remapping_next(s, i);
            assert(!s.supplies(i, k));
            lemma_stays_lost(s, i + 1, s.mappings.len() as int, k);
        }
    }
    assert(t.desired_keys() =~= s.desired_keys());
}

/// While a key without a dual role is a member of a chord, complete or broken, its repeats are
/// answered with silence, and change nothing: neither the raw key nor the output of the chord
/// repeats.
pub proof fn chord_keys_repeat_silently(
    s: MapperState,
    event: InputEvent,
    code: KeyCode,
    actions: Seq<Action>,
)
    requires
        event.value == 2,
        s.wf(),
        s.chord_keys.contains_key(code),
        s.dual_role_mapping(code) is None,
        s.answers(event, code, actions),
    ensures
        actions == Seq::<Action>::empty(),
        s.taken_in(event, code) == s,
{
    mapping_fits_key(s, code);
    if s.mapping_for(code) is Some {
        held_chord_repeats_silently(s, event, code, actions);
    }
}

/// A key that completes a chord makes every key of the chord a member, but for modifiers.
pub proof fn completed_chord_has_members(s: MapperState, event: InputEvent, code: KeyCode, k: KeyCode)
    requires
        event.value == 1,
        s.with_pressed(code, event.time).mapping_for(code) matches Some(
            MappingView::Remap { input, output },
        ) && input.contains(k),
        !s.is_modifier(k),
    ensures
        s.taken_in(event, code).chord_keys.contains_key(k),
{
    let held = MapperState { held: s.held.insert(code, event.time), ..s };
    assert(s.with_pressed(code, event.time).mapping_for(code) == held.mapping_for(code));
}

/// A member of a chord stays one until it comes up, whatever else happens and is done.
pub proof fn members_stay_until_released(
    s: MapperState,
    event: InputEvent,
    code: KeyCode,
    actions: Seq<Action>,
    k: KeyCode,
)
    requires
        s.chord_keys.contains_key(k),
        k != code || event.value != 0,
    ensures
        s.taken_in(event, code).done_all(actions).chord_keys.contains_key(k),
{
    actions_keep_desired_keys(s.taken_in(event, code), actions);
}

/// A well-formed mapper stays well formed, whatever happens and is done.
pub proof fn well_formedness_is_kept(
    s: MapperState,
    event: InputEvent,
    code: KeyCode,
    actions: Seq<Action>,
)
    requires
        s.wf(),
    ensures
        s.taken_in(event, code).wf(),
        s.taken_in(event, code).done_all(actions).wf(),
{
    let taken = s.taken_in(event, code);
    match KeyEventType::spec_from_value(event.value) {
        KeyEventType::Release => if s.held.contains_key(code) {
            let up = s.with_key_up(code);
            assert(up.members_fit());
            lemma_settled_is_well_formed(up);
        },
        KeyEventType::Press => {
            let held = MapperState { held: s.held.insert(code, event.time), ..s };
            let down = s.with_key_down(code, event.time);
            mapping_fits_key(held, code);
            assert forall|k: KeyCode| #[trigger] down.chord_keys.contains_key(
                k,
            ) implies model::is_input(down.mappings, k) by {
                if !s.chord_keys.contains_key(k) {
                    let i = choose|i: int|
                        model::is_best_chord(held.mappings, held.held.dom(), code, i);
                    assert(model::takes(down.mappings[i], k));
                }
            }
            assert forall|k: KeyCode| down.chord_keys.dom().contains(
                k,
            ) implies down.held.dom().contains(k) && !down.is_modifier(k) by {
                if !s.chord_keys.contains_key(k) && k != code {
                    let i = choose|i: int|
                        model::is_best_chord(held.mappings, held.held.dom(), code, i);
                    assert(held.mappings[i]->Remap_input.remove(code).contains(k));
                }
            }
            assert(down.members_fit());
            lemma_settled_is_well_formed(down);
        },
        _ => {
            desired_keys_depend_on_input(s, taken);
        },
    }
    actions_keep_desired_keys(taken, actions);
}

proof fn lemma_settled_is_well_formed(s: MapperState)
    requires
        s.members_fit(),
    ensures
        s.settled().wf(),
{
    let t = s.settled();
    membership_keeps_chords_firing(s);
    assert forall|k: KeyCode| #[trigger] t.chord_keys.contains_key(k) implies model::is_input(
        t.mappings,
        k,
    ) by {
        if s.consumed_keys().contains(k) {
            let i = choose|i: int| #[trigger] s.consumes(i, k);
            assert(model::takes(s.mappings[i], k));
        }
    }
}

/// The keys that are left when the first `i` mappings have given dual-role keys their role.
pub open spec fn roles_given(s: MapperState, i: int) -> Set<KeyCode> {
    model::hold_roles(s.mappings.take(i), s.visible_keys())
}

/// The mapping gives `k` a dual role.
pub open spec fn gives_role(mapping: MappingView, k: KeyCode) -> bool {
    match mapping {
        MappingView::DualRole { input, hold, tap } => input == k,
        _ => false,
    }
}

/// A dual-role key that is down acts as the keys that it stands for while held, as far as no
/// later mapping gives these a role of their own.
pub proof fn held_key_plays_its_role(s: MapperState, i: int, k: KeyCode)
    requires
        0 <= i < s.mappings.len(),
        s.mappings[i] matches MappingView::DualRole { input, hold, tap } && roles_given(
            s,
            i,
        ).contains(input) && hold.contains(k),
        forall|n: int| i < n < s.mappings.len() ==> !gives_role(#[trigger] s.mappings[n], k),
    ensures
        model::hold_roles(s.mappings, s.visible_keys()).contains(k),
{
    let next = s.mappings.take(i + 1);
    assert(next.drop_last() == s.mappings.take(i));
    assert(next.last() == s.mappings[i]);
    assert(s.mappings[i]->hold.to_set().contains(k));
    assert(roles_given(s, i + 1).contains(k));
    lemma_role_stays(s, i + 1, s.mappings.len() as int, k);
    assert(s.mappings.take(s.mappings.len() as int) == s.mappings);
}

proof fn lemma_role_stays(s: MapperState, i: int, j: int, k: KeyCode)
    requires
        0 <= i <= j <= s.mappings.len(),
        roles_given(s, i).contains(k),
        forall|n: int| i <= n < j ==> !gives_role(#[trigger] s.mappings[n], k),
    ensures
        roles_given(s, j).contains(k),
    decreases j - i,
{
    if i < j {
        lemma_role_stays(s, i, j - 1, k);
        let next = s.mappings.take(j);
        assert(next.drop_last() == s.mappings.take(j - 1));
        assert(next.last() == s.mappings[j - 1]);
        assert(!gives_role(s.mappings[j - 1], k));
    }
}

/// A held key that counts is desired, if no mapping gives it a dual role or takes it.
pub proof fn unmapped_key_passes(s: MapperState, k: KeyCode)
    requires
        s.wf(),
        s.visible_keys().contains(k),
        forall|n: int|
            0 <= n < s.mappings.len() ==> !gives_role(#[trigger] s.mappings[n], k) && !model::takes(
                s.mappings[n],
                k,
            ),
    ensures
        s.desired_keys().contains(k),
{
    assert(s.mappings.take(0) =~= Seq::<MappingView>::empty());
    assert(s.mappings.take(s.mappings.len() as int) == s.mappings);
    lemma_role_stays(s, 0, s.mappings.len() as int, k);
    lemma_stays_won(s, 0, s.mappings.len() as int, k);
    if s.chord_keys.contains_key(k) {
        assert(model::is_input(s.mappings, k));
    }
}

/// Without mappings, the desired keys are the held ones.
pub proof fn without_mappings_keys_pass(s: MapperState)
    requires
        s.wf(),
        s.mappings.len() == 0,
    ensures
        s.desired_keys() == s.held.dom(),
{
    assert forall|m: KeyCode| !#[trigger] s.holds_modifier(m) by {}
    assert(s.visible_keys() =~= s.held.dom());
    assert(s.mappings.take(0) =~= s.mappings);
    assert forall|k: KeyCode| !#[trigger] s.chord_keys.contains_key(k) by {
        if s.chord_keys.contains_key(k) {
            assert(model::is_input(s.mappings, k));
        }
    }
    assert(s.desired_keys() =~= s.held.dom());
}

/// When nothing is held, nothing is desired, unless a mapping asks for no input at all: no key
/// gets stuck in the output device.
pub proof fn nothing_held_nothing_desired(s: MapperState)
    requires
        s.held.dom() == Set::<KeyCode>::empty(),
        forall|i: int|
            0 <= i < s.mappings.len() ==> (#[trigger] s.mappings[i] matches MappingView::Remap {
                input,
                output,
            } ==> input != Set::<KeyCode>::empty()),
    ensures
        s.desired_keys() == Set::<KeyCode>::empty(),
{
    assert(s.visible_keys() =~= Set::<KeyCode>::empty());
    lemma_no_roles(s.mappings);
    lemma_no_remapping(s.mappings, s.members_by(Membership::Mapped), s.modifier_keys);
    assert(s.mappings.take(s.mappings.len() as int) == s.mappings);
    assert(s.desired_keys() =~= Set::<KeyCode>::empty());
}

proof fn lemma_no_roles(mappings: Seq<MappingView>)
    ensures
        model::hold_roles(mappings, Set::empty()) == Set::<KeyCode>::empty(),
    decreases mappings.len(),
{
    if mappings.len() > 0 {
        lemma_no_roles(mappings.drop_last());
    }
}

proof fn lemma_no_remapping(
    mappings: Seq<MappingView>,
    chord_keys: Set<KeyCode>,
    modifier_keys: Set<KeyCode>,
)
    requires
        forall|i: int|
            0 <= i < mappings.len() ==> (#[trigger] mappings[i] matches MappingView::Remap {
                input,
                output,
            } ==> input != Set::<KeyCode>::empty()),
    ensures
        model::remap_all(mappings, chord_keys, modifier_keys, Set::empty()) == (model::Remapping {
            keys: Set::empty(),
            available: Set::empty(),
        }),
    decreases mappings.len(),
{
    if mappings.len() > 0 {
        lemma_no_remapping(mappings.drop_last(), chord_keys, modifier_keys);
        assert(mappings.last() == mappings[mappings.len() - 1]);
        match mappings.last() {
            MappingView::Remap { input, output } => {
                if input.subset_of(Set::empty()) {
                    assert(input =~= Set::<KeyCode>::empty());
                }
                let broken = input.intersect(chord_keys).difference(modifier_keys);
                assert(Set::<KeyCode>::empty().difference(broken) =~= Set::<KeyCode>::empty());
            },
            _ => {},
        }
    }
}

/// Once the last held key has come up and everything has been done about it, no key is left down
/// in the output device, unless a mapping asks for no input at all.
pub proof fn last_release_leaves_all_up(
    s: MapperState,
    event: InputEvent,
    code: KeyCode,
    actions: Seq<Action>,
)
    requires
        event.value == 0,
        s.held.dom() == Set::<KeyCode>::empty().insert(code),
        forall|i: int|
            0 <= i < s.mappings.len() ==> (#[trigger] s.mappings[i] matches MappingView::Remap {
                input,
                output,
            } ==> input != Set::<KeyCode>::empty()),
        s.answers(event, code, actions),
    ensures
        s.taken_in(event, code).done_all(actions).output_keys == Set::<KeyCode>::empty(),
{
    let released = s.with_released(code);
    assert(released.held.dom() =~= Set::<KeyCode>::empty());
    nothing_held_nothing_desired(released);
    release_reaches_desired_keys(s, event, code, actions);
    let after = s.taken_in(event, code).done_all(actions);
    assert(after.output_keys.subset_of(released.desired_keys()));
    assert(after.output_keys =~= Set::<KeyCode>::empty());
}

/// Every desired key is one that the output device has been given, if the held keys are ones
/// that the input device has.
pub proof fn desired_keys_are_on_device(s: MapperState, supported: Set<KeyCode>)
    requires
        s.held.dom().subset_of(supported),
    ensures
        s.desired_keys().subset_of(model::device_keys(supported, s.mappings)),
{
    let device = model::device_keys(supported, s.mappings);
    assert(s.visible_keys().subset_of(device));
    lemma_roles_on_device(s.mappings, s.visible_keys(), device);
    lemma_remapping_on_device(
        s.mappings,
        s.members_by(Membership::Mapped),
        s.modifier_keys,
        model::hold_roles(s.mappings, s.visible_keys()),
        device,
    );
    assert(s.mappings.take(s.mappings.len() as int) == s.mappings);
}

proof fn lemma_roles_on_device(mappings: Seq<MappingView>, keys: Set<KeyCode>, device: Set<KeyCode>)
    requires
        keys.subset_of(device),
        forall|i: int, k: KeyCode|
            0 <= i < mappings.len() && #[trigger] model::mentions_output(mappings[i], k)
                ==> device.contains(k),
    ensures
        model::hold_roles(mappings, keys).subset_of(device),
    decreases mappings.len(),
{
    if mappings.len() > 0 {
        let front = mappings.drop_last();
        assert forall|i: int, k: KeyCode|
            0 <= i < front.len() && #[trigger] model::mentions_output(front[i], k) implies device.contains(
            k,
        ) by {
            assert(model::mentions_output(mappings[i], k));
        }
        lemma_roles_on_device(front, keys, device);
        let last = mappings.last();
        assert forall|k: KeyCode| model::hold_roles(mappings, keys).contains(k) implies device.contains(
            k,
        ) by {
            if !model::hold_roles(front, keys).contains(k) {
                assert(model::mentions_output(mappings[mappings.len() - 1], k));
            }
        }
    }
}

proof fn lemma_remapping_on_device(
    mappings: Seq<MappingView>,
    chord_keys: Set<KeyCode>,
    modifier_keys: Set<KeyCode>,
    keys: Set<KeyCode>,
    device: Set<KeyCode>,
)
    requires
        keys.subset_of(device),
        forall|i: int, k: KeyCode|
            0 <= i < mappings.len() && #[trigger] model::mentions_output(mappings[i], k)
                ==> device.contains(k),
    ensures
        model::remap_all(mappings, chord_keys, modifier_keys, keys).keys.subset_of(device),
    decreases mappings.len(),
{
    if mappings.len() > 0 {
        let front = mappings.drop_last();
        assert forall|i: int, k: KeyCode|
            0 <= i < front.len() && #[trigger] model::mentions_output(front[i], k) implies device.contains(
            k,
        ) by {
            assert(model::mentions_output(mappings[i], k));
        }
        lemma_remapping_on_device(front, chord_keys, modifier_keys, keys, device);
        let before = model::remap_all(front, chord_keys, modifier_keys, keys);
        let after = model::remap_all(mappings, chord_keys, modifier_keys, keys);
        assert forall|k: KeyCode| after.keys.contains(k) implies device.contains(k) by {
            if !before.keys.contains(k) {
                assert(model::mentions_output(mappings[mappings.len() - 1], k));
            }
        }
    }
}

/// Every event that is written about a key is about one that the output device has been given,
/// if the events and the held keys are about ones that the input device has, and the keys that
/// are down in the output device are its own.
pub proof fn written_keys_are_on_device(
    s: MapperState,
    supported: Set<KeyCode>,
    event: InputEvent,
    code: KeyCode,
    actions: Seq<Action>,
    i: int,
)
    requires
        s.answers(event, code, actions),
        s.held.dom().subset_of(supported),
        s.output_keys.subset_of(model::device_keys(supported, s.mappings)),
        supported.contains(code),
        event.spec_key() matches Some(k) ==> supported.contains(k),
        0 <= i < actions.len(),
    ensures
        actions[i] matches Action::Write(written) ==> (written.spec_key() matches Some(k)
            ==> model::device_keys(supported, s.mappings).contains(k)),
{
    let device = model::device_keys(supported, s.mappings);
    let time = event.time as int;
    let further = s.further_actions(event, code);
    lemma_further_on_device(s, supported, event, code);
    if s.calls_for_sync(event, code) {
        let taken = s.taken_in(event, code);
        let sync = choose|sync: Seq<Action>| #[trigger]
            taken.syncs(time, sync) && actions == sync + further;
        let (released, pressed) = choose|released: Seq<KeyCode>, pressed: Seq<KeyCode>| #[trigger]
            taken.syncs_by(time, sync, released, pressed);
        assert(taken.held.dom().subset_of(supported));
        desired_keys_are_on_device(taken, supported);
        if i < released.len() {
            assert(released.contains(released[i]));
        } else if i < sync.len() {
            assert(pressed.contains(pressed[i - released.len()]));
        } else {
            assert(actions[i] == further[i - sync.len()]);
        }
    }
}

/// The keys that are down in the output device stay ones that it has been given, however much of
/// what is to be done about an event is carried out.
pub proof fn output_keys_stay_on_device(
    s: MapperState,
    supported: Set<KeyCode>,
    event: InputEvent,
    code: KeyCode,
    actions: Seq<Action>,
    n: int,
)
    requires
        s.answers(event, code, actions),
        s.held.dom().subset_of(supported),
        s.output_keys.subset_of(model::device_keys(supported, s.mappings)),
        supported.contains(code),
        event.spec_key() matches Some(k) ==> supported.contains(k),
        0 <= n <= actions.len(),
    ensures
        ({
            let after = s.taken_in(event, code).done_all(actions.take(n));
            &&& after.held.dom().subset_of(supported)
            &&& after.output_keys.subset_of(model::device_keys(supported, after.mappings))
        }),
    decreases n,
{
    let taken = s.taken_in(event, code);
    actions_keep_desired_keys(taken, actions.take(n));
    assert(taken.held.dom().subset_of(supported));
    if n > 0 {
        output_keys_stay_on_device(s, supported, event, code, actions, n - 1);
        written_keys_are_on_device(s, supported, event, code, actions, n - 1);
        assert(actions.take(n).drop_last() == actions.take(n - 1));
        assert(actions.take(n).last() == actions[n - 1]);
        actions_keep_desired_keys(taken, actions.take(n - 1));
    }
}

proof fn lemma_further_on_device(
    s: MapperState,
    supported: Set<KeyCode>,
    event: InputEvent,
    code: KeyCode,
)
    requires
        supported.contains(code),
        event.spec_key() matches Some(k) ==> supported.contains(k),
    ensures
        forall|i: int|
            0 <= i < s.further_actions(event, code).len() ==> (#[trigger] s.further_actions(
                event,
                code,
            )[i] matches Action::Write(written) ==> (written.spec_key() matches Some(k)
                ==> model::device_keys(supported, s.mappings).contains(k))),
{
    let device = model::device_keys(supported, s.mappings);
    let further = s.further_actions(event, code);
    assert forall|i: int| 0 <= i < further.len() implies (#[trigger] further[i] matches Action::Write(
        written,
    ) ==> (written.spec_key() matches Some(k) ==> device.contains(k))) by {
        match KeyEventType::spec_from_value(event.value) {
            KeyEventType::Release => if s.held.contains_key(code) {
                match (s.dual_role_mapping(code), s.tapping) {
                    (Some(MappingView::DualRole { input, hold, tap }), Some(tapping)) => {
                        let j = choose|j: int| model::is_first_dual_role(s.mappings, code, j);
                        assert(forall|n: int|
                            0 <= n < tap.len() ==> tap.contains(#[trigger] tap[n]));
                        assert(forall|k: KeyCode|
                            tap.contains(k) ==> #[trigger] model::mentions_output(s.mappings[j], k));
                        if 1 <= i < 1 + tap.len() {
                            assert(model::mentions_output(s.mappings[j], tap[i - 1]));
                        } else if i >= 1 + tap.len() {
                            assert(model::mentions_output(s.mappings[j], tap[i - 1 - tap.len()]));
                        }
                    },
                    _ => {},
                }
            },
            KeyEventType::Repeat => match s.mapping_for(code) {
                Some(MappingView::DualRole { input, hold, tap }) => {
                    mapping_fits_key(s, code);
                    assert(s.dual_role_mapping(code) is Some);
                    let j = choose|j: int| model::is_first_dual_role(s.mappings, code, j);
                    assert(hold.contains(hold[i]));
                    assert(model::mentions_output(s.mappings[j], hold[i]));
                },
                _ => {},
            },
            _ => {},
        }
    }
}

/// What a run of events has written is what each turn has written, one after the other. Each turn
/// answers its event in the state that the earlier ones have left; an event that is no key event
/// is passed on unchanged, and changes nothing.
pub proof fn run_goes_turn_by_turn(
    s: MapperState,
    events: Seq<InputEvent>,
    turns: Seq<Seq<Action>>,
    i: int,
)
    requires
        s.answers_run(events, turns),
        0 <= i < events.len(),
    ensures
        ({
            let before = s.after_run(events.take(i), turns.take(i));
            let after = s.after_run(events.take(i + 1), turns.take(i + 1));
            &&& model::written_in_run(turns.take(i + 1)) == model::written_in_run(turns.take(i))
                + model::written(turns[i])
            &&& match events[i].spec_key() {
                Some(code) => {
                    &&& before.answers(events[i], code, turns[i])
                    &&& after == before.taken_in(events[i], code).done_all(turns[i])
                },
                None => model::written(turns[i]) == seq![events[i]] && after == before,
            }
        }),
{
    lemma_run_prefix(s, events, turns, i + 1);
    let so_far = events.take(i + 1);
    let turns_so_far = turns.take(i + 1);
    assert(so_far.drop_last() =~= events.take(i));
    assert(turns_so_far.drop_last() =~= turns.take(i));
    if events[i].spec_key() is None {
        let before = s.after_run(events.take(i), turns.take(i));
        let pass = turns[i];
        assert(pass.drop_last() =~= Seq::<Action>::empty());
        assert(before.done_all(pass.drop_last()) == before);
        assert(before.done_all(pass) == before.done(pass.last()));
        assert(model::written(pass.drop_last()) =~= Seq::<InputEvent>::empty());
        assert(model::written(pass) =~= seq![events[i]]);
    }
}

/// The beginning of a run is a run.
proof fn lemma_run_prefix(
    s: MapperState,
    events: Seq<InputEvent>,
    turns: Seq<Seq<Action>>,
    n: int,
)
    requires
        s.answers_run(events, turns),
        0 <= n <= events.len(),
    ensures
        s.answers_run(events.take(n), turns.take(n)),
    decreases events.len(),
{
    if n == events.len() {
        assert(events.take(n) =~= events);
        assert(turns.take(n) =~= turns);
    } else {
        lemma_run_prefix(s, events.drop_last(), turns.drop_last(), n);
        assert(events.drop_last().take(n) =~= events.take(n));
        assert(turns.drop_last().take(n) =~= turns.take(n));
    }
}

/// One run after another is one run of both.
pub proof fn runs_compose(
    s: MapperState,
    events: Seq<InputEvent>,
    turns: Seq<Seq<Action>>,
    more_events: Seq<InputEvent>,
    more_turns: Seq<Seq<Action>>,
)
    requires
        events.len() == turns.len(),
        more_events.len() == more_turns.len(),
    ensures
        s.answers_run(events + more_events, turns + more_turns) <==> s.answers_run(events, turns)
            && s.after_run(events, turns).answers_run(more_events, more_turns),
        s.after_run(events + more_events, turns + more_turns) == s.after_run(
            events,
            turns,
        ).after_run(more_events, more_turns),
        model::written_in_run(turns + more_turns) == model::written_in_run(turns)
            + model::written_in_run(more_turns),
    decreases more_events.len(),
{
    if more_events.len() == 0 {
        assert(events + more_events =~= events);
        assert(turns + more_turns =~= turns);
        assert(model::written_in_run(turns) + model::written_in_run(more_turns)
            =~= model::written_in_run(turns));
    } else {
        runs_compose(s, events, turns, more_events.drop_last(), more_turns.drop_last());
        assert((events + more_events).drop_last() =~= events + more_events.drop_last());
        assert((turns + more_turns).drop_last() =~= turns + more_turns.drop_last());
        assert((events + more_events).last() == more_events.last());
        assert((turns + more_turns).last() == more_turns.last());
        assert(model::written_in_run(turns + more_turns) =~= model::written_in_run(turns)
            + model::written_in_run(more_turns));
    }
}

/// A well-formed mapper stays well formed through any run; and a member of a chord stays one
/// through a run in which it does not come up, and is not desired at the end of it if no mapping
/// puts it out.
pub proof fn members_stay_through_run(
    s: MapperState,
    events: Seq<InputEvent>,
    turns: Seq<Seq<Action>>,
    k: KeyCode,
)
    requires
        s.wf(),
        events.len() == turns.len(),
    ensures
        ({
            let after = s.after_run(events, turns);
            &&& after.wf()
            &&& after.mappings == s.mappings
            &&& s.chord_keys.contains_key(k) && (forall|i: int|
                0 <= i < events.len() ==> !comes_up(#[trigger] events[i], k)) ==> {
                &&& after.chord_keys.contains_key(k)
                &&& (forall|n: int|
                    0 <= n < s.mappings.len() ==> !model::puts_out(#[trigger] s.mappings[n], k))
                    ==> !after.desired_keys().contains(k)
            }
        }),
    decreases events.len(),
{
    let after = s.after_run(events, turns);
    if events.len() > 0 {
        let before = s.after_run(events.drop_last(), turns.drop_last());
        members_stay_through_run(s, events.drop_last(), turns.drop_last(), k);
        let event = events.last();
        assert(event == events[events.len() - 1]);
        actions_keep_desired_keys(before.read(event), turns.last());
        if let Some(code) = event.spec_key() {
            well_formedness_is_kept(before, event, code, turns.last());
        }
        if s.chord_keys.contains_key(k) && forall|i: int|
            0 <= i < events.len() ==> !comes_up(#[trigger] events[i], k) {
            assert forall|i: int| 0 <= i < events.drop_last().len() implies !comes_up(
                #[trigger] events.drop_last()[i],
                k,
            ) by {
                assert(!comes_up(events[i], k));
            }
            assert(!comes_up(event, k));
            assert(after.chord_keys.contains_key(k));
        }
    }
    if after.chord_keys.contains_key(k) && forall|n: int|
        0 <= n < s.mappings.len() ==> !model::puts_out(#[trigger] s.mappings[n], k) {
        members_are_not_desired(after, k);
    }
}

/// The event says that `k` comes up.
pub open spec fn comes_up(event: InputEvent, k: KeyCode) -> bool {
    event.spec_key() == Some(k) && event.value == 0
}

} // verus!

//! What holds of events, their timestamps, and lists of keys.
use crate::event;
use crate::event::{InputEvent, KeyCode, KeyEventType, Span};
use crate::keys;
use vstd::prelude::*;

verus! {

/// A value field says release, press and repeat by 0, 1 and 2, and by nothing else; any other value
/// is unknown and kept.
pub proof fn value_field_meaning(value: i32)
    ensures
        KeyEventType::spec_from_value(value) is Release <==> value == 0,
        KeyEventType::spec_from_value(value) is Press <==> value == 1,
        KeyEventType::spec_from_value(value) is Repeat <==> value == 2,
        KeyEventType::spec_from_value(value) matches KeyEventType::Unknown(n) ==> n == value,
{
}

/// Different value fields say different things.
pub proof fn values_are_told_apart(a: i32, b: i32)
    requires
        a != b,
    ensures
        KeyEventType::spec_from_value(a) != KeyEventType::spec_from_value(b),
{
}

/// An event is about a key exactly if its type is that of key events, and then about the key that
/// its code names, whatever its value and its moment.
pub proof fn event_names_its_key(event: InputEvent, k: KeyCode)
    ensures
        event.spec_key() == Some(k) <==> event.event_type == 1 && event.code == k,
        event.spec_key() is None <==> event.event_type != 1,
{
}

/// Stamping a moment after the epoch, or at least a second before it, moves it toward the epoch, by
/// less than a microsecond, to a whole number of microseconds.
pub proof fn stamp_loses_less_than_a_microsecond(time: int)
    ensures
        event::stamped(time) % 1000 == 0,
        time >= 0 ==> 0 <= time - event::stamped(time) < 1000,
        time <= -1_000_000_000 ==> 0 <= event::stamped(time) - time < 1000,
{
    let magnitude = if time < 0 { -time } else { time };
    assert((magnitude - magnitude % 1000) % 1000 == 0);
    assert((-(magnitude - magnitude % 1000)) % 1000 == 0);
}

/// Less than a second before the epoch reads as that long after it.
pub proof fn stamp_just_before_epoch(time: int)
    requires
        -1_000_000_000 < time < 0,
    ensures
        event::stamped(time) == event::stamped(-time),
{
}

/// Of two moments on the same side of the epoch, the earlier one is not stamped as later.
pub proof fn stamps_keep_order(a: int, b: int)
    requires
        a <= b,
        a >= 0 || b <= -1_000_000_000,
    ensures
        event::stamped(a) <= event::stamped(b),
{
    stamp_loses_less_than_a_microsecond(a);
    stamp_loses_less_than_a_microsecond(b);
}

/// Whole seconds that an `isize` holds, and any part of a second beyond them, can be stamped, on
/// both sides of the epoch.
pub proof fn every_second_can_be_stamped(secs: int, nanos: int)
    requires
        0 <= secs <= isize::MAX,
        0 <= nanos < 1_000_000_000,
    ensures
        event::is_stampable(secs * 1_000_000_000 + nanos),
        event::is_stampable(-(secs * 1_000_000_000 + nanos)),
{
}

/// A length of time counts its seconds and its nanoseconds.
pub proof fn spans_add_up(span: Span)
    ensures
        span.length() == span.secs * 1_000_000_000 + span.nanos,
        span.is_split() <==> span.nanos < 1_000_000_000,
{
}

/// An event that is made about a key is a key event about this very key, with the value that says
/// what happened to it.
pub proof fn made_event_says_what_happened(key: KeyCode, time: int, event_type: KeyEventType)
    ensures
        ({
            let made = event::spec_make_event(key, time, event_type);
            &&& made.event_type == 1
            &&& made.code == key
            &&& event_type is Release ==> made.value == 0
            &&& event_type is Press ==> made.value == 1
            &&& event_type is Repeat ==> made.value == 2
            &&& event_type matches KeyEventType::Unknown(n) ==> made.value == n
            &&& -TIME_BOUND < time < TIME_BOUND ==> made.time == event::stamped(time)
        }),
{
    if -TIME_BOUND < time < TIME_BOUND {
        let magnitude = if time < 0 { -time } else { time };
        assert(0 <= magnitude - magnitude % 1000 <= magnitude);
    }
}

/// Any moment between these bounds is one that an `i128` holds.
pub const TIME_BOUND: i128 = 0x4000_0000_0000_0000_0000_0000_0000_0000;

/// A listing of a set has a place for each of its keys, one only, and no place for another.
pub proof fn listing_has_each_key_once(list: Seq<KeyCode>, set: Set<KeyCode>, k: KeyCode)
    requires
        keys::lists(list, set),
    ensures
        set.contains(k) <==> exists|i: int| 0 <= i < list.len() && #[trigger] list[i] == k,
        forall|i: int, j: int|
            0 <= i < j < list.len() ==> #[trigger] list[i] != #[trigger] list[j],
{
    assert(list.contains(k) <==> set.contains(k));
}

/// In a list that modifiers lead, or trail, no other key stands on the far side of one.
pub proof fn modifiers_stand_together(
    list: Seq<KeyCode>,
    modifiers: Set<KeyCode>,
    i: int,
    j: int,
)
    requires
        0 <= i < j < list.len(),
    ensures
        keys::modifiers_lead(list, modifiers) && modifiers.contains(list[j])
            ==> modifiers.contains(list[i]),
        keys::modifiers_trail(list, modifiers) && modifiers.contains(list[i])
            ==> modifiers.contains(list[j]),
{
}

/// Taking the modifiers, or the other keys, out of a list goes key by key, in order.
pub proof fn splitting_goes_key_by_key(a: Seq<KeyCode>, b: Seq<KeyCode>, modifiers: Set<KeyCode>)
    ensures
        keys::modifiers_of(a + b, modifiers) == keys::modifiers_of(a, modifiers)
            + keys::modifiers_of(b, modifiers),
        keys::others_of(a + b, modifiers) == keys::others_of(a, modifiers) + keys::others_of(
            b,
            modifiers,
        ),
    decreases b.len(),
{
    reveal(Seq::filter);
    if b.len() == 0 {
        assert(a + b =~= a);
        assert(keys::modifiers_of(b, modifiers) =~= Seq::<KeyCode>::empty());
        assert(keys::others_of(b, modifiers) =~= Seq::<KeyCode>::empty());
        assert(keys::modifiers_of(a, modifiers) + Seq::<KeyCode>::empty() =~= keys::modifiers_of(
            a,
            modifiers,
        ));
        assert(keys::others_of(a, modifiers) + Seq::<KeyCode>::empty() =~= keys::others_of(
            a,
            modifiers,
        ));
    } else {
        splitting_goes_key_by_key(a, b.drop_last(), modifiers);
        assert((a + b).drop_last() =~= a + b.drop_last());
        assert((a + b).last() == b.last());
        assert(keys::modifiers_of(a + b, modifiers) =~= keys::modifiers_of(a, modifiers)
            + keys::modifiers_of(b, modifiers));
        assert(keys::others_of(a + b, modifiers) =~= keys::others_of(a, modifiers)
            + keys::others_of(b, modifiers));
    }
}

/// A key goes with the modifiers exactly if it is one, and with the other keys otherwise.
pub proof fn each_key_goes_to_one_part(k: KeyCode, modifiers: Set<KeyCode>)
    ensures
        keys::modifiers_of(seq![k], modifiers) == (if modifiers.contains(k) {
            seq![k]
        } else {
            seq![]
        }),
        keys::others_of(seq![k], modifiers) == (if modifiers.contains(k) {
            seq![]
        } else {
            seq![k]
        }),
{
    reveal(Seq::filter);
    assert(seq![k].drop_last() =~= Seq::<KeyCode>::empty());
    assert(keys::modifiers_of(seq![k].drop_last(), modifiers) =~= Seq::<KeyCode>::empty());
    assert(keys::others_of(seq![k].drop_last(), modifiers) =~= Seq::<KeyCode>::empty());
    assert(keys::modifiers_of(seq![k], modifiers) =~= if modifiers.contains(k) {
        seq![k]
    } else {
        seq![]
    });
    assert(keys::others_of(seq![k], modifiers) =~= if modifiers.contains(k) {
        seq![]
    } else {
        seq![k]
    });
}

/// Sorting a list, either way, keeps each key as often as it occurs.
pub proof fn sorting_keeps_every_key(list: Seq<KeyCode>, modifiers: Set<KeyCode>)
    ensures
        (keys::modifiers_of(list, modifiers) + keys::others_of(list, modifiers)).to_multiset()
            == list.to_multiset(),
        (keys::others_of(list, modifiers) + keys::modifiers_of(list, modifiers)).to_multiset()
            == list.to_multiset(),
    decreases list.len(),
{
    broadcast use vstd::seq_lib::group_to_multiset_ensures;

    let first = keys::modifiers_of(list, modifiers);
    let second = keys::others_of(list, modifiers);
    vstd::seq_lib::lemma_multiset_commutative(first, second);
    vstd::seq_lib::lemma_multiset_commutative(second, first);
    if list.len() == 0 {
        reveal(Seq::filter);
        assert(first + second =~= list);
    } else {
        let front = list.drop_last();
        let k = list.last();
        sorting_keeps_every_key(front, modifiers);
        splitting_goes_key_by_key(front, seq![k], modifiers);
        each_key_goes_to_one_part(k, modifiers);
        assert(front + seq![k] =~= list);
        assert(front.push(k) =~= list);
        let a = keys::modifiers_of(front, modifiers);
        let b = keys::others_of(front, modifiers);
        vstd::seq_lib::lemma_multiset_commutative(a, b);
        if modifiers.contains(k) {
            assert(first =~= a.push(k));
            assert(second =~= b);
        } else {
            assert(first =~= a);
            assert(second =~= b.push(k));
        }
        assert((first + second).to_multiset() =~= list.to_multiset());
        assert((second + first).to_multiset() =~= list.to_multiset());
    }
}

} // verus!

//! What holds of the keys that a mapper wants pressed, and of the mappings that it finds.
use crate::event::KeyCode;
use crate::laws;
use crate::mapping::MappingView;
use crate::model;
use crate::model::{MapperState, Membership};
use vstd::prelude::*;

verus! {

/// `k` is among the keys that the mapping remaps.
pub open spec fn in_input(mapping: MappingView, k: KeyCode) -> bool {
    mapping matches MappingView::Remap { input, output } && input.contains(k)
}

/// `k` is among the keys that the mapping remaps to.
pub open spec fn in_output(mapping: MappingView, k: KeyCode) -> bool {
    mapping matches MappingView::Remap { input, output } && output.contains(k)
}

/// `k` is on either side of the chord.
pub open spec fn on_a_side(mapping: MappingView, k: KeyCode) -> bool {
    in_input(mapping, k) || in_output(mapping, k)
}

/// `k` is the key that the mapping gives a dual role.
pub open spec fn is_dual(mapping: MappingView, k: KeyCode) -> bool {
    mapping matches MappingView::DualRole { input, hold, tap } && input == k
}

/// `k` is among the keys that the mapping's dual-role key stands for while held.
pub open spec fn in_hold(mapping: MappingView, k: KeyCode) -> bool {
    mapping matches MappingView::DualRole { input, hold, tap } && hold.contains(k)
}

// Which of the held keys count.

/// A held key that went down later than some held modifier counts, however much later.
pub proof fn later_key_counts(s: MapperState, m: KeyCode, k: KeyCode)
    requires
        s.held.contains_key(m),
        s.modifier_keys.contains(m),
        s.held.contains_key(k),
        s.held[m] < s.held[k],
    ensures
        s.visible_keys().contains(k),
{
    assert(s.holds_modifier(m));
}

/// Every held key counts while no modifier is held.
pub proof fn every_key_counts_without_modifiers(s: MapperState, k: KeyCode)
    requires
        s.held.contains_key(k),
        s.held.dom().disjoint(s.modifier_keys),
    ensures
        s.visible_keys().contains(k),
{
    assert forall|m: KeyCode| !#[trigger] s.holds_modifier(m) by {
        assert(!(s.held.dom().contains(m) && s.modifier_keys.contains(m)));
    }
}

/// A held modifier counts, whenever it went down.
pub proof fn held_modifier_counts(s: MapperState, m: KeyCode)
    requires
        s.held.contains_key(m),
        s.modifier_keys.contains(m),
    ensures
        s.visible_keys().contains(m),
{
}

/// Nothing counts but held keys; and of these, no key that is no modifier and went down no later
/// than every held modifier, if there is one.
pub proof fn earlier_key_does_not_count(s: MapperState, m: KeyCode, k: KeyCode)
    requires
        !s.held.contains_key(k) || {
            &&& !s.modifier_keys.contains(k)
            &&& s.held.contains_key(m) && s.modifier_keys.contains(m)
            &&& forall|n: KeyCode| #[trigger]
                s.held.contains_key(n) && s.modifier_keys.contains(n) ==> s.held[k] <= s.held[n]
        },
    ensures
        !s.visible_keys().contains(k),
{
    if s.held.contains_key(k) {
        assert(s.holds_modifier(m));
        assert forall|n: KeyCode| #[trigger] s.holds_modifier(n) implies s.held[k] <= s.held[n] by {
            assert(s.held.contains_key(n));
        }
    }
}

/// Only the order in which the held keys went down matters, not how much time lies between them.
pub proof fn only_the_order_of_presses_matters(s: MapperState, t: MapperState)
    requires
        t == (MapperState { held: t.held, ..s }),
        s.held.dom() == t.held.dom(),
        forall|a: KeyCode, b: KeyCode|
            s.held.contains_key(a) && s.held.contains_key(b) ==> (#[trigger] s.held[a]
                < #[trigger] s.held[b] <==> t.held[a] < t.held[b]),
    ensures
        s.visible_keys() == t.visible_keys(),
        s.desired_keys() == t.desired_keys(),
{
    assert(forall|k: KeyCode| s.held.contains_key(k) <==> #[trigger] t.held.contains_key(k)) by {
        assert(forall|k: KeyCode|
            s.held.dom().contains(k) <==> #[trigger] t.held.dom().contains(k));
    }
    assert forall|k: KeyCode| #[trigger]
        s.visible_keys().contains(k) <==> t.visible_keys().contains(k) by {
        assert(forall|m: KeyCode| #[trigger] s.holds_modifier(m) <==> t.holds_modifier(m));
        assert(forall|m: KeyCode| #[trigger] t.holds_modifier(m) <==> s.holds_modifier(m));
        if s.held.contains_key(k) {
            assert forall|m: KeyCode| s.holds_modifier(m) implies (s.held[m] < s.held[k]
                <==> t.held[m] < t.held[k]) by {}
        }
    }
    assert(s.visible_keys() =~= t.visible_keys());
    assert(forall|i: int| #[trigger] s.remapping(i) == t.remapping(i));
    assert(forall|i: int| #[trigger] s.fires(i) == t.fires(i));
    assert(forall|i: int, k: KeyCode| #[trigger] s.supplies(i, k) == t.supplies(i, k));
    assert(forall|i: int, k: KeyCode| #[trigger] t.supplies(i, k) == s.supplies(i, k));
    assert(s.members_by(Membership::Consumed) =~= t.members_by(Membership::Consumed));
    assert(s.suppressed_keys() =~= t.suppressed_keys());
}

// The roles of dual-role keys.

/// The key of the dual-role mapping with index `i` is there when the mapping's turn comes.
pub open spec fn acts(s: MapperState, i: int) -> bool {
    0 <= i < s.mappings.len() && (s.mappings[i] matches MappingView::DualRole { input, hold, tap }
        && laws::roles_given(s, i).contains(input))
}

/// The dual-role mapping with index `i` has `k` held.
pub open spec fn lends(s: MapperState, i: int, k: KeyCode) -> bool {
    acts(s, i) && in_hold(s.mappings[i], k)
}

/// The dual-role mapping with index `i` replaces `k`, and does not bring it back.
pub open spec fn replaces(s: MapperState, i: int, k: KeyCode) -> bool {
    acts(s, i) && is_dual(s.mappings[i], k) && !in_hold(s.mappings[i], k)
}

/// No mapping from `i` to before `n` replaces `k`.
pub open spec fn unreplaced(s: MapperState, i: int, n: int, k: KeyCode) -> bool {
    forall|j: int| i <= j < n ==> !#[trigger] replaces(s, j, k)
}

/// The keys that are there once the first `n` mappings have given roles are those that count or
/// that a dual-role key stands for, and that no dual-role mapping has replaced since.
pub proof fn roles_are_given_in_order(s: MapperState, n: int, k: KeyCode)
    requires
        0 <= n <= s.mappings.len(),
    ensures
        laws::roles_given(s, n).contains(k) <==> {
            ||| s.visible_keys().contains(k) && unreplaced(s, 0, n, k)
            ||| exists|i: int| 0 <= i < n && #[trigger] lends(s, i, k) && unreplaced(s, i, n, k)
        },
    decreases n,
{
    if n == 0 {
        assert(s.mappings.take(0) =~= Seq::<MappingView>::empty());
    } else {
        let m = n - 1;
        roles_are_given_in_order(s, m, k);
        let next = s.mappings.take(n);
        assert(next.drop_last() =~= s.mappings.take(m));
        assert(next.last() == s.mappings[m]);
        assert(laws::roles_given(s, n).contains(k) <==> lends(s, m, k) || (laws::roles_given(
            s,
            m,
        ).contains(k) && !replaces(s, m, k)));
        if laws::roles_given(s, n).contains(k) {
            if lends(s, m, k) {
                assert(unreplaced(s, m, n, k));
            } else if s.visible_keys().contains(k) && unreplaced(s, 0, m, k) {
                assert(unreplaced(s, 0, n, k));
            } else {
                let i = choose|i: int|
                    0 <= i < m && #[trigger] lends(s, i, k) && unreplaced(s, i, m, k);
                assert(unreplaced(s, i, n, k));
            }
        }
        if s.visible_keys().contains(k) && unreplaced(s, 0, n, k) {
            assert(unreplaced(s, 0, m, k));
            assert(!replaces(s, m, k));
        }
        if exists|i: int| 0 <= i < n && #[trigger] lends(s, i, k) && unreplaced(s, i, n, k) {
            let i = choose|i: int|
                0 <= i < n && #[trigger] lends(s, i, k) && unreplaced(s, i, n, k);
            if i < m {
                assert(unreplaced(s, i, m, k));
                assert(!replaces(s, m, k));
            }
        }
    }
}

/// The key of a dual-role mapping is gone once the mapping has had its turn, whatever its tap keys
/// are, unless the mapping or a later one has it held.
pub proof fn dual_role_key_is_replaced(s: MapperState, i: int, n: int, k: KeyCode)
    requires
        0 <= i < n <= s.mappings.len(),
        is_dual(s.mappings[i], k),
        forall|j: int| i <= j < n ==> !in_hold(#[trigger] s.mappings[j], k),
    ensures
        !laws::roles_given(s, n).contains(k),
{
    roles_are_given_in_order(s, n, k);
    roles_are_given_in_order(s, i, k);
    if laws::roles_given(s, n).contains(k) {
        assert(!in_hold(s.mappings[i], k));
        if s.visible_keys().contains(k) && unreplaced(s, 0, n, k) {
            assert(unreplaced(s, 0, i, k));
            assert(replaces(s, i, k));
        } else {
            let j = choose|j: int|
                0 <= j < n && #[trigger] lends(s, j, k) && unreplaced(s, j, n, k);
            assert(j < i) by {
                if i <= j {
                    assert(!in_hold(s.mappings[j], k));
                }
            }
            assert(unreplaced(s, j, i, k));
            assert(replaces(s, i, k));
        }
    }
}

/// A dual-role key is not desired itself, held or not, unless some mapping's hold or output names
/// it.
pub proof fn dual_role_key_is_not_desired(s: MapperState, i: int, k: KeyCode)
    requires
        0 <= i < s.mappings.len(),
        is_dual(s.mappings[i], k),
        forall|j: int|
            0 <= j < s.mappings.len() ==> !in_hold(#[trigger] s.mappings[j], k) && !in_output(
                s.mappings[j],
                k,
            ),
    ensures
        !s.desired_keys().contains(k),
{
    dual_role_key_is_replaced(s, i, s.mappings.len() as int, k);
    desired_keys_exactly(s, k);
    if s.desired_keys().contains(k) {
        let j = choose|j: int|
            0 <= j < s.mappings.len() && #[trigger] gives(s, j, k) && unlost(
                s,
                j,
                s.mappings.len() as int,
                k,
            );
        assert(!in_output(s.mappings[j], k));
    }
}

/// While a dual-role key is held and counts, what it stands for while held is desired: every key of
/// the first mapping that gives it a role, as far as no later mapping gives this key a role of its
/// own and no chord has a use for it.
pub proof fn hold_keys_are_desired(s: MapperState, i: int, code: KeyCode, k: KeyCode)
    requires
        s.wf(),
        0 <= i < s.mappings.len(),
        is_dual(s.mappings[i], code),
        in_hold(s.mappings[i], k),
        s.visible_keys().contains(code),
        forall|j: int| 0 <= j < i ==> !is_dual(#[trigger] s.mappings[j], code),
        forall|j: int| i < j < s.mappings.len() ==> !is_dual(#[trigger] s.mappings[j], k),
        forall|j: int| 0 <= j < s.mappings.len() ==> !in_input(#[trigger] s.mappings[j], k),
    ensures
        s.desired_keys().contains(k),
{
    let n = s.mappings.len() as int;
    roles_are_given_in_order(s, i, code);
    assert(unreplaced(s, 0, i, code)) by {
        assert forall|j: int| 0 <= j < i implies !#[trigger] replaces(s, j, code) by {
            assert(!is_dual(s.mappings[j], code));
        }
    }
    assert(lends(s, i, k));
    assert(unreplaced(s, i, n, k)) by {
        assert forall|j: int| i <= j < n implies !#[trigger] replaces(s, j, k) by {
            if i < j {
                assert(!is_dual(s.mappings[j], k));
            }
        }
    }
    roles_are_given_in_order(s, n, k);
    lemma_unconcerned_key_is_desired(s, k);
}

proof fn lemma_unconcerned_key_is_desired(s: MapperState, k: KeyCode)
    requires
        s.wf(),
        laws::roles_given(s, s.mappings.len() as int).contains(k),
        forall|j: int| 0 <= j < s.mappings.len() ==> !in_input(#[trigger] s.mappings[j], k),
    ensures
        s.desired_keys().contains(k),
{
    let n = s.mappings.len() as int;
    assert(unlost(s, 0, n, k)) by {
        assert forall|j: int| 0 <= j < n implies !#[trigger] loses(s, j, k) by {
            assert(!in_input(s.mappings[j], k));
        }
    }
    if s.chord_keys.contains_key(k) {
        assert(model::is_input(s.mappings, k));
        let j = choose|j: int|
            0 <= j < s.mappings.len() && model::takes(#[trigger] s.mappings[j], k);
        assert(!in_input(s.mappings[j], k));
    }
    desired_keys_exactly(s, k);
}

// Chords.

/// The chord with index `i` fires and gives `k`.
pub open spec fn gives(s: MapperState, i: int, k: KeyCode) -> bool {
    s.fires(i) && in_output(s.mappings[i], k)
}

/// The chord with index `i` fires and uses `k`.
pub open spec fn uses(s: MapperState, i: int, k: KeyCode) -> bool {
    s.fires(i) && in_input(s.mappings[i], k)
}

/// The chord with index `i` is not complete, and `k` is a member that it drops.
pub open spec fn drops(s: MapperState, i: int, k: KeyCode) -> bool {
    &&& 0 <= i < s.mappings.len()
    &&& !s.fires(i)
    &&& in_input(s.mappings[i], k)
    &&& !s.modifier_keys.contains(k)
    &&& s.chord_keys.contains_key(k)
    &&& s.chord_keys[k] == Membership::Mapped
}

/// The chord with index `i` leaves `k` to no later one.
pub open spec fn withdraws(s: MapperState, i: int, k: KeyCode) -> bool {
    drops(s, i, k) || !s.modifier_keys.contains(k) && (uses(s, i, k) || gives(s, i, k))
}

/// The chord with index `i` takes `k` out of the keys.
pub open spec fn loses(s: MapperState, i: int, k: KeyCode) -> bool {
    drops(s, i, k) || uses(s, i, k) && !gives(s, i, k)
}

/// No chord from `i` to before `n` takes `k` out of the keys.
pub open spec fn unlost(s: MapperState, i: int, n: int, k: KeyCode) -> bool {
    forall|j: int| i <= j < n ==> !#[trigger] loses(s, j, k)
}

/// A key is available to the mapping with index `n` if it is there once roles have been given and no
/// earlier chord withdraws it.
pub proof fn available_keys_exactly(s: MapperState, n: int, k: KeyCode)
    requires
        0 <= n <= s.mappings.len(),
    ensures
        s.remapping(n).available.contains(k) <==> laws::roles_given(
            s,
            s.mappings.len() as int,
        ).contains(k) && forall|j: int| 0 <= j < n ==> !#[trigger] withdraws(s, j, k),
    decreases n,
{
    assert(s.mappings.take(s.mappings.len() as int) =~= s.mappings);
    if n == 0 {
        assert(s.mappings.take(0) =~= Seq::<MappingView>::empty());
    } else {
        let m = n - 1;
        available_keys_exactly(s, m, k);
        model::lemma_remapping_next(s, m);
        assert(s.remapping(n).available.contains(k) <==> s.remapping(m).available.contains(k)
            && !withdraws(s, m, k));
    }
}

/// A chord fires exactly if each of its keys is there once roles have been given, and no earlier
/// chord withdraws it: by using or giving it, unless it is a modifier, or by dropping it as a
/// member.
pub proof fn chord_fires_exactly(s: MapperState, i: int)
    ensures
        s.fires(i) <==> {
            &&& 0 <= i < s.mappings.len()
            &&& s.mappings[i] is Remap
            &&& forall|k: KeyCode| #[trigger]
                in_input(s.mappings[i], k) ==> laws::roles_given(
                    s,
                    s.mappings.len() as int,
                ).contains(k)
            &&& forall|k: KeyCode, j: int|
                in_input(s.mappings[i], k) && 0 <= j < i ==> !#[trigger] withdraws(s, j, k)
        },
{
    if 0 <= i < s.mappings.len() && s.mappings[i] is Remap {
        let input = s.mappings[i]->Remap_input;
        let available = s.remapping(i).available;
        let all = laws::roles_given(s, s.mappings.len() as int);
        assert forall|k: KeyCode| #[trigger]
            available.contains(k) <==> all.contains(k) && forall|j: int|
                0 <= j < i ==> !#[trigger] withdraws(s, j, k) by {
            available_keys_exactly(s, i, k);
        }
        if s.fires(i) {
            assert forall|k: KeyCode| #[trigger] in_input(s.mappings[i], k) implies all.contains(
                k,
            ) by {
                assert(available.contains(k));
            }
            assert forall|k: KeyCode, j: int|
                in_input(s.mappings[i], k) && 0 <= j < i implies !#[trigger] withdraws(s, j, k) by {
                assert(available.contains(k));
            }
        }
        if (forall|k: KeyCode| #[trigger] in_input(s.mappings[i], k) ==> all.contains(k)) && (
        forall|k: KeyCode, j: int|
            in_input(s.mappings[i], k) && 0 <= j < i ==> !#[trigger] withdraws(s, j, k)) {
            assert forall|k: KeyCode| input.contains(k) implies available.contains(k) by {
                assert(in_input(s.mappings[i], k));
            }
        }
    }
}

/// The remapped keys before the mapping with index `n` are those that a chord has given, or that
/// were there to begin with, and that no chord has taken out since.
pub proof fn remapped_keys_exactly(s: MapperState, n: int, k: KeyCode)
    requires
        0 <= n <= s.mappings.len(),
    ensures
        s.remapping(n).keys.contains(k) <==> {
            ||| laws::roles_given(s, s.mappings.len() as int).contains(k) && unlost(s, 0, n, k)
            ||| exists|i: int| 0 <= i < n && #[trigger] gives(s, i, k) && unlost(s, i, n, k)
        },
    decreases n,
{
    assert(s.mappings.take(s.mappings.len() as int) =~= s.mappings);
    if n == 0 {
        assert(s.mappings.take(0) =~= Seq::<MappingView>::empty());
    } else {
        let m = n - 1;
        let all = laws::roles_given(s, s.mappings.len() as int);
        remapped_keys_exactly(s, m, k);
        model::lemma_remapping_next(s, m);
        assert(s.remapping(n).keys.contains(k) <==> gives(s, m, k) || (s.remapping(
            m,
        ).keys.contains(k) && !loses(s, m, k)));
        if s.remapping(n).keys.contains(k) {
            if gives(s, m, k) {
                assert(unlost(s, m, n, k));
            } else if all.contains(k) && unlost(s, 0, m, k) {
                assert(unlost(s, 0, n, k));
            } else {
                let i = choose|i: int|
                    0 <= i < m && #[trigger] gives(s, i, k) && unlost(s, i, m, k);
                assert(unlost(s, i, n, k));
            }
        }
        if all.contains(k) && unlost(s, 0, n, k) {
            assert(unlost(s, 0, m, k));
            assert(!loses(s, m, k));
        }
        if exists|i: int| 0 <= i < n && #[trigger] gives(s, i, k) && unlost(s, i, n, k) {
            let i = choose|i: int| 0 <= i < n && #[trigger] gives(s, i, k) && unlost(s, i, n, k);
            if i < m {
                assert(unlost(s, i, m, k));
                assert(!loses(s, m, k));
            }
        }
    }
}

/// A key is desired exactly if it was there once roles had been given, or a chord gives it, and no
/// chord takes it out afterwards; but a member that a chord has once consumed only if one gives it.
pub proof fn desired_keys_exactly(s: MapperState, k: KeyCode)
    ensures
        s.desired_keys().contains(k) <==> {
            let n = s.mappings.len() as int;
            &&& {
                ||| laws::roles_given(s, n).contains(k) && unlost(s, 0, n, k)
                ||| exists|i: int| 0 <= i < n && #[trigger] gives(s, i, k) && unlost(s, i, n, k)
            }
            &&& s.chord_keys.contains_key(k) && s.chord_keys[k] == Membership::Consumed
                ==> exists|i: int| #[trigger] gives(s, i, k)
        },
{
    remapped_keys_exactly(s, s.mappings.len() as int, k);
    if exists|i: int| #[trigger] gives(s, i, k) {
        let i = choose|i: int| #[trigger] gives(s, i, k);
        assert(s.supplies(i, k));
    }
    if exists|i: int| #[trigger] s.supplies(i, k) {
        let i = choose|i: int| #[trigger] s.supplies(i, k);
        assert(gives(s, i, k));
    }
}

/// A key that counts, has no dual role, is no member of a chord, and that no chord which fires uses
/// is desired, even if it is part of chords that are not complete.
pub proof fn unused_key_passes(s: MapperState, k: KeyCode)
    requires
        s.visible_keys().contains(k),
        forall|j: int| 0 <= j < s.mappings.len() ==> !is_dual(#[trigger] s.mappings[j], k),
        !s.chord_keys.contains_key(k),
        forall|j: int| !#[trigger] uses(s, j, k),
    ensures
        s.desired_keys().contains(k),
{
    let n = s.mappings.len() as int;
    lemma_key_without_role_is_there(s, k);
    assert(unlost(s, 0, n, k)) by {
        assert forall|j: int| 0 <= j < n implies !#[trigger] loses(s, j, k) by {
            assert(!uses(s, j, k));
        }
    }
    desired_keys_exactly(s, k);
}

proof fn lemma_key_without_role_is_there(s: MapperState, k: KeyCode)
    requires
        s.visible_keys().contains(k),
        forall|j: int| 0 <= j < s.mappings.len() ==> !is_dual(#[trigger] s.mappings[j], k),
    ensures
        laws::roles_given(s, s.mappings.len() as int).contains(k),
{
    let n = s.mappings.len() as int;
    assert(unreplaced(s, 0, n, k)) by {
        assert forall|j: int| 0 <= j < n implies !#[trigger] replaces(s, j, k) by {
            assert(!is_dual(s.mappings[j], k));
        }
    }
    roles_are_given_in_order(s, n, k);
}

/// `k` is neither held nor what some dual-role key stands for while held.
pub open spec fn is_missing(s: MapperState, k: KeyCode) -> bool {
    !s.held.contains_key(k) && forall|j: int|
        0 <= j < s.mappings.len() ==> !in_hold(#[trigger] s.mappings[j], k)
}

/// A chord with a missing key does not fire.
pub proof fn chord_with_missing_key_does_not_fire(s: MapperState, i: int, k: KeyCode)
    requires
        0 <= i < s.mappings.len(),
        in_input(s.mappings[i], k),
        is_missing(s, k),
    ensures
        !s.fires(i),
{
    let n = s.mappings.len() as int;
    chord_fires_exactly(s, i);
    roles_are_given_in_order(s, n, k);
    assert(!laws::roles_given(s, n).contains(k)) by {
        if exists|j: int| 0 <= j < n && #[trigger] lends(s, j, k) && unreplaced(s, j, n, k) {
            let j = choose|j: int| 0 <= j < n && #[trigger] lends(s, j, k);
            assert(!in_hold(s.mappings[j], k));
        }
    }
}

/// A key that counts, has no dual role and is no member of a chord is desired if every chord that
/// it is part of has a missing key: to configure a chord does not make its keys dead on their own.
pub proof fn incomplete_chords_let_keys_pass(s: MapperState, k: KeyCode)
    requires
        s.visible_keys().contains(k),
        forall|j: int| 0 <= j < s.mappings.len() ==> !is_dual(#[trigger] s.mappings[j], k),
        !s.chord_keys.contains_key(k),
        forall|j: int|
            0 <= j < s.mappings.len() && in_input(#[trigger] s.mappings[j], k) ==> exists|
                other: KeyCode,
            | #[trigger]
                is_missing(s, other) && in_input(s.mappings[j], other),
    ensures
        s.desired_keys().contains(k),
{
    assert forall|j: int| !#[trigger] uses(s, j, k) by {
        if 0 <= j < s.mappings.len() && in_input(s.mappings[j], k) {
            let other = choose|other: KeyCode| #[trigger]
                is_missing(s, other) && in_input(s.mappings[j], other);
            chord_with_missing_key_does_not_fire(s, j, other);
        }
    }
    unused_key_passes(s, k);
}

/// A chord whose keys are all held, count and have no dual role fires, if no earlier chord has one
/// of them but for modifiers.
pub proof fn complete_chord_fires(s: MapperState, i: int)
    requires
        0 <= i < s.mappings.len(),
        s.mappings[i] is Remap,
        forall|k: KeyCode| #[trigger]
            in_input(s.mappings[i], k) ==> s.visible_keys().contains(k) && forall|j: int|
                0 <= j < s.mappings.len() ==> !is_dual(#[trigger] s.mappings[j], k),
        forall|j: int, k: KeyCode|
            0 <= j < i && in_input(s.mappings[i], k) && !s.modifier_keys.contains(k)
                ==> !#[trigger] on_a_side(s.mappings[j], k),
    ensures
        s.fires(i),
{
    chord_fires_exactly(s, i);
    assert forall|k: KeyCode| #[trigger] in_input(s.mappings[i], k) implies laws::roles_given(
        s,
        s.mappings.len() as int,
    ).contains(k) by {
        lemma_key_without_role_is_there(s, k);
    }
    assert forall|k: KeyCode, j: int|
        in_input(s.mappings[i], k) && 0 <= j < i implies !#[trigger] withdraws(s, j, k) by {
        if !s.modifier_keys.contains(k) {
            assert(!on_a_side(s.mappings[j], k));
        }
    }
}

/// A chord that fires has its output pressed in place of its input: each key of its output is
/// desired unless a later chord uses it, and each key of its input is not, unless it is in the
/// output of this or a later chord.
pub proof fn chord_swaps_input_for_output(s: MapperState, i: int, k: KeyCode)
    requires
        s.fires(i),
    ensures
        in_output(s.mappings[i], k) && (forall|j: int|
            i < j < s.mappings.len() ==> !in_input(#[trigger] s.mappings[j], k))
            ==> s.desired_keys().contains(k),
        in_input(s.mappings[i], k) && (forall|j: int|
            i <= j < s.mappings.len() ==> !in_output(#[trigger] s.mappings[j], k))
            ==> !s.desired_keys().contains(k),
{
    let n = s.mappings.len() as int;
    desired_keys_exactly(s, k);
    if in_output(s.mappings[i], k) && (forall|j: int|
        i < j < n ==> !in_input(#[trigger] s.mappings[j], k)) {
        assert(gives(s, i, k));
        assert forall|j: int| i <= j < n implies !#[trigger] loses(s, j, k) by {
            if i < j {
                assert(!in_input(s.mappings[j], k));
            }
        }
        assert(unlost(s, i, n, k));
    }
    if in_input(s.mappings[i], k) && (forall|j: int|
        i <= j < n ==> !in_output(#[trigger] s.mappings[j], k)) {
        assert(!in_output(s.mappings[i], k));
        assert(loses(s, i, k));
        if exists|j: int| 0 <= j < n && #[trigger] gives(s, j, k) && unlost(s, j, n, k) {
            let j = choose|j: int| 0 <= j < n && #[trigger] gives(s, j, k) && unlost(s, j, n, k);
            if i <= j {
                assert(!in_output(s.mappings[j], k));
            }
        }
    }
}

/// Nothing is desired that is not held, does not stand in the hold of a dual-role mapping, and is
/// not in the output of a chord.
pub proof fn desired_key_has_a_source(s: MapperState, k: KeyCode)
    requires
        is_missing(s, k),
        forall|j: int| 0 <= j < s.mappings.len() ==> !in_output(#[trigger] s.mappings[j], k),
    ensures
        !s.desired_keys().contains(k),
{
    let n = s.mappings.len() as int;
    desired_keys_exactly(s, k);
    roles_are_given_in_order(s, n, k);
    if exists|j: int| 0 <= j < n && #[trigger] lends(s, j, k) && unreplaced(s, j, n, k) {
        let j = choose|j: int| 0 <= j < n && #[trigger] lends(s, j, k);
        assert(!in_hold(s.mappings[j], k));
    }
    if exists|j: int| 0 <= j < n && #[trigger] gives(s, j, k) && unlost(s, j, n, k) {
        let j = choose|j: int| 0 <= j < n && #[trigger] gives(s, j, k);
        assert(!in_output(s.mappings[j], k));
    }
}

/// The keys that chords consume are the held ones, but for modifiers, that a chord which fires uses.
pub proof fn consumed_keys_exactly(s: MapperState, k: KeyCode)
    ensures
        s.consumed_keys().contains(k) <==> s.held.contains_key(k) && !s.modifier_keys.contains(k)
            && exists|i: int| #[trigger] uses(s, i, k),
{
    if exists|i: int| #[trigger] uses(s, i, k) {
        let i = choose|i: int| #[trigger] uses(s, i, k);
        assert(s.consumes(i, k));
    }
    if exists|i: int| #[trigger] s.consumes(i, k) {
        let i = choose|i: int| #[trigger] s.consumes(i, k);
        assert(uses(s, i, k));
    }
}

// Which mapping applies to a key.

/// The key makes the chord complete: it is part of it, and the others are held.
pub open spec fn completes(s: MapperState, mapping: MappingView, code: KeyCode) -> bool {
    in_input(mapping, code) && forall|k: KeyCode| #[trigger]
        in_input(mapping, k) ==> k == code || s.held.contains_key(k)
}

/// The first mapping that gives a key a dual role applies to it.
pub proof fn first_dual_role_applies(s: MapperState, code: KeyCode, i: int)
    requires
        0 <= i < s.mappings.len(),
        is_dual(s.mappings[i], code),
        forall|j: int| 0 <= j < i ==> !is_dual(#[trigger] s.mappings[j], code),
    ensures
        s.dual_role_mapping(code) == Some(s.mappings[i]),
        s.mapping_for(code) == Some(s.mappings[i]),
{
    assert forall|j: int| 0 <= j < i implies !#[trigger] model::is_dual_role(
        s.mappings,
        code,
        j,
    ) by {
        assert(!is_dual(s.mappings[j], code));
    }
    model::lemma_first_dual_role_unique(s.mappings, code, i);
}

/// A key that no mapping gives a dual role has none.
pub proof fn no_dual_role_applies(s: MapperState, code: KeyCode)
    requires
        forall|j: int| 0 <= j < s.mappings.len() ==> !is_dual(#[trigger] s.mappings[j], code),
    ensures
        s.dual_role_mapping(code) is None,
{
    assert forall|j: int| !model::is_first_dual_role(s.mappings, code, j) by {
        if 0 <= j < s.mappings.len() {
            assert(!is_dual(s.mappings[j], code));
        }
    }
}

/// To a key without a dual role, that one of the chords which it makes complete applies that has
/// the most keys; of several, the first.
pub proof fn largest_complete_chord_applies(s: MapperState, code: KeyCode, i: int)
    requires
        forall|j: int| 0 <= j < s.mappings.len() ==> !is_dual(#[trigger] s.mappings[j], code),
        0 <= i < s.mappings.len(),
        completes(s, s.mappings[i], code),
        forall|j: int|
            0 <= j < s.mappings.len() && completes(s, #[trigger] s.mappings[j], code)
                ==> s.mappings[j]->Remap_input.len() < s.mappings[i]->Remap_input.len() || i <= j
                && s.mappings[j]->Remap_input.len() == s.mappings[i]->Remap_input.len(),
    ensures
        s.mapping_for(code) == Some(s.mappings[i]),
{
    no_dual_role_applies(s, code);
    let held = s.held.dom();
    assert forall|j: int| #[trigger] model::is_chord(s.mappings, held, code, j) <==> 0 <= j
        < s.mappings.len() && completes(s, s.mappings[j], code) by {
        if 0 <= j < s.mappings.len() {
            lemma_completes(s, s.mappings[j], code);
        }
    }
    assert(model::is_chord(s.mappings, held, code, i));
    assert forall|j: int| #[trigger] model::is_chord(s.mappings, held, code, j) implies if j < i {
        model::chord_len(s.mappings, j) < model::chord_len(s.mappings, i)
    } else {
        model::chord_len(s.mappings, j) <= model::chord_len(s.mappings, i)
    } by {
        assert(completes(s, s.mappings[j], code));
    }
    assert(model::is_best_chord(s.mappings, held, code, i));
    model::lemma_best_chord_unique(s.mappings, held, code, i);
}

/// To a key that has no dual role and makes no chord complete, no mapping applies.
pub proof fn no_mapping_applies(s: MapperState, code: KeyCode)
    requires
        forall|j: int|
            0 <= j < s.mappings.len() ==> !is_dual(#[trigger] s.mappings[j], code) && !completes(
                s,
                s.mappings[j],
                code,
            ),
    ensures
        s.mapping_for(code) is None,
{
    no_dual_role_applies(s, code);
    let held = s.held.dom();
    assert forall|j: int| !model::is_best_chord(s.mappings, held, code, j) by {
        if 0 <= j < s.mappings.len() {
            lemma_completes(s, s.mappings[j], code);
            assert(!completes(s, s.mappings[j], code));
        }
    }
}

proof fn lemma_completes(s: MapperState, mapping: MappingView, code: KeyCode)
    ensures
        completes(s, mapping, code) <==> (mapping matches MappingView::Remap { input, output }
            && input.contains(code) && input.remove(code).subset_of(s.held.dom())),
{
    match mapping {
        MappingView::Remap { input, output } => {
            if input.contains(code) && input.remove(code).subset_of(s.held.dom()) {
                assert forall|k: KeyCode| #[trigger] in_input(mapping, k) implies k == code
                    || s.held.contains_key(k) by {
                    if k != code {
                        assert(input.remove(code).contains(k));
                    }
                }
            }
            if completes(s, mapping, code) {
                assert forall|k: KeyCode| input.remove(code).contains(
                    k,
                ) implies s.held.dom().contains(k) by {
                    assert(in_input(mapping, k));
                }
            }
        },
        _ => {},
    }
}

// What a mapper starts from.

/// The modifiers are the keys that some declaration of modifiers lists.
pub proof fn modifiers_are_the_declared_keys(mappings: Seq<MappingView>, k: KeyCode)
    ensures
        model::modifier_keys(mappings).contains(k) <==> exists|i: int|
            0 <= i < mappings.len() && (#[trigger] mappings[i] matches MappingView::ModifierKey {
                keys,
            } && keys.contains(k)),
{
    if model::modifier_keys(mappings).contains(k) {
        let i = choose|i: int|
            0 <= i < mappings.len() && #[trigger] model::makes_modifier(mappings[i], k);
        assert(mappings[i] is ModifierKey);
    }
    if exists|i: int|
        0 <= i < mappings.len() && (#[trigger] mappings[i] matches MappingView::ModifierKey { keys }
            && keys.contains(k)) {
        let i = choose|i: int|
            0 <= i < mappings.len() && (#[trigger] mappings[i] matches MappingView::ModifierKey {
                keys,
            } && keys.contains(k));
        assert(model::makes_modifier(mappings[i], k));
    }
}

/// `k` is a key that the mapping can have written.
pub open spec fn can_write(mapping: MappingView, k: KeyCode) -> bool {
    ||| in_hold(mapping, k)
    ||| in_output(mapping, k)
    ||| mapping matches MappingView::DualRole { input, hold, tap } && tap.contains(k)
    ||| mapping matches MappingView::ModifierKey { keys } && keys.contains(k)
}

/// The output device has the keys of the input device and every key that a mapping can have written,
/// and no others.
pub proof fn device_has_exactly_its_keys(
    supported: Set<KeyCode>,
    mappings: Seq<MappingView>,
    k: KeyCode,
)
    ensures
        model::device_keys(supported, mappings).contains(k) <==> supported.contains(k) || exists|
            i: int,
        |
            0 <= i < mappings.len() && can_write(#[trigger] mappings[i], k),
{
    if model::device_keys(supported, mappings).contains(k) && !supported.contains(k) {
        let i = choose|i: int|
            0 <= i < mappings.len() && #[trigger] model::mentions_output(mappings[i], k);
        assert(can_write(mappings[i], k));
    }
    if exists|i: int| 0 <= i < mappings.len() && can_write(#[trigger] mappings[i], k) {
        let i = choose|i: int| 0 <= i < mappings.len() && can_write(#[trigger] mappings[i], k);
        assert(model::mentions_output(mappings[i], k));
    }
}

/// A new mapper has its mappings, and nothing is held, down, tapped or consumed yet.
pub proof fn new_mapper_is_idle(mappings: Seq<MappingView>)
    ensures
        ({
            let s = model::initial(mappings);
            &&& s.mappings == mappings
            &&& s.held.dom() == Set::<KeyCode>::empty()
            &&& s.output_keys == Set::<KeyCode>::empty()
            &&& s.chord_keys.dom() == Set::<KeyCode>::empty()
            &&& s.tapping is None
            &&& forall|k: KeyCode| #[trigger]
                s.modifier_keys.contains(k) <==> exists|i: int|
                    0 <= i < mappings.len() && (
                    #[trigger] mappings[i] matches MappingView::ModifierKey { keys }
                        && keys.contains(k))
        }),
{
    let s = model::initial(mappings);
    assert(s.held.dom() =~= Set::<KeyCode>::empty());
    assert(s.chord_keys.dom() =~= Set::<KeyCode>::empty());
    assert forall|k: KeyCode| #[trigger]
        s.modifier_keys.contains(k) <==> exists|i: int|
            0 <= i < mappings.len() && (#[trigger] mappings[i] matches MappingView::ModifierKey {
                keys,
            } && keys.contains(k)) by {
        modifiers_are_the_declared_keys(mappings, k);
    }
}

} // verus!

//! The mapper: takes in the events of an input device and says what to write to an output device.
use crate::event::{make_event, InputEvent, KeyCode, KeyEventType};
use crate::event;
use crate::keys;
use crate::keys::{
    copy_set, insert_list, insert_set, is_modifier, is_subset, list_difference, list_keys,
    remove_list, set_of, sort_modifiers_first, sort_modifiers_last,
};
use crate::mapping;
use crate::mapping::Mapping;
use crate::model;
use crate::model::{Action, MapperState, Membership};
use std::collections::{HashMap, HashSet};
use vstd::prelude::*;

verus! {

broadcast use vstd::std_specs::hash::group_hash_axioms;

/// Turns the key events of an input device into those of an output device.
pub struct InputMapper {
    /// If present in this map, the key is down since the moment of its associated value.
    input_state: HashMap<KeyCode, i128>,
    mappings: Vec<Mapping>,
    /// The most recent candidate for a tap function is held here.
    tapping: Option<KeyCode>,
    /// The keys that are down in the output device.
    output_keys: HashSet<KeyCode>,
    /// Non-modifier input keys that are currently consumed by an active chord. When a chord
    /// partially breaks these keys are suppressed so that they do not leak through as bare
    /// keypresses. Modifiers are never among them, so that they remain available to other
    /// chords.
    ///
    /// Each comes with how it became one. Those that a mapping which fires has taken are suppressed
    /// when all mappings have been applied, so that a larger chord that is not complete does not
    /// take them from the one that fires.
    chord_keys: HashMap<KeyCode, Membership>,
    modifier_keys: HashSet<KeyCode>,
}

impl View for InputMapper {
    type V = MapperState;

    closed spec fn view(&self) -> MapperState {
        MapperState {
            held: self.input_state@,
            mappings: mapping::views(self.mappings@),
            tapping: self.tapping,
            output_keys: self.output_keys@,
            chord_keys: self.chord_keys@,
            modifier_keys: self.modifier_keys@,
        }
    }
}

/// The name of the output device for the input device at `path`.
pub fn output_device_name(path: &str) -> (r: String)
    ensures
        r@ == "evremap Virtual input for "@ + path@,
{
    String::from_str("evremap Virtual input for ").concat(path)
}

/// The keys that a map has entries for, in no particular order.
fn list_entries<V>(entries: &HashMap<KeyCode, V>) -> (r: Vec<KeyCode>)
    ensures
        keys::lists(r@, entries@.dom()),
{
    let mut list: Vec<KeyCode> = Vec::new();
    let ghost all = vstd::std_specs::iter::IteratorSpec::remaining(
        &vstd::std_specs::hash::spec_keys_iter(entries),
    );
    for k in it: entries.keys()
        invariant
            it.seq() == all,
            list@ == all.take(it.index()).unref(),
    {
        list.push(*k);
    }
    proof {
        assert(list@ == all.unref());
        assert(list@.to_set() == entries@.dom());
        assert forall|k: KeyCode| #[trigger] list@.contains(k) <==> entries@.dom().contains(k) by {
            assert(list@.to_set().contains(k) <==> list@.contains(k));
        }
    }
    list
}

/// Makes the keys of a list members of a chord that was found to apply.
fn add_mapped(chord_keys: &mut HashMap<KeyCode, Membership>, list: &Vec<KeyCode>)
    ensures
        final(chord_keys)@ == old(chord_keys)@.union_prefer_right(
            model::members(list@.to_set(), Membership::Mapped),
        ),
{
    let ghost before = chord_keys@;
    let mut i: usize = 0;
    while i < list.len()
        invariant
            i <= list.len(),
            chord_keys@ == before.union_prefer_right(
                model::members(list@.take(i as int).to_set(), Membership::Mapped),
            ),
        decreases list.len() - i,
    {
        chord_keys.insert(list[i], Membership::Mapped);
        proof {
            keys::lemma_take_next(list@, i as int);
            assert(chord_keys@ =~= before.union_prefer_right(
                model::members(list@.take(i + 1).to_set(), Membership::Mapped),
            ));
        }
        i = i + 1;
    }
    assert(list@.take(list.len() as int) == list@);
}

/// Makes the keys of a list members of a chord that has consumed them, unless they are members
/// already.
fn add_consumed(chord_keys: &mut HashMap<KeyCode, Membership>, list: &Vec<KeyCode>)
    ensures
        final(chord_keys)@ == model::members(
            list@.to_set(),
            Membership::Consumed,
        ).union_prefer_right(old(chord_keys)@),
{
    let ghost before = chord_keys@;
    let mut i: usize = 0;
    while i < list.len()
        invariant
            i <= list.len(),
            chord_keys@ == model::members(
                list@.take(i as int).to_set(),
                Membership::Consumed,
            ).union_prefer_right(before),
        decreases list.len() - i,
    {
        if !chord_keys.contains_key(&list[i]) {
            chord_keys.insert(list[i], Membership::Consumed);
        }
        proof {
            keys::lemma_take_next(list@, i as int);
            assert(chord_keys@ =~= model::members(
                list@.take(i + 1).to_set(),
                Membership::Consumed,
            ).union_prefer_right(before));
        }
        i = i + 1;
    }
    assert(list@.take(list.len() as int) == list@);
}

impl InputMapper {
    /// The moment since which the first held modifier is held.
    fn oldest_modifier_pressed_time(&self) -> (r: Option<i128>)
        ensures
            match r {
                Some(time) => {
                    &&& exists|m: KeyCode| #[trigger]
                        self@.holds_modifier(m) && self@.held[m] == time
                    &&& forall|m: KeyCode| #[trigger]
                        self@.holds_modifier(m) ==> time <= self@.held[m]
                },
                None => forall|m: KeyCode| !#[trigger] self@.holds_modifier(m),
            },
    {
        let list = list_entries(&self.input_state);
        let mut oldest: Option<i128> = None;
        let mut i: usize = 0;
        while i < list.len()
            invariant
                i <= list.len(),
                keys::lists(list@, self@.held.dom()),
                match oldest {
                    Some(time) => {
                        &&& exists|m: KeyCode| #[trigger]
                            self@.holds_modifier(m) && self@.held[m] == time
                        &&& forall|m: KeyCode| #[trigger]
                            self@.holds_modifier(m) && list@.take(i as int).contains(m) ==> time
                                <= self@.held[m]
                    },
                    None => forall|m: KeyCode| #[trigger]
                        self@.holds_modifier(m) ==> !list@.take(i as int).contains(m),
                },
            decreases list.len() - i,
        {
            proof {
                keys::lemma_take_next(list@, i as int);
                assert(list@.contains(list@[i as int]));
            }
            if is_modifier(&list[i], &self.modifier_keys) {
                if let Some(time) = self.input_state.get(&list[i]) {
                    assert(self@.holds_modifier(list@[i as int]));
                    match oldest {
                        Some(so_far) => if *time < so_far {
                            oldest = Some(*time);
                        },
                        None => {
                            oldest = Some(*time);
                        },
                    }
                }
            }
            i = i + 1;
        }
        proof {
            assert(list@.take(list.len() as int) == list@);
            assert forall|m: KeyCode| #[trigger] self@.holds_modifier(m) implies list@.contains(
                m,
            ) by {
                assert(self@.held.dom().contains(m));
            }
        }
        oldest
    }

    /// The held keys that count: those pressed before the first held modifier do not.
    fn visible_keys(&self) -> (r: HashSet<KeyCode>)
        ensures
            r@ == self@.visible_keys(),
    {
        let oldest = self.oldest_modifier_pressed_time();
        let list = list_entries(&self.input_state);
        let mut visible: HashSet<KeyCode> = HashSet::new();
        let mut i: usize = 0;
        while i < list.len()
            invariant
                i <= list.len(),
                keys::lists(list@, self@.held.dom()),
                match oldest {
                    Some(time) => {
                        &&& exists|m: KeyCode| #[trigger]
                            self@.holds_modifier(m) && self@.held[m] == time
                        &&& forall|m: KeyCode| #[trigger]
                            self@.holds_modifier(m) ==> time <= self@.held[m]
                    },
                    None => forall|m: KeyCode| !#[trigger] self@.holds_modifier(m),
                },
                forall|k: KeyCode| #[trigger]
                    visible@.contains(k) <==> self@.visible_keys().contains(k) && list@.take(
                        i as int,
                    ).contains(k),
            decreases list.len() - i,
        {
            proof {
                keys::lemma_take_next(list@, i as int);
                assert(list@.contains(list@[i as int]));
            }
            if let Some(time) = self.input_state.get(&list[i]) {
                let fresh = match oldest {
                    Some(cutoff) => *time > cutoff,
                    None => true,
                };
                assert(fresh == self@.is_fresh(*time));
                if is_modifier(&list[i], &self.modifier_keys) || fresh {
                    visible.insert(list[i]);
                }
            }
            i = i + 1;
        }
        proof {
            assert(list@.take(list.len() as int) == list@);
            assert(visible@ =~= self@.visible_keys());
        }
        visible
    }

    /// The keys that are members of a chord in this way.
    fn members_by(&self, how: Membership) -> (r: HashSet<KeyCode>)
        ensures
            r@ == self@.members_by(how),
    {
        let list = list_entries(&self.chord_keys);
        let mut found: HashSet<KeyCode> = HashSet::new();
        let mut i: usize = 0;
        while i < list.len()
            invariant
                i <= list.len(),
                keys::lists(list@, self@.chord_keys.dom()),
                forall|k: KeyCode| #[trigger]
                    found@.contains(k) <==> self@.members_by(how).contains(k) && list@.take(
                        i as int,
                    ).contains(k),
            decreases list.len() - i,
        {
            proof {
                keys::lemma_take_next(list@, i as int);
                assert(list@.contains(list@[i as int]));
            }
            if let Some(membership) = self.chord_keys.get(&list[i]) {
                if *membership == how {
                    found.insert(list[i]);
                }
            }
            i = i + 1;
        }
        proof {
            assert(list@.take(list.len() as int) == list@);
            assert forall|k: KeyCode| self@.members_by(how).contains(k) implies list@.contains(
                k,
            ) by {
                assert(self@.chord_keys.dom().contains(k));
            }
            assert(found@ =~= self@.members_by(how));
        }
        found
    }

    /// The keys as the mappings leave them, and the keys that the mappings which fire take and
    /// put out.
    fn remap_keys(&self) -> (r: (HashSet<KeyCode>, HashSet<KeyCode>, HashSet<KeyCode>))
        ensures
            r.0@ == self@.remapping(self@.mappings.len() as int).keys,
            forall|k: KeyCode| #[trigger]
                r.1@.contains(k) <==> exists|i: int| #[trigger] self@.consumes(i, k),
            forall|k: KeyCode| #[trigger]
                r.2@.contains(k) <==> exists|i: int| #[trigger] self@.supplies(i, k),
    {
        // Remove keys pressed before modifier.
        let mut keys = self.visible_keys();

        // First phase is to apply any DualRole mappings as they are likely to be used to
        // produce modifiers when held.
        let mut i: usize = 0;
        while i < self.mappings.len()
            invariant
                i <= self.mappings.len(),
                keys@ == model::hold_roles(self@.mappings.take(i as int), self@.visible_keys()),
            decreases self.mappings.len() - i,
        {
            proof {
                let next = self@.mappings.take(i + 1);
                assert(next.drop_last() == self@.mappings.take(i as int));
                assert(next.last() == self.mappings@[i as int]@);
            }
            if let Mapping::DualRole { input, hold, .. } = &self.mappings[i] {
                if keys.contains(input) {
                    keys.remove(input);
                    insert_list(&mut keys, hold);
                }
            }
            i = i + 1;
        }
        assert(self@.mappings.take(self.mappings.len() as int) == self@.mappings);

        let mut keys_minus_remapped = copy_set(&keys);
        let mut taken: HashSet<KeyCode> = HashSet::new();
        let mut put_out: HashSet<KeyCode> = HashSet::new();
        let mapped = self.members_by(Membership::Mapped);
        assert(self@.mappings.take(0) =~= Seq::empty());

        // Second pass to apply Remap items.
        let mut i: usize = 0;
        while i < self.mappings.len()
            invariant
                i <= self.mappings.len(),
                mapped@ == self@.members_by(Membership::Mapped),
                (model::Remapping { keys: keys@, available: keys_minus_remapped@ })
                    == self@.remapping(i as int),
                forall|k: KeyCode| #[trigger]
                    taken@.contains(k) <==> self@.is_consumed(i as int, k),
                forall|k: KeyCode| #[trigger]
                    put_out@.contains(k) <==> self@.is_supplied(i as int, k),
            decreases self.mappings.len() - i,
        {
            proof {
                model::lemma_remapping_next(self@, i as int);
                assert(self@.mappings[i as int] == self.mappings@[i as int]@);
            }
            if let Mapping::Remap { input, output } = &self.mappings[i] {
                if is_subset(input, &keys_minus_remapped) {
                    assert(self@.fires(i as int));
                    self.apply_remap(input, output, &mut keys, &mut keys_minus_remapped);
                    insert_set(&mut taken, input);
                    insert_set(&mut put_out, output);
                } else {
                    assert(!self@.fires(i as int));
                    self.suppress_broken_chord(input, &mapped, &mut keys, &mut keys_minus_remapped);
                }
            }
            i = i + 1;
        }
        proof {
            let n = self@.mappings.len() as int;
            assert forall|k: KeyCode| #[trigger]
                taken@.contains(k) <==> exists|i: int| #[trigger] self@.consumes(i, k) by {
                assert(taken@.contains(k) <==> self@.is_consumed(n, k));
            }
            assert forall|k: KeyCode| #[trigger]
                put_out@.contains(k) <==> exists|i: int| #[trigger] self@.supplies(i, k) by {
                assert(put_out@.contains(k) <==> self@.is_supplied(n, k));
            }
        }
        (keys, taken, put_out)
    }

    /// Compute the effective set of keys that are pressed.
    pub fn compute_keys(&self) -> (r: HashSet<KeyCode>)
        ensures
            r@ == self@.desired_keys(),
    {
        let (mut keys, _, put_out) = self.remap_keys();
        // What a chord has consumed does not leak through when the chord breaks.
        let consumed = self.members_by(Membership::Consumed);
        let suppressed = list_difference(&consumed, &put_out);
        let ghost before = keys@;
        remove_list(&mut keys, &suppressed);
        assert(suppressed@.to_set() =~= self@.suppressed_keys());
        assert(keys@ =~= before.difference(self@.suppressed_keys()));
        keys
    }

    /// The held keys, but for modifiers, that mappings which fire take.
    fn consumed_keys(&self) -> (r: HashSet<KeyCode>)
        ensures
            r@ == self@.consumed_keys(),
    {
        let (_, taken, _) = self.remap_keys();
        let plain_taken = list_difference(&taken, &self.modifier_keys);
        let mut consumed: HashSet<KeyCode> = HashSet::new();
        let mut i: usize = 0;
        while i < plain_taken.len()
            invariant
                i <= plain_taken.len(),
                forall|k: KeyCode| #[trigger]
                    consumed@.contains(k) <==> self@.held.contains_key(k) && plain_taken@.take(
                        i as int,
                    ).contains(k),
            decreases plain_taken.len() - i,
        {
            proof {
                keys::lemma_take_next(plain_taken@, i as int);
            }
            if self.input_state.contains_key(&plain_taken[i]) {
                consumed.insert(plain_taken[i]);
            }
            i = i + 1;
        }
        proof {
            assert(plain_taken@.take(plain_taken.len() as int) == plain_taken@);
            assert(consumed@ =~= self@.consumed_keys());
        }
        consumed
    }

    /// Puts the output of a mapping in place of its input. Neither is visible as input for later
    /// mappings, but for modifiers, which other chords may share.
    fn apply_remap(
        &self,
        input: &HashSet<KeyCode>,
        output: &HashSet<KeyCode>,
        keys: &mut HashSet<KeyCode>,
        keys_minus_remapped: &mut HashSet<KeyCode>,
    )
        ensures
            final(keys)@ == old(keys)@.difference(input@).union(output@),
            final(keys_minus_remapped)@ == old(keys_minus_remapped)@.difference(
                input@.union(output@).difference(self@.modifier_keys),
            ),
    {
        let ghost keys_before = keys@;
        let ghost before = keys_minus_remapped@;
        let all_input = list_keys(input);
        let plain_input = list_difference(input, &self.modifier_keys);
        let plain_output = list_difference(output, &self.modifier_keys);
        remove_list(keys, &all_input);
        remove_list(keys_minus_remapped, &plain_input);
        insert_set(keys, output);
        remove_list(keys_minus_remapped, &plain_output);
        assert(keys@ =~= keys_before.difference(input@).union(output@));
        assert(keys_minus_remapped@ =~= before.difference(
            input@.union(output@).difference(self@.modifier_keys),
        ));
    }

    /// Drops the keys that were part of a chord which is broken (a modifier released while
    /// another key is still held, or the other way round), so that they do not leak through.
    /// Modifiers are left alone: other chords may share them.
    fn suppress_broken_chord(
        &self,
        input: &HashSet<KeyCode>,
        members: &HashSet<KeyCode>,
        keys: &mut HashSet<KeyCode>,
        keys_minus_remapped: &mut HashSet<KeyCode>,
    )
        ensures
            final(keys)@ == old(keys)@.difference(
                input@.intersect(members@).difference(self@.modifier_keys),
            ),
            final(keys_minus_remapped)@ == old(keys_minus_remapped)@.difference(
                input@.intersect(members@).difference(self@.modifier_keys),
            ),
    {
        let ghost keys_before = keys@;
        let ghost available_before = keys_minus_remapped@;
        let ghost broken = input@.intersect(members@).difference(self@.modifier_keys);
        let list = list_keys(input);
        let mut i: usize = 0;
        while i < list.len()
            invariant
                i <= list.len(),
                keys::lists(list@, input@),
                broken == input@.intersect(members@).difference(self@.modifier_keys),
                forall|k: KeyCode| #[trigger]
                    keys@.contains(k) <==> keys_before.contains(k) && !(broken.contains(k)
                        && list@.take(i as int).contains(k)),
                forall|k: KeyCode| #[trigger]
                    keys_minus_remapped@.contains(k) <==> available_before.contains(k) && !(
                    broken.contains(k) && list@.take(i as int).contains(k)),
            decreases list.len() - i,
        {
            proof {
                keys::lemma_take_next(list@, i as int);
                assert(list@.contains(list@[i as int]));
            }
            if !is_modifier(&list[i], &self.modifier_keys) && members.contains(&list[i]) {
                keys.remove(&list[i]);
                keys_minus_remapped.remove(&list[i]);
            }
            i = i + 1;
        }
        proof {
            assert(list@.take(list.len() as int) == list@);
            assert(keys@ =~= keys_before.difference(broken));
            assert(keys_minus_remapped@ =~= available_before.difference(broken));
        }
    }

    pub fn lookup_dual_role_mapping(&self, code: KeyCode) -> (r: Option<Mapping>)
        ensures
            match r {
                Some(mapping) => self@.dual_role_mapping(code) == Some(mapping@),
                None => self@.dual_role_mapping(code) is None,
            },
    {
        let mut i: usize = 0;
        while i < self.mappings.len()
            invariant
                i <= self.mappings.len(),
                forall|j: int| 0 <= j < i ==> !#[trigger] model::is_dual_role(self@.mappings, code, j),
            decreases self.mappings.len() - i,
        {
            assert(self@.mappings[i as int] == self.mappings@[i as int]@);
            if let Mapping::DualRole { input, .. } = &self.mappings[i] {
                if *input == code {
                    // A DualRole mapping has the highest precedence, so this is the match.
                    proof {
                        model::lemma_first_dual_role_unique(self@.mappings, code, i as int);
                    }
                    let mapping = self.mappings[i].clone();
                    assert(mapping@ == self@.mappings[i as int]);
                    return Some(mapping);
                }
            }
            i = i + 1;
        }
        None
    }

    /// Whether `code` is among the keys of a chord and all the others are held.
    fn completes_chord(&self, input: &HashSet<KeyCode>, code: KeyCode) -> (r: bool)
        ensures
            r == (input@.contains(code) && input@.remove(code).subset_of(self@.held.dom())),
    {
        let list = list_keys(input);
        let mut code_matched = false;
        let mut i: usize = 0;
        while i < list.len()
            invariant
                i <= list.len(),
                keys::lists(list@, input@),
                code_matched == list@.take(i as int).contains(code),
                forall|k: KeyCode| #[trigger]
                    list@.take(i as int).contains(k) && k != code ==> self@.held.contains_key(k),
            decreases list.len() - i,
        {
            proof {
                keys::lemma_take_next(list@, i as int);
                assert(list@.contains(list@[i as int]));
            }
            if list[i] == code {
                code_matched = true;
            } else if !self.input_state.contains_key(&list[i]) {
                assert(input@.remove(code).contains(list@[i as int]));
                return false;
            }
            i = i + 1;
        }
        proof {
            assert(list@.take(list.len() as int) == list@);
            assert forall|k: KeyCode| input@.remove(code).contains(k) implies self@.held.dom().contains(
                k,
            ) by {
                assert(list@.contains(k));
            }
        }
        code_matched
    }

    pub fn lookup_mapping(&self, code: KeyCode) -> (r: Option<Mapping>)
        ensures
            match r {
                Some(mapping) => self@.mapping_for(code) == Some(mapping@),
                None => self@.mapping_for(code) is None,
            },
    {
        // The index of the best chord so far, and the number of its keys: it is the one with the
        // most active keys that is wanted.
        let mut best: Option<(usize, usize)> = None;
        let ghost held = self@.held.dom();
        let mut i: usize = 0;
        while i < self.mappings.len()
            invariant
                i <= self.mappings.len(),
                held == self@.held.dom(),
                forall|j: int| 0 <= j < i ==> !#[trigger] model::is_dual_role(self@.mappings, code, j),
                match best {
                    Some((at, len)) => {
                        &&& at < i
                        &&& model::is_chord(self@.mappings, held, code, at as int)
                        &&& len == model::chord_len(self@.mappings, at as int)
                        &&& forall|j: int| #[trigger]
                            model::is_chord(self@.mappings, held, code, j) && j < i ==> if j < at {
                                model::chord_len(self@.mappings, j) < len
                            } else {
                                model::chord_len(self@.mappings, j) <= len
                            }
                    },
                    None => forall|j: int|
                        j < i ==> !#[trigger] model::is_chord(self@.mappings, held, code, j),
                },
            decreases self.mappings.len() - i,
        {
            assert(self@.mappings[i as int] == self.mappings@[i as int]@);
            match &self.mappings[i] {
                Mapping::DualRole { input, .. } => {
                    if *input == code {
                        // A DualRole mapping has the highest precedence, so this is the match.
                        proof {
                            model::lemma_first_dual_role_unique(self@.mappings, code, i as int);
                        }
                        let mapping = self.mappings[i].clone();
                        assert(mapping@ == self@.mappings[i as int]);
                        return Some(mapping);
                    }
                },
                Mapping::Remap { input, .. } => {
                    // A chord counts if all of its other keys are pressed too.
                    if self.completes_chord(input, code) {
                        let len = input.len();
                        match best {
                            Some((_, so_far)) => if so_far < len {
                                best = Some((i, len));
                            },
                            None => {
                                best = Some((i, len));
                            },
                        }
                    }
                },
                Mapping::ModifierKey { .. } => (),
            }
            i = i + 1;
        }
        match best {
            Some((at, _)) => {
                proof {
                    assert(model::is_best_chord(self@.mappings, held, code, at as int));
                    model::lemma_best_chord_unique(self@.mappings, held, code, at as int);
                }
                let mapping = self.mappings[at].clone();
                assert(mapping@ == self@.mappings[at as int]);
                Some(mapping)
            },
            None => None,
        }
    }

    /// The writes by which keys are said to have been pressed, released or repeated.
    fn emit_keys(keys: &Vec<KeyCode>, time: i128, event_type: KeyEventType) -> (r: Vec<Action>)
        requires
            event::is_stampable(time as int),
        ensures
            r@ == model::key_writes(keys@, time as int, event_type),
    {
        let mut actions: Vec<Action> = Vec::new();
        let mut i: usize = 0;
        while i < keys.len()
            invariant
                i <= keys.len(),
                event::is_stampable(time as int),
                actions@ == model::key_writes(keys@.take(i as int), time as int, event_type),
            decreases keys.len() - i,
        {
            actions.push(Action::Write(make_event(keys[i], time, event_type)));
            i = i + 1;
        }
        assert(keys@.take(keys.len() as int) == keys@);
        actions
    }

    /// Compute the difference between our desired set of keys and the set of keys that are
    /// currently pressed in the output device. Release any keys that should not be pressed, and
    /// then press any keys that should be pressed.
    ///
    /// When releasing, release modifiers last so that mappings that produce eg: CTRL-C don't
    /// emit a random C character when released.
    ///
    /// Similarly, when pressing, emit modifiers first so that we don't emit C and then CTRL for
    /// such a mapping.
    pub fn compute_and_apply_keys(&self, time: i128) -> (r: Vec<Action>)
        requires
            event::is_stampable(time as int),
        ensures
            self@.syncs(time as int, r@),
    {
        let desired_keys = self.compute_keys();
        let released = list_difference(&self.output_keys, &desired_keys);
        let pressed = list_difference(&desired_keys, &self.output_keys);
        let to_release = sort_modifiers_last(&released, &self.modifier_keys);
        let to_press = sort_modifiers_first(&pressed, &self.modifier_keys);
        let mut actions = Self::emit_keys(&to_release, time, KeyEventType::Release);
        let mut presses = Self::emit_keys(&to_press, time, KeyEventType::Press);
        actions.append(&mut presses);
        proof {
            keys::lemma_sorted_last(
                released@,
                self@.output_keys.difference(self@.desired_keys()),
                self@.modifier_keys,
            );
            keys::lemma_sorted_first(
                pressed@,
                self@.desired_keys().difference(self@.output_keys),
                self@.modifier_keys,
            );
            assert(self@.syncs_by(time as int, actions@, to_release@, to_press@));
        }
        actions
    }

    /// Just the write of the event itself.
    fn pass_through(event: &InputEvent) -> (r: Vec<Action>)
        ensures
            r@ == seq![Action::Write(*event)],
    {
        let actions = vec![Action::Write(*event)];
        assert(actions@ =~= seq![Action::Write(*event)]);
        actions
    }

    /// Takes in an event about the key `code`, and says what to do about it. The actions are to
    /// be carried out in order, each one reported to `perform` once it has succeeded; where one
    /// fails, the rest is to be left undone.
    pub fn update_with_event(&mut self, event: &InputEvent, code: KeyCode) -> (r: Vec<Action>)
        requires
            old(self)@.calls_for_stamp(*event, code) ==> event::is_stampable(event.time as int),
        ensures
            final(self)@ == old(self)@.taken_in(*event, code),
            old(self)@.answers(*event, code, r@),
            old(self)@.wf() ==> final(self)@.wf(),
    {
        let ghost before = self@;
        proof {
            if before.wf() {
                crate::laws::well_formedness_is_kept(before, *event, code, Seq::empty());
            }
        }
        let event_type = KeyEventType::from_value(event.value);
        match event_type {
            KeyEventType::Release => {
                let pressed_at = match self.input_state.remove(&code) {
                    None => {
                        assert(self@ =~= before);
                        return Self::pass_through(event);
                    },
                    Some(pressed_at) => pressed_at,
                };

                // Only non-modifiers are ever members of a chord, so the guard makes no
                // difference to a mapper that is well formed.
                if !is_modifier(&code, &self.modifier_keys) {
                    self.chord_keys.remove(&code);
                }
                assert(self@ =~= before.with_key_up(code));
                self.register_consumed();

                let mut actions = self.compute_and_apply_keys(event.time);
                let ghost sync = actions@;

                if let Some(Mapping::DualRole { tap, .. }) = self.lookup_dual_role_mapping(code) {
                    if let Some(tapping) = self.tapping {
                        actions.push(Action::CancelTap);
                        // If released quickly enough, becomes a tap press.
                        if tapping == code && Self::released_quickly(pressed_at, event.time) {
                            let mut presses = Self::emit_keys(&tap, event.time, KeyEventType::Press);
                            let mut releases = Self::emit_keys(
                                &tap,
                                event.time,
                                KeyEventType::Release,
                            );
                            actions.append(&mut presses);
                            actions.append(&mut releases);
                        }
                    }
                }
                assert(actions@ =~= sync + before.further_actions(*event, code));
                actions
            },
            KeyEventType::Press => {
                self.input_state.insert(code, event.time);
                let ghost held = MapperState { held: before.held.insert(code, event.time), ..before };
                assert(self@ =~= held);

                match self.lookup_mapping(code) {
                    Some(mapping) => {
                        if let Mapping::Remap { input, .. } = &mapping {
                            // Register non-modifier input keys as active chord members.
                            // Modifiers are excluded so they stay available for other chords
                            // while held.
                            self.register_chord(input);
                        }
                        assert(self@ =~= before.with_key_down(code, event.time));
                        self.register_consumed();
                        let mut actions = self.compute_and_apply_keys(event.time);
                        let ghost sync = actions@;
                        actions.push(Action::ArmTap(code));
                        assert(actions@ =~= sync + before.further_actions(*event, code));
                        actions
                    },
                    None => {
                        // Just pass it through.
                        self.cancel_pending_tap();
                        assert(self@ =~= before.with_key_down(code, event.time));
                        self.register_consumed();
                        let actions = self.compute_and_apply_keys(event.time);
                        assert(actions@ =~= actions@ + before.further_actions(*event, code));
                        actions
                    },
                }
            },
            KeyEventType::Repeat => {
                match self.lookup_mapping(code) {
                    Some(Mapping::DualRole { hold, .. }) => {
                        Self::emit_keys(&hold, event.time, KeyEventType::Repeat)
                    },
                    Some(Mapping::Remap { input, .. }) => {
                        if self.is_held(&input) {
                            // The full chord is held: suppress the repeat entirely, of the raw
                            // input as well as of the mapped output.
                            Vec::new()
                        } else {
                            // The chord is not fully satisfied: pass the raw key repeat through
                            // unchanged.
                            Self::pass_through(event)
                        }
                    },
                    Some(_) => Vec::new(),
                    None => {
                        if self.chord_keys.contains_key(&code) {
                            // Part of a chord, complete or broken: suppress the repeat too.
                            Vec::new()
                        } else {
                            // Just pass it through.
                            self.cancel_pending_tap();
                            Self::pass_through(event)
                        }
                    },
                }
            },
            KeyEventType::Unknown(_) => Self::pass_through(event),
        }
    }

    /// Whether a key that went down at `pressed_at` and comes up at `released_at` has been
    /// tapped.
    fn released_quickly(pressed_at: i128, released_at: i128) -> (r: bool)
        ensures
            r == model::is_quick(pressed_at as int, released_at as int),
    {
        match released_at.checked_sub(pressed_at) {
            Some(elapsed) => 0 <= elapsed && elapsed < 200_000_000,
            None => false,
        }
    }

    /// Whether all of the keys are held.
    fn is_held(&self, keys: &HashSet<KeyCode>) -> (r: bool)
        ensures
            r == keys@.subset_of(self@.held.dom()),
    {
        let held = list_entries(&self.input_state);
        let currently_held = set_of(&held);
        assert(currently_held@ =~= self@.held.dom());
        is_subset(keys, &currently_held)
    }

    /// Makes the keys of a chord that was found to apply members of it, but for modifiers.
    fn register_chord(&mut self, input: &HashSet<KeyCode>)
        ensures
            final(self)@ == (MapperState {
                chord_keys: old(self)@.chord_keys.union_prefer_right(
                    model::members(
                        input@.difference(old(self)@.modifier_keys),
                        Membership::Mapped,
                    ),
                ),
                ..old(self)@
            }),
    {
        let list = list_difference(input, &self.modifier_keys);
        add_mapped(&mut self.chord_keys, &list);
        assert(list@.to_set() =~= input@.difference(self@.modifier_keys));
    }

    /// Makes the held keys that mappings which fire take members of a chord: a dual-role key may
    /// have supplied what was missing of one.
    fn register_consumed(&mut self)
        ensures
            final(self)@ == old(self)@.settled(),
    {
        let consumed = self.consumed_keys();
        let list = list_keys(&consumed);
        add_consumed(&mut self.chord_keys, &list);
        assert(list@.to_set() =~= consumed@);
    }

    /// Whether new events are made about the event about `code`, so that its moment must be one
    /// that can be stamped.
    pub fn calls_for_stamp(&self, event: &InputEvent, code: KeyCode) -> (r: bool)
        ensures
            r == self@.calls_for_stamp(*event, code),
    {
        match KeyEventType::from_value(event.value) {
            KeyEventType::Release => self.input_state.contains_key(&code),
            KeyEventType::Press => true,
            KeyEventType::Repeat => match self.lookup_mapping(code) {
                Some(Mapping::DualRole { .. }) => true,
                _ => false,
            },
            KeyEventType::Unknown(_) => false,
        }
    }

    fn cancel_pending_tap(&mut self)
        ensures
            final(self)@ == (MapperState { tapping: None, ..old(self)@ }),
    {
        self.tapping = None;
    }

    /// Takes note that an event has been written to the output device.
    fn write_event(&mut self, event: &InputEvent)
        ensures
            final(self)@ == old(self)@.done(Action::Write(*event)),
    {
        if let Some(key) = event.key() {
            match KeyEventType::from_value(event.value) {
                KeyEventType::Press | KeyEventType::Repeat => {
                    self.output_keys.insert(key);
                },
                KeyEventType::Release => {
                    self.output_keys.remove(&key);
                },
                KeyEventType::Unknown(_) => {},
            }
        }
    }

    /// Takes note that an action has been carried out.
    pub fn perform(&mut self, action: &Action)
        ensures
            final(self)@ == old(self)@.done(*action),
            old(self)@.wf() ==> final(self)@.wf(),
    {
        proof {
            if self@.wf() {
                crate::laws::action_keeps_well_formedness(self@, *action);
            }
        }
        match action {
            Action::Write(event) => self.write_event(event),
            Action::ArmTap(code) => {
                self.tapping = Some(*code);
            },
            Action::CancelTap => self.cancel_pending_tap(),
        }
    }

    /// One turn of the loop that reads the input device: says what to do about an event. Key
    /// events go through the mappings; any other event is passed on as it is.
    pub fn run_mapper(&mut self, event: &InputEvent) -> (r: Vec<Action>)
        requires
            event.spec_key() matches Some(code) ==> (old(self)@.calls_for_stamp(*event, code)
                ==> event::is_stampable(event.time as int)),
        ensures
            final(self)@ == old(self)@.read(*event),
            old(self)@.answers_read(*event, r@),
            old(self)@.wf() ==> final(self)@.wf(),
    {
        match event.key() {
            Some(code) => self.update_with_event(event, code),
            None => Self::pass_through(event),
        }
    }

    /// A mapper for an input device that has the keys `supported`, and the keys that the output
    /// device must have.
    pub fn create_mapper(supported: Vec<KeyCode>, mappings: Vec<Mapping>) -> (r: (
        Self,
        HashSet<KeyCode>,
    ))
        ensures
            r.0@ == model::initial(mapping::views(mappings@)),
            r.0@.wf(),
            r.1@ == model::device_keys(supported@.to_set(), mapping::views(mappings@)),
    {
        let ghost said = mapping::views(mappings@);
        let mut modifier_keys: HashSet<KeyCode> = HashSet::new();
        let mut output_keys = set_of(&supported);
        let mut i: usize = 0;
        while i < mappings.len()
            invariant
                i <= mappings.len(),
                said == mapping::views(mappings@),
                modifier_keys@ == model::modifier_keys(said.take(i as int)),
                output_keys@ == model::device_keys(supported@.to_set(), said.take(i as int)),
            decreases mappings.len() - i,
        {
            let ghost modifiers_before = modifier_keys@;
            let ghost outputs_before = output_keys@;
            match &mappings[i] {
                Mapping::DualRole { hold, tap, .. } => {
                    insert_list(&mut output_keys, hold);
                    insert_list(&mut output_keys, tap);
                },
                Mapping::Remap { output, .. } => {
                    insert_set(&mut output_keys, output);
                },
                Mapping::ModifierKey { keys } => {
                    insert_set(&mut output_keys, keys);
                    insert_set(&mut modifier_keys, keys);
                },
            }
            proof {
                let last = said[i as int];
                assert(last == mappings@[i as int]@);
                assert forall|k: KeyCode| #[trigger]
                    model::modifier_keys(said.take(i + 1)).contains(k)
                        <==> modifiers_before.contains(k) || model::makes_modifier(last, k) by {
                    model::lemma_modifier_keys_next(said, i as int, k);
                }
                assert forall|k: KeyCode| #[trigger]
                    model::device_keys(supported@.to_set(), said.take(i + 1)).contains(k)
                        <==> outputs_before.contains(k) || model::mentions_output(last, k) by {
                    model::lemma_device_keys_next(supported@.to_set(), said, i as int, k);
                }
                assert(modifier_keys@ =~= model::modifier_keys(said.take(i + 1)));
                assert(output_keys@ =~= model::device_keys(supported@.to_set(), said.take(i + 1)));
            }
            i = i + 1;
        }
        proof {
            assert(said.take(mappings.len() as int) == said);
        }
        let mapper = InputMapper {
            input_state: HashMap::new(),
            mappings,
            tapping: None,
            output_keys: HashSet::new(),
            chord_keys: HashMap::new(),
            modifier_keys,
        };
        assert(mapper@ =~= model::initial(said));
        (mapper, output_keys)
    }
}

} // verus!

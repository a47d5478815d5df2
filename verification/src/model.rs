//! What a mapper is, as mathematics: its state, the keys that it wants pressed, and what it does
//! about an event.
use crate::event;
use crate::event::{InputEvent, KeyCode, KeyEventType};
use crate::keys;
use crate::mapping::MappingView;
use vstd::prelude::*;

verus! {

/// One step of what a mapper does about an event.
#[derive(Clone, Copy, Debug, PartialEq, Eq, Structural)]
pub enum Action {
    /// Write the event to the output device.
    Write(InputEvent),
    /// Take note that the key may turn out to be tapped.
    ArmTap(KeyCode),
    /// Take note that no key is being tapped.
    CancelTap,
}

/// How a key has become a member of a chord.
#[derive(Clone, Copy, Debug, PartialEq, Eq, Structural)]
pub enum Membership {
    /// The chord was found to apply to a key that went down.
    Mapped,
    /// A mapping that fires has taken the key.
    Consumed,
}

/// These keys, each a member in this way.
pub open spec fn members(keys: Set<KeyCode>, how: Membership) -> Map<KeyCode, Membership> {
    Map::new(|k: KeyCode| keys.contains(k), |k: KeyCode| how)
}

/// The state of a mapper.
#[verifier::ext_equal]
pub struct MapperState {
    /// The input keys that are down, each with the moment since which it is.
    pub held: Map<KeyCode, i128>,
    pub mappings: Seq<MappingView>,
    /// The most recent candidate for a tap.
    pub tapping: Option<KeyCode>,
    /// The keys that are down in the output device.
    pub output_keys: Set<KeyCode>,
    /// The input keys that an active chord has consumed: its members, each with how it became
    /// one.
    pub chord_keys: Map<KeyCode, Membership>,
    pub modifier_keys: Set<KeyCode>,
}

/// The keys that the mappings make modifiers.
pub open spec fn modifier_keys(mappings: Seq<MappingView>) -> Set<KeyCode> {
    Set::new(
        |k: KeyCode|
            exists|i: int|
                0 <= i < mappings.len() && #[trigger] makes_modifier(mappings[i], k),
    )
}

/// The mapping makes `k` a modifier.
pub open spec fn makes_modifier(mapping: MappingView, k: KeyCode) -> bool {
    match mapping {
        MappingView::ModifierKey { keys } => keys.contains(k),
        _ => false,
    }
}

/// The mapping can have `k` pressed in the output device, or makes it a modifier.
pub open spec fn mentions_output(mapping: MappingView, k: KeyCode) -> bool {
    match mapping {
        MappingView::DualRole { input, hold, tap } => hold.contains(k) || tap.contains(k),
        MappingView::Remap { input, output } => output.contains(k),
        MappingView::ModifierKey { keys } => keys.contains(k),
    }
}

/// The keys that the output device must have: those of the input device, and those that the
/// mappings bring in.
pub open spec fn device_keys(supported: Set<KeyCode>, mappings: Seq<MappingView>) -> Set<KeyCode> {
    Set::new(
        |k: KeyCode|
            supported.contains(k) || exists|i: int|
                0 <= i < mappings.len() && #[trigger] mentions_output(mappings[i], k),
    )
}

/// The state of a mapper that has seen no event.
pub open spec fn initial(mappings: Seq<MappingView>) -> MapperState {
    MapperState {
        held: Map::empty(),
        mappings,
        tapping: None,
        output_keys: Set::empty(),
        chord_keys: Map::empty(),
        modifier_keys: modifier_keys(mappings),
    }
}

/// `keys` with a dual-role key among them replaced by what it acts as while held.
pub open spec fn hold_role(mapping: MappingView, keys: Set<KeyCode>) -> Set<KeyCode> {
    match mapping {
        MappingView::DualRole { input, hold, tap } => if keys.contains(input) {
            keys.remove(input).union(hold.to_set())
        } else {
            keys
        },
        _ => keys,
    }
}

/// `keys` with every dual-role key replaced, mapping after mapping.
pub open spec fn hold_roles(mappings: Seq<MappingView>, keys: Set<KeyCode>) -> Set<KeyCode>
    decreases mappings.len(),
{
    if mappings.len() == 0 {
        keys
    } else {
        hold_role(mappings.last(), hold_roles(mappings.drop_last(), keys))
    }
}

/// Where the remapping of a set of keys stands: the keys as remapped so far, and those that
/// later mappings may still take as their input.
#[verifier::ext_equal]
pub struct Remapping {
    pub keys: Set<KeyCode>,
    pub available: Set<KeyCode>,
}

/// One mapping's part in the remapping. Where its input is available, its output takes the
/// place of the input, and what of the two is no modifier is available no more. Where it is
/// not, the members of a broken chord are dropped.
pub open spec fn remap_step(
    mapping: MappingView,
    chord_keys: Set<KeyCode>,
    modifier_keys: Set<KeyCode>,
    so_far: Remapping,
) -> Remapping {
    match mapping {
        MappingView::Remap { input, output } => if input.subset_of(so_far.available) {
            Remapping {
                keys: so_far.keys.difference(input).union(output),
                available: so_far.available.difference(
                    input.union(output).difference(modifier_keys),
                ),
            }
        } else {
            let broken = input.intersect(chord_keys).difference(modifier_keys);
            Remapping {
                keys: so_far.keys.difference(broken),
                available: so_far.available.difference(broken),
            }
        },
        _ => so_far,
    }
}

/// The remapping of `keys`, mapping after mapping.
pub open spec fn remap_all(
    mappings: Seq<MappingView>,
    chord_keys: Set<KeyCode>,
    modifier_keys: Set<KeyCode>,
    keys: Set<KeyCode>,
) -> Remapping
    decreases mappings.len(),
{
    if mappings.len() == 0 {
        Remapping { keys, available: keys }
    } else {
        remap_step(
            mappings.last(),
            chord_keys,
            modifier_keys,
            remap_all(mappings.drop_last(), chord_keys, modifier_keys, keys),
        )
    }
}

/// The mapping takes `k` as part of its input.
pub open spec fn takes(mapping: MappingView, k: KeyCode) -> bool {
    match mapping {
        MappingView::Remap { input, output } => input.contains(k),
        _ => false,
    }
}

/// `k` is part of some mapping's input.
pub open spec fn is_input(mappings: Seq<MappingView>, k: KeyCode) -> bool {
    exists|i: int| 0 <= i < mappings.len() && takes(#[trigger] mappings[i], k)
}

/// The mapping puts out `k`.
pub open spec fn puts_out(mapping: MappingView, k: KeyCode) -> bool {
    match mapping {
        MappingView::Remap { input, output } => output.contains(k),
        _ => false,
    }
}

/// The mapping with index `i` gives `code` a dual role.
pub open spec fn is_dual_role(mappings: Seq<MappingView>, code: KeyCode, i: int) -> bool {
    0 <= i < mappings.len() && match mappings[i] {
        MappingView::DualRole { input, hold, tap } => input == code,
        _ => false,
    }
}

/// The mapping with index `i` is the first that gives `code` a dual role.
pub open spec fn is_first_dual_role(mappings: Seq<MappingView>, code: KeyCode, i: int) -> bool {
    &&& is_dual_role(mappings, code, i)
    &&& forall|j: int| 0 <= j < i ==> !#[trigger] is_dual_role(mappings, code, j)
}

/// `code` is part of the chord with index `i`, and the rest of the chord is held.
pub open spec fn is_chord(
    mappings: Seq<MappingView>,
    held: Set<KeyCode>,
    code: KeyCode,
    i: int,
) -> bool {
    0 <= i < mappings.len() && match mappings[i] {
        MappingView::Remap { input, output } => input.contains(code) && input.remove(
            code,
        ).subset_of(held),
        _ => false,
    }
}

/// The number of keys in the chord with index `i`.
pub open spec fn chord_len(mappings: Seq<MappingView>, i: int) -> nat {
    mappings[i]->Remap_input.len()
}

/// Of the chords that `code` is part of and whose rest is held, the one with index `i` has the
/// most keys, and is the first with so many.
pub open spec fn is_best_chord(
    mappings: Seq<MappingView>,
    held: Set<KeyCode>,
    code: KeyCode,
    i: int,
) -> bool {
    &&& is_chord(mappings, held, code, i)
    &&& forall|j: int| #[trigger]
        is_chord(mappings, held, code, j) ==> if j < i {
            chord_len(mappings, j) < chord_len(mappings, i)
        } else {
            chord_len(mappings, j) <= chord_len(mappings, i)
        }
}

/// The writes by which `keys` are said, in this order, to have been pressed, released or
/// repeated.
pub open spec fn key_writes(keys: Seq<KeyCode>, time: int, event_type: KeyEventType) -> Seq<Action> {
    Seq::new(
        keys.len(),
        |i: int| Action::Write(event::spec_make_event(keys[i], time, event_type)),
    )
}

/// The keys that are down in the output device once the event has been written to it.
pub open spec fn keys_after_write(output_keys: Set<KeyCode>, event: InputEvent) -> Set<KeyCode> {
    match event.spec_key() {
        Some(key) => match KeyEventType::spec_from_value(event.value) {
            KeyEventType::Press | KeyEventType::Repeat => output_keys.insert(key),
            KeyEventType::Release => output_keys.remove(key),
            KeyEventType::Unknown(_) => output_keys,
        },
        None => output_keys,
    }
}

/// Whether a key that went down at `pressed_at` and comes up at `released_at` has been tapped:
/// less than a fifth of a second has passed, and the clock has not been set back.
pub open spec fn is_quick(pressed_at: int, released_at: int) -> bool {
    0 <= released_at - pressed_at < 200_000_000
}

/// The modifiers, when one more mapping is counted in.
pub proof fn lemma_modifier_keys_next(mappings: Seq<MappingView>, n: int, k: KeyCode)
    requires
        0 <= n < mappings.len(),
    ensures
        modifier_keys(mappings.take(n + 1)).contains(k) <==> modifier_keys(
            mappings.take(n),
        ).contains(k) || makes_modifier(mappings[n], k),
{
    let fewer = mappings.take(n);
    let more = mappings.take(n + 1);
    if modifier_keys(fewer).contains(k) {
        let i = choose|i: int| 0 <= i < fewer.len() && #[trigger] makes_modifier(fewer[i], k);
        assert(makes_modifier(more[i], k));
    }
    if makes_modifier(mappings[n], k) {
        assert(makes_modifier(more[n], k));
    }
    if modifier_keys(more).contains(k) {
        let i = choose|i: int| 0 <= i < more.len() && #[trigger] makes_modifier(more[i], k);
        if i < n {
            assert(makes_modifier(fewer[i], k));
        }
    }
}

/// The keys of the output device, when one more mapping is counted in.
pub proof fn lemma_device_keys_next(
    supported: Set<KeyCode>,
    mappings: Seq<MappingView>,
    n: int,
    k: KeyCode,
)
    requires
        0 <= n < mappings.len(),
    ensures
        device_keys(supported, mappings.take(n + 1)).contains(k) <==> device_keys(
            supported,
            mappings.take(n),
        ).contains(k) || mentions_output(mappings[n], k),
{
    let fewer = mappings.take(n);
    let more = mappings.take(n + 1);
    if device_keys(supported, fewer).contains(k) && !supported.contains(k) {
        let i = choose|i: int| 0 <= i < fewer.len() && #[trigger] mentions_output(fewer[i], k);
        assert(mentions_output(more[i], k));
    }
    if mentions_output(mappings[n], k) {
        assert(mentions_output(more[n], k));
    }
    if device_keys(supported, more).contains(k) && !supported.contains(k) {
        let i = choose|i: int| 0 <= i < more.len() && #[trigger] mentions_output(more[i], k);
        if i < n {
            assert(mentions_output(fewer[i], k));
        }
    }
}

/// There is only one first mapping that gives `code` a dual role.
pub proof fn lemma_first_dual_role_unique(mappings: Seq<MappingView>, code: KeyCode, i: int)
    requires
        is_first_dual_role(mappings, code, i),
    ensures
        i == choose|j: int| is_first_dual_role(mappings, code, j),
{
    let j = choose|j: int| is_first_dual_role(mappings, code, j);
    assert(is_dual_role(mappings, code, i) && is_dual_role(mappings, code, j));
}

/// There is only one best chord.
pub proof fn lemma_best_chord_unique(
    mappings: Seq<MappingView>,
    held: Set<KeyCode>,
    code: KeyCode,
    i: int,
)
    requires
        is_best_chord(mappings, held, code, i),
    ensures
        i == choose|j: int| is_best_chord(mappings, held, code, j),
{
    let j = choose|j: int| is_best_chord(mappings, held, code, j);
    assert(is_chord(mappings, held, code, i) && is_chord(mappings, held, code, j));
}

/// The events that the actions write.
pub open spec fn written(actions: Seq<Action>) -> Seq<InputEvent>
    decreases actions.len(),
{
    if actions.len() == 0 {
        Seq::empty()
    } else {
        match actions.last() {
            Action::Write(event) => written(actions.drop_last()).push(event),
            _ => written(actions.drop_last()),
        }
    }
}

/// The events that the turns of a run write, turn after turn.
pub open spec fn written_in_run(turns: Seq<Seq<Action>>) -> Seq<InputEvent>
    decreases turns.len(),
{
    if turns.len() == 0 {
        Seq::empty()
    } else {
        written_in_run(turns.drop_last()) + written(turns.last())
    }
}

impl MapperState {
    /// The modifiers are those of the mappings, and the members of chords are as they should be:
    /// every key that a chord consumes is one.
    pub open spec fn wf(self) -> bool {
        &&& self.members_fit()
        &&& self.consumed_keys().subset_of(self.chord_keys.dom())
    }

    /// The modifiers are those of the mappings, and only keys that are held, are no modifiers and
    /// are part of some mapping's input are members of a chord.
    pub open spec fn members_fit(self) -> bool {
        &&& self.chord_keys.dom().disjoint(self.modifier_keys)
        &&& self.chord_keys.dom().subset_of(self.held.dom())
        &&& forall|k: KeyCode| #[trigger] self.chord_keys.contains_key(k) ==> is_input(
            self.mappings,
            k,
        )
        &&& self.modifier_keys == modifier_keys(self.mappings)
    }

    pub open spec fn is_modifier(self, k: KeyCode) -> bool {
        self.modifier_keys.contains(k)
    }

    /// `k` is a modifier that is held.
    pub open spec fn holds_modifier(self, k: KeyCode) -> bool {
        self.is_modifier(k) && self.held.contains_key(k)
    }

    /// The held keys that count: modifiers, and other keys that went down after some held
    /// modifier, or while none is held.
    pub open spec fn visible_keys(self) -> Set<KeyCode> {
        Set::new(
            |k: KeyCode|
                self.held.contains_key(k) && (self.is_modifier(k) || self.is_fresh(self.held[k])),
        )
    }

    /// No modifier is held, or one has been held since before `time`.
    pub open spec fn is_fresh(self, time: i128) -> bool {
        (exists|m: KeyCode| #[trigger] self.holds_modifier(m)) ==> exists|m: KeyCode| #[trigger]
            self.holds_modifier(m) && self.held[m] < time
    }

    /// The keys that are members in this way.
    pub open spec fn members_by(self, how: Membership) -> Set<KeyCode> {
        Set::new(|k: KeyCode| self.chord_keys.contains_key(k) && self.chord_keys[k] == how)
    }

    /// Where the remapping stands when it comes to the mapping with index `i`.
    pub open spec fn remapping(self, i: int) -> Remapping {
        remap_all(
            self.mappings.take(i),
            self.members_by(Membership::Mapped),
            self.modifier_keys,
            hold_roles(self.mappings, self.visible_keys()),
        )
    }

    /// The mapping with index `i` finds its input available and puts its output in its place.
    pub open spec fn fires(self, i: int) -> bool {
        0 <= i < self.mappings.len() && match self.mappings[i] {
            MappingView::Remap { input, output } => input.subset_of(self.remapping(i).available),
            _ => false,
        }
    }

    /// The mapping with index `i` fires and takes `k`.
    pub open spec fn consumes(self, i: int, k: KeyCode) -> bool {
        self.fires(i) && takes(self.mappings[i], k)
    }

    /// The mapping with index `i` fires and puts out `k`.
    pub open spec fn supplies(self, i: int, k: KeyCode) -> bool {
        self.fires(i) && puts_out(self.mappings[i], k)
    }

    /// One of the first `n` mappings consumes `k`.
    pub open spec fn is_consumed(self, n: int, k: KeyCode) -> bool {
        exists|i: int| i < n && #[trigger] self.consumes(i, k)
    }

    /// One of the first `n` mappings supplies `k`.
    pub open spec fn is_supplied(self, n: int, k: KeyCode) -> bool {
        exists|i: int| i < n && #[trigger] self.supplies(i, k)
    }

    /// The held keys, but for modifiers, that a mapping which fires takes.
    pub open spec fn consumed_keys(self) -> Set<KeyCode> {
        Set::new(
            |k: KeyCode|
                self.held.contains_key(k) && !self.is_modifier(k) && exists|i: int| #[trigger]
                    self.consumes(i, k),
        )
    }

    /// The members to suppress once the remapping is through: those that a mapping has once
    /// taken, unless one that fires puts them out.
    pub open spec fn suppressed_keys(self) -> Set<KeyCode> {
        Set::new(
            |k: KeyCode|
                self.members_by(Membership::Consumed).contains(k) && !exists|i: int| #[trigger]
                    self.supplies(i, k),
        )
    }

    /// The effective set of keys that are pressed.
    pub open spec fn desired_keys(self) -> Set<KeyCode> {
        self.remapping(self.mappings.len() as int).keys.difference(self.suppressed_keys())
    }

    /// The mapping that gives `code` a dual role: the first one.
    pub open spec fn dual_role_mapping(self, code: KeyCode) -> Option<MappingView> {
        if exists|i: int| is_first_dual_role(self.mappings, code, i) {
            Some(self.mappings[choose|i: int| is_first_dual_role(self.mappings, code, i)])
        } else {
            None
        }
    }

    /// The chord that `code` makes complete: the one with the most keys.
    pub open spec fn chord_mapping(self, code: KeyCode) -> Option<MappingView> {
        if exists|i: int| is_best_chord(self.mappings, self.held.dom(), code, i) {
            Some(
                self.mappings[choose|i: int|
                    is_best_chord(self.mappings, self.held.dom(), code, i)],
            )
        } else {
            None
        }
    }

    /// The mapping that applies to `code`: its dual role, or else a chord.
    pub open spec fn mapping_for(self, code: KeyCode) -> Option<MappingView> {
        match self.dual_role_mapping(code) {
            Some(mapping) => Some(mapping),
            None => self.chord_mapping(code),
        }
    }

    /// The actions bring the output device from the keys that are down in it to the desired
    /// ones: they release what is not desired, modifiers last, and then press what is missing,
    /// modifiers first.
    pub open spec fn syncs(self, time: int, actions: Seq<Action>) -> bool {
        exists|released: Seq<KeyCode>, pressed: Seq<KeyCode>| #[trigger]
            self.syncs_by(time, actions, released, pressed)
    }

    /// The actions bring the output device to the desired keys by releasing and pressing these.
    pub open spec fn syncs_by(
        self,
        time: int,
        actions: Seq<Action>,
        released: Seq<KeyCode>,
        pressed: Seq<KeyCode>,
    ) -> bool {
        &&& keys::lists(released, self.output_keys.difference(self.desired_keys()))
        &&& keys::modifiers_trail(released, self.modifier_keys)
        &&& keys::lists(pressed, self.desired_keys().difference(self.output_keys))
        &&& keys::modifiers_lead(pressed, self.modifier_keys)
        &&& actions == key_writes(released, time, KeyEventType::Release) + key_writes(
            pressed,
            time,
            KeyEventType::Press,
        )
    }

    /// The state once the event about `code` has been taken in, before anything is done about
    /// it.
    pub open spec fn taken_in(self, event: InputEvent, code: KeyCode) -> MapperState {
        match KeyEventType::spec_from_value(event.value) {
            KeyEventType::Release => if self.held.contains_key(code) {
                self.with_released(code)
            } else {
                self
            },
            KeyEventType::Press => self.with_pressed(code, event.time),
            KeyEventType::Repeat => if self.mapping_for(code) is None && !self.chord_keys.contains_key(code) {
                MapperState { tapping: None, ..self }
            } else {
                self
            },
            KeyEventType::Unknown(_) => self,
        }
    }

    /// The state with every key that a chord consumes counted as a member.
    pub open spec fn settled(self) -> MapperState {
        MapperState {
            chord_keys: members(self.consumed_keys(), Membership::Consumed).union_prefer_right(
                self.chord_keys,
            ),
            ..self
        }
    }

    /// The state once `code` has come up.
    pub open spec fn with_released(self, code: KeyCode) -> MapperState {
        self.with_key_up(code).settled()
    }

    /// The state without `code` among the held keys and the members of chords.
    pub open spec fn with_key_up(self, code: KeyCode) -> MapperState {
        MapperState {
            held: self.held.remove(code),
            chord_keys: if self.is_modifier(code) {
                self.chord_keys
            } else {
                self.chord_keys.remove(code)
            },
            ..self
        }
    }

    /// The state once `code` has gone down.
    pub open spec fn with_pressed(self, code: KeyCode, time: i128) -> MapperState {
        self.with_key_down(code, time).settled()
    }

    /// The state with `code` among the held keys. If that completes a chord of held keys, its keys
    /// other than modifiers become members; if no mapping applies, nothing is being tapped.
    pub open spec fn with_key_down(self, code: KeyCode, time: i128) -> MapperState {
        let held = MapperState { held: self.held.insert(code, time), ..self };
        match held.mapping_for(code) {
            Some(MappingView::Remap { input, output }) => MapperState {
                chord_keys: self.chord_keys.union_prefer_right(
                    members(input.difference(self.modifier_keys), Membership::Mapped),
                ),
                ..held
            },
            Some(_) => held,
            None => MapperState { tapping: None, ..held },
        }
    }

    /// Whether the event about `code` may change the desired keys, so that the output device
    /// has to be brought to them.
    pub open spec fn calls_for_sync(self, event: InputEvent, code: KeyCode) -> bool {
        match KeyEventType::spec_from_value(event.value) {
            KeyEventType::Release => self.held.contains_key(code),
            KeyEventType::Press => true,
            _ => false,
        }
    }

    /// Whether new events are made about the event about `code`, which are to be stamped with
    /// its moment.
    pub open spec fn calls_for_stamp(self, event: InputEvent, code: KeyCode) -> bool {
        match KeyEventType::spec_from_value(event.value) {
            KeyEventType::Repeat => self.mapping_for(code) matches Some(
                MappingView::DualRole { .. },
            ),
            _ => self.calls_for_sync(event, code),
        }
    }

    /// What is done about the event about `code`, beyond bringing the output device to the
    /// desired keys.
    pub open spec fn further_actions(self, event: InputEvent, code: KeyCode) -> Seq<Action> {
        match KeyEventType::spec_from_value(event.value) {
            KeyEventType::Release => if self.held.contains_key(code) {
                self.release_actions(event, code)
            } else {
                seq![Action::Write(event)]
            },
            KeyEventType::Press => if (MapperState {
                held: self.held.insert(code, event.time),
                ..self
            }).mapping_for(code) is Some {
                seq![Action::ArmTap(code)]
            } else {
                seq![]
            },
            KeyEventType::Repeat => match self.mapping_for(code) {
                Some(MappingView::DualRole { input, hold, tap }) => key_writes(
                    hold,
                    event.time as int,
                    KeyEventType::Repeat,
                ),
                Some(MappingView::Remap { input, output }) => if input.subset_of(self.held.dom()) {
                    seq![]
                } else {
                    seq![Action::Write(event)]
                },
                Some(MappingView::ModifierKey { keys }) => seq![],
                None => if self.chord_keys.contains_key(code) {
                    seq![]
                } else {
                    seq![Action::Write(event)]
                },
            },
            KeyEventType::Unknown(_) => seq![Action::Write(event)],
        }
    }

    /// What is done about `code` coming up, beyond bringing the output device to the desired
    /// keys: a dual-role key ends what is being tapped, and is tapped if that is the key itself
    /// and it comes up quickly.
    pub open spec fn release_actions(self, event: InputEvent, code: KeyCode) -> Seq<Action> {
        match (self.dual_role_mapping(code), self.tapping) {
            (Some(MappingView::DualRole { input, hold, tap }), Some(tapping)) => if tapping == code
                && is_quick(self.held[code] as int, event.time as int) {
                seq![Action::CancelTap] + key_writes(tap, event.time as int, KeyEventType::Press)
                    + key_writes(tap, event.time as int, KeyEventType::Release)
            } else {
                seq![Action::CancelTap]
            },
            _ => seq![],
        }
    }

    /// The actions are what is done about the event about `code`.
    pub open spec fn answers(self, event: InputEvent, code: KeyCode, actions: Seq<Action>) -> bool {
        if self.calls_for_sync(event, code) {
            exists|sync: Seq<Action>| #[trigger]
                self.taken_in(event, code).syncs(event.time as int, sync) && actions == sync
                    + self.further_actions(event, code)
        } else {
            actions == self.further_actions(event, code)
        }
    }

    /// The state once an event has been read, before anything is done about it. Only key events
    /// are taken in.
    pub open spec fn read(self, event: InputEvent) -> MapperState {
        match event.spec_key() {
            Some(code) => self.taken_in(event, code),
            None => self,
        }
    }

    /// The actions are what is done about an event that has been read. One that is no key event
    /// is passed on as it is.
    pub open spec fn answers_read(self, event: InputEvent, actions: Seq<Action>) -> bool {
        match event.spec_key() {
            Some(code) => self.answers(event, code, actions),
            None => actions == seq![Action::Write(event)],
        }
    }

    /// The turns are what is done, event after event, about the events of a run.
    pub open spec fn answers_run(self, events: Seq<InputEvent>, turns: Seq<Seq<Action>>) -> bool
        decreases events.len(),
    {
        events.len() == turns.len() && (events.len() > 0 ==> {
            &&& self.answers_run(events.drop_last(), turns.drop_last())
            &&& self.after_run(events.drop_last(), turns.drop_last()).answers_read(
                events.last(),
                turns.last(),
            )
        })
    }

    /// The state once the events of a run have been read and everything has been done about each
    /// of them in its turn.
    pub open spec fn after_run(self, events: Seq<InputEvent>, turns: Seq<Seq<Action>>) -> MapperState
        decreases events.len(),
    {
        if events.len() == 0 {
            self
        } else {
            self.after_run(events.drop_last(), turns.drop_last()).read(events.last()).done_all(
                turns.last(),
            )
        }
    }

    /// The state once one action has been carried out.
    pub open spec fn done(self, action: Action) -> MapperState {
        match action {
            Action::Write(event) => MapperState {
                output_keys: keys_after_write(self.output_keys, event),
                ..self
            },
            Action::ArmTap(code) => MapperState { tapping: Some(code), ..self },
            Action::CancelTap => MapperState { tapping: None, ..self },
        }
    }

    /// The state once all the actions have been carried out.
    pub open spec fn done_all(self, actions: Seq<Action>) -> MapperState
        decreases actions.len(),
    {
        if actions.len() == 0 {
            self
        } else {
            self.done_all(actions.drop_last()).done(actions.last())
        }
    }
}

/// What the remapping consists of, when it goes past one more mapping.
pub proof fn lemma_remapping_next(s: MapperState, i: int)
    requires
        0 <= i < s.mappings.len(),
    ensures
        s.remapping(i + 1) == remap_step(
            s.mappings[i],
            s.members_by(Membership::Mapped),
            s.modifier_keys,
            s.remapping(i),
        ),
        forall|k: KeyCode| #[trigger]
            s.is_consumed(i + 1, k) <==> s.is_consumed(i, k) || s.consumes(i, k),
        forall|k: KeyCode| #[trigger]
            s.is_supplied(i + 1, k) <==> s.is_supplied(i, k) || s.supplies(i, k),
{
    let next = s.mappings.take(i + 1);
    assert(next.drop_last() == s.mappings.take(i));
    assert(next.last() == s.mappings[i]);
    assert forall|k: KeyCode| #[trigger]
        s.is_consumed(i + 1, k) <==> s.is_consumed(i, k) || s.consumes(i, k) by {
        if s.is_consumed(i, k) {
            let j = choose|j: int| j < i && #[trigger] s.consumes(j, k);
            assert(j < i + 1 && s.consumes(j, k));
        }
    }
    assert forall|k: KeyCode| #[trigger]
        s.is_supplied(i + 1, k) <==> s.is_supplied(i, k) || s.supplies(i, k) by {
        if s.is_supplied(i, k) {
            let j = choose|j: int| j < i && #[trigger] s.supplies(j, k);
            assert(j < i + 1 && s.supplies(j, k));
        }
    }
}

} // verus!

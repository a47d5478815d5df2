//! Input events and the moments at which they happen.
use std::time::{Duration, SystemTime};
use vstd::prelude::*;

verus! {

/// The number the kernel assigns to a key or button.
pub type KeyCode = u16;

/// The type number of key events.
pub const EV_KEY: u16 = 1;

/// Nanoseconds in a second.
pub const NANOS_PER_SEC: i128 = 1_000_000_000;

/// The moments that can be stamped on an event lie strictly between `-TIME_LIMIT` and
/// `TIME_LIMIT`: their whole seconds fit in an `isize`.
pub const TIME_LIMIT: i128 = (isize::MAX as i128 + 1) * NANOS_PER_SEC;

/// What happened to a key.
#[derive(Clone, Copy, Debug, PartialEq, Eq, Structural)]
pub enum KeyEventType {
    Release,
    Press,
    Repeat,
    Unknown(i32),
}

impl KeyEventType {
    /// The meaning of the value field of a key event.
    pub open spec fn spec_from_value(value: i32) -> KeyEventType {
        if value == 0 {
            KeyEventType::Release
        } else if value == 1 {
            KeyEventType::Press
        } else if value == 2 {
            KeyEventType::Repeat
        } else {
            KeyEventType::Unknown(value)
        }
    }

    /// The value field that says this.
    pub open spec fn spec_value(self) -> i32 {
        match self {
            KeyEventType::Release => 0,
            KeyEventType::Press => 1,
            KeyEventType::Repeat => 2,
            KeyEventType::Unknown(n) => n,
        }
    }

    pub fn from_value(value: i32) -> (r: Self)
        ensures
            r == Self::spec_from_value(value),
    {
        match value {
            0 => KeyEventType::Release,
            1 => KeyEventType::Press,
            2 => KeyEventType::Repeat,
            _ => KeyEventType::Unknown(value),
        }
    }

    pub fn value(&self) -> (r: i32)
        ensures
            r == self.spec_value(),
    {
        match self {
            Self::Release => 0,
            Self::Press => 1,
            Self::Repeat => 2,
            Self::Unknown(n) => *n,
        }
    }
}

/// An input event: its type, its code, its value, and the moment at which it happened, in
/// nanoseconds since the Unix epoch.
#[derive(Clone, Copy, Debug, PartialEq, Eq, Structural)]
pub struct InputEvent {
    pub event_type: u16,
    pub code: u16,
    pub value: i32,
    pub time: i128,
}

impl InputEvent {
    /// The key that the event is about; none where it is not a key event.
    pub open spec fn spec_key(self) -> Option<KeyCode> {
        if self.event_type == EV_KEY {
            Some(self.code)
        } else {
            None
        }
    }

    /// The key that the event is about; none where it is not a key event.
    pub fn key(&self) -> (r: Option<KeyCode>)
        ensures
            r == self.spec_key(),
    {
        key_of_event(self.event_type, self.code)
    }
}

/// A length of time: whole seconds, and the nanoseconds beyond them.
#[derive(Clone, Copy, Debug, PartialEq, Eq, Structural)]
pub struct Span {
    pub secs: u64,
    pub nanos: u32,
}

impl Span {
    /// The length in nanoseconds.
    pub open spec fn length(self) -> int {
        self.secs * 1_000_000_000 + self.nanos
    }

    /// The nanoseconds make less than a second.
    pub open spec fn is_split(self) -> bool {
        self.nanos < 1_000_000_000
    }
}

/// Whether an event can be stamped with this moment.
pub open spec fn is_stampable(time: int) -> bool {
    -TIME_LIMIT < time < TIME_LIMIT
}

/// The moment that an event reports once it has been stamped with `time`. A stamp keeps
/// whole microseconds, and its sign is that of its whole seconds: less than a second before
/// the epoch reads as that long after it.
pub open spec fn stamped(time: int) -> int {
    let magnitude = if time < 0 { -time } else { time };
    let kept = magnitude - magnitude % 1000;
    if time <= -NANOS_PER_SEC {
        -kept
    } else {
        kept
    }
}

/// The moment that lies `after` behind the epoch and `before` ahead of it; one of the two is
/// empty where the moment comes from a clock.
pub fn moment(after: Span, before: Span) -> (r: i128)
    ensures
        r == after.length() - before.length(),
{
    (after.secs as i128 * NANOS_PER_SEC + after.nanos as i128) - (before.secs as i128
        * NANOS_PER_SEC + before.nanos as i128)
}

/// The lengths of time by which a moment lies behind the epoch and ahead of it; one of the two is
/// empty.
pub fn spans(time: i128) -> (r: (Span, Span))
    requires
        is_stampable(time as int),
    ensures
        r.0.length() - r.1.length() == time,
        r.0.length() == 0 || r.1.length() == 0,
        r.0.is_split() && r.0.secs <= isize::MAX,
        r.1.is_split() && r.1.secs <= isize::MAX,
{
    let none = Span { secs: 0, nanos: 0 };
    if time >= 0 {
        (span(time), none)
    } else {
        (none, span(-time))
    }
}

/// The length of time with that many nanoseconds.
fn span(nanos: i128) -> (r: Span)
    requires
        0 <= nanos < TIME_LIMIT,
    ensures
        r.length() == nanos,
        r.is_split(),
        r.secs <= isize::MAX,
{
    let whole: u128 = nanos as u128;
    Span { secs: (whole / 1_000_000_000) as u64, nanos: (whole % 1_000_000_000) as u32 }
}

/// `evdevil::event::InputEvent::new` with the type `EventType::KEY`, read back by its getters:
/// it fills in the fields, and that type has the number of key events.
#[verifier::external_body]
fn new_key_event(code: u16, value: i32) -> (r: (u16, u16, i32))
    ensures
        r == (EV_KEY, code, value),
{
    let made = evdevil::event::InputEvent::new(evdevil::event::EventType::KEY, code, value);
    (made.event_type().raw(), made.raw_code(), made.raw_value())
}

/// `evdevil::event::InputEvent::with_time`, read back by `InputEvent::time`. The stamp holds
/// whole seconds, negated for a moment ahead of the epoch, and the microseconds beyond them;
/// it reads as that long after the epoch, or as that long before it where the seconds are
/// negative. `with_time` panics where the seconds do not fit a `time_t`, which has at least the
/// width of an `isize`; a `SystemTime` holds every moment within these bounds.
#[verifier::external_body]
fn stamp(after: Span, before: Span) -> (r: (Span, Span))
    requires
        after.is_split(),
        before.is_split(),
        after.secs <= isize::MAX,
        before.secs <= isize::MAX,
        after.length() == 0 || before.length() == 0,
    ensures
        r.0.length() - r.1.length() == stamped(after.length() - before.length()),
{
    let epoch = SystemTime::UNIX_EPOCH;
    let at = epoch + Duration::new(after.secs, after.nanos) - Duration::new(before.secs, before.nanos);
    let time = evdevil::event::InputEvent::zeroed().with_time(at).time();
    let later = time.duration_since(epoch).unwrap_or_default();
    let earlier = epoch.duration_since(time).unwrap_or_default();
    (
        Span { secs: later.as_secs(), nanos: later.subsec_nanos() },
        Span { secs: earlier.as_secs(), nanos: earlier.subsec_nanos() },
    )
}

/// `evdevil::event::InputEvent::kind` on an event with this type and code, and
/// `evdevil::event::KeyEvent::key`: the kind is `EventKind::Key` exactly for the type
/// `EventType::KEY`, and the key is then the event's code.
#[verifier::external_body]
fn key_of_event(event_type: u16, code: u16) -> (r: Option<KeyCode>)
    ensures
        r == (if event_type == EV_KEY { Some(code) } else { None }),
{
    let event_type = evdevil::event::EventType::from_raw(event_type);
    match evdevil::event::InputEvent::new(event_type, code, 0).kind() {
        evdevil::event::EventKind::Key(key_event) => Some(key_event.key().raw()),
        _ => None,
    }
}

/// The event by which `key` is said to have been pressed, released or repeated at `time`.
pub open spec fn spec_make_event(key: KeyCode, time: int, event_type: KeyEventType) -> InputEvent {
    InputEvent {
        event_type: EV_KEY,
        code: key,
        value: event_type.spec_value(),
        time: stamped(time) as i128,
    }
}

/// The event by which `key` is said to have been pressed, released or repeated at `time`.
pub fn make_event(key: KeyCode, time: i128, event_type: KeyEventType) -> (r: InputEvent)
    requires
        is_stampable(time as int),
    ensures
        r == spec_make_event(key, time as int, event_type),
{
    let (after, before) = spans(time);
    let (later, earlier) = stamp(after, before);
    let (event_type, code, value) = new_key_event(key, event_type.value());
    InputEvent { event_type, code, value, time: moment(later, earlier) }
}

} // verus!

//! The mappings of a configuration: what each key, or set of keys, is turned into.
use crate::event::KeyCode;
use crate::keys::{copy_set, set_of};
use std::collections::HashSet;
use vstd::prelude::*;

verus! {

/// A configuration: the device that it is for, and its mappings in order of precedence.
#[derive(Debug, Clone)]
pub struct MappingConfig {
    pub device_name: Option<String>,
    pub phys: Option<String>,
    pub mappings: Vec<Mapping>,
}

/// One mapping.
#[derive(Debug, Eq, PartialEq)]
#[allow(inconsistent_fields)]
pub enum Mapping {
    /// The key `input` acts as the keys `hold` while it is down, and as the keys `tap` when it
    /// is pressed and released quickly.
    DualRole { input: KeyCode, hold: Vec<KeyCode>, tap: Vec<KeyCode> },
    /// The keys `input`, held together, act as the keys `output`.
    Remap { input: HashSet<KeyCode>, output: HashSet<KeyCode> },
    /// The keys `keys` are modifiers.
    ModifierKey { keys: HashSet<KeyCode> },
}

/// What a mapping says.
#[allow(inconsistent_fields)]
pub enum MappingView {
    DualRole { input: KeyCode, hold: Seq<KeyCode>, tap: Seq<KeyCode> },
    Remap { input: Set<KeyCode>, output: Set<KeyCode> },
    ModifierKey { keys: Set<KeyCode> },
}

impl View for Mapping {
    type V = MappingView;

    open spec fn view(&self) -> MappingView {
        match self {
            Mapping::DualRole { input, hold, tap } => MappingView::DualRole {
                input: *input,
                hold: hold@,
                tap: tap@,
            },
            Mapping::Remap { input, output } => MappingView::Remap {
                input: input@,
                output: output@,
            },
            Mapping::ModifierKey { keys } => MappingView::ModifierKey { keys: keys@ },
        }
    }
}

impl Clone for Mapping {
    fn clone(&self) -> (r: Self)
        ensures
            r@ == self@,
    {
        match self {
            Mapping::DualRole { input, hold, tap } => {
                let r = Mapping::DualRole { input: *input, hold: hold.clone(), tap: tap.clone() };
                assert(r@->hold == hold@);
                assert(r@->tap == tap@);
                r
            },
            Mapping::Remap { input, output } => Mapping::Remap {
                input: copy_set(input),
                output: copy_set(output),
            },
            Mapping::ModifierKey { keys } => Mapping::ModifierKey { keys: copy_set(keys) },
        }
    }
}

/// What the mappings of a list say.
pub open spec fn views(mappings: Seq<Mapping>) -> Seq<MappingView> {
    mappings.map_values(|m: Mapping| m@)
}

/// Why a configuration cannot be used.
#[derive(Debug)]
pub enum ConfigError {
    InvalidKey(String),
    ImpossibleParseKey,
}

impl ConfigError {
    /// What to tell the user.
    pub open spec fn spec_message(self) -> Seq<char> {
        match self {
            ConfigError::InvalidKey(name) => "Invalid key `"@ + name@
                + "`.  Use `evremap list-keys` to see possible keys."@,
            ConfigError::ImpossibleParseKey =>
                "Impossible: parsed KEY_XXX but not into an EV_KEY"@,
        }
    }

    /// What to tell the user.
    pub fn message(&self) -> (r: String)
        ensures
            r@ == self.spec_message(),
    {
        match self {
            ConfigError::InvalidKey(name) => {
                let mut message = String::from_str("Invalid key `");
                message.append(name.as_str());
                message.append("`.  Use `evremap list-keys` to see possible keys.");
                message
            },
            ConfigError::ImpossibleParseKey => String::from_str(
                "Impossible: parsed KEY_XXX but not into an EV_KEY",
            ),
        }
    }
}

/// What a name stands for among the event codes: a key, or something else.
#[derive(Debug, Clone, Copy, PartialEq, Eq, Structural)]
pub enum EventCode {
    Key(KeyCode),
    Other,
}

/// A key that a configuration gives by its name.
#[derive(Debug)]
pub struct KeyCodeWrapper {
    pub code: KeyCode,
}

impl KeyCodeWrapper {
    pub fn into(self) -> (r: KeyCode)
        ensures
            r == self.code,
    {
        self.code
    }

    /// The key with the name `s`, where `found` is what the name was found to stand for.
    pub fn try_from(s: String, found: Option<EventCode>) -> (r: Result<KeyCodeWrapper, ConfigError>)
        ensures
            match found {
                Some(EventCode::Key(code)) => r == Ok::<KeyCodeWrapper, ConfigError>(
                    KeyCodeWrapper { code },
                ),
                Some(EventCode::Other) => r == Err::<KeyCodeWrapper, ConfigError>(
                    ConfigError::ImpossibleParseKey,
                ),
                None => r == Err::<KeyCodeWrapper, ConfigError>(ConfigError::InvalidKey(s)),
            },
    {
        match found {
            Some(code) => match code {
                EventCode::Key(code) => Ok(KeyCodeWrapper { code }),
                _ => Err(ConfigError::ImpossibleParseKey),
            },
            None => Err(ConfigError::InvalidKey(s)),
        }
    }
}

/// The keys of a list of named keys.
pub open spec fn codes(keys: Seq<KeyCodeWrapper>) -> Seq<KeyCode> {
    keys.map_values(|k: KeyCodeWrapper| k.code)
}

/// The keys of a list of named keys.
fn list_codes(keys: Vec<KeyCodeWrapper>) -> (r: Vec<KeyCode>)
    ensures
        r@ == codes(keys@),
{
    let mut list: Vec<KeyCode> = Vec::new();
    let ghost all = keys@;
    for key in it: keys
        invariant
            it.seq() == all,
            list@ == codes(all.take(it.index())),
    {
        list.push(key.into());
    }
    assert(all.take(all.len() as int) == all);
    list
}

/// A `DualRole` mapping as it stands in a configuration.
#[derive(Debug)]
pub struct DualRoleConfig {
    pub input: KeyCodeWrapper,
    pub hold: Vec<KeyCodeWrapper>,
    pub tap: Vec<KeyCodeWrapper>,
}

impl DualRoleConfig {
    /// What the mapping says.
    pub open spec fn mapping(self) -> MappingView {
        MappingView::DualRole {
            input: self.input.code,
            hold: codes(self.hold@),
            tap: codes(self.tap@),
        }
    }

    pub fn into(self) -> (r: Mapping)
        ensures
            r@ == self.mapping(),
    {
        Mapping::DualRole {
            input: self.input.into(),
            hold: list_codes(self.hold),
            tap: list_codes(self.tap),
        }
    }
}

/// A `Remap` mapping as it stands in a configuration.
#[derive(Debug)]
pub struct RemapConfig {
    pub input: Vec<KeyCodeWrapper>,
    pub output: Vec<KeyCodeWrapper>,
}

impl RemapConfig {
    /// What the mapping says.
    pub open spec fn mapping(self) -> MappingView {
        MappingView::Remap {
            input: codes(self.input@).to_set(),
            output: codes(self.output@).to_set(),
        }
    }

    pub fn into(self) -> (r: Mapping)
        ensures
            r@ == self.mapping(),
    {
        let input = list_codes(self.input);
        let output = list_codes(self.output);
        Mapping::Remap { input: set_of(&input), output: set_of(&output) }
    }
}

/// A `ModifierKey` mapping as it stands in a configuration.
#[derive(Debug)]
pub struct ModifierKeyConfig {
    pub keys: Vec<KeyCodeWrapper>,
}

impl ModifierKeyConfig {
    /// What the mapping says.
    pub open spec fn mapping(self) -> MappingView {
        MappingView::ModifierKey { keys: codes(self.keys@).to_set() }
    }

    pub fn into(self) -> (r: Mapping)
        ensures
            r@ == self.mapping(),
    {
        let keys = list_codes(self.keys);
        Mapping::ModifierKey { keys: set_of(&keys) }
    }
}

/// A configuration as it stands in a file.
#[derive(Debug)]
pub struct ConfigFile {
    pub device_name: Option<String>,
    pub phys: Option<String>,
    pub dual_role: Vec<DualRoleConfig>,
    pub remap: Vec<RemapConfig>,
    pub modifier_keys: Vec<ModifierKeyConfig>,
}

impl ConfigFile {
    /// What its mappings say: those with a dual role first, then those that remap, then the
    /// modifiers.
    pub open spec fn mappings(self) -> Seq<MappingView> {
        self.dual_role@.map_values(|c: DualRoleConfig| c.mapping()) + self.remap@.map_values(
            |c: RemapConfig| c.mapping(),
        ) + self.modifier_keys@.map_values(|c: ModifierKeyConfig| c.mapping())
    }
}

impl MappingConfig {
    /// The configuration that a file holds.
    pub fn from_file(config_file: ConfigFile) -> (r: Self)
        ensures
            r.device_name == config_file.device_name,
            r.phys == config_file.phys,
            views(r.mappings@) == config_file.mappings(),
    {
        let ghost duals = config_file.dual_role@;
        let ghost remaps = config_file.remap@;
        let ghost modifiers = config_file.modifier_keys@;
        let mut mappings: Vec<Mapping> = Vec::new();
        for dual in it: config_file.dual_role
            invariant
                it.seq() == duals,
                views(mappings@) == duals.take(it.index()).map_values(
                    |c: DualRoleConfig| c.mapping(),
                ),
        {
            let ghost before = mappings@;
            let mapping = dual.into();
            mappings.push(mapping);
            assert(views(mappings@) == views(before).push(mapping@));
            assert(duals.take(it.index() + 1) == duals.take(it.index()).push(duals[it.index()]));
        }
        let ghost first = duals.map_values(|c: DualRoleConfig| c.mapping());
        assert(views(mappings@) == first);
        for remap in it: config_file.remap
            invariant
                it.seq() == remaps,
                views(mappings@) == first + remaps.take(it.index()).map_values(
                    |c: RemapConfig| c.mapping(),
                ),
        {
            let ghost before = mappings@;
            let mapping = remap.into();
            mappings.push(mapping);
            assert(views(mappings@) == views(before).push(mapping@));
            assert(remaps.take(it.index() + 1) == remaps.take(it.index()).push(remaps[it.index()]));
        }
        let ghost second = first + remaps.map_values(|c: RemapConfig| c.mapping());
        assert(views(mappings@) == second);
        for modifier_key in it: config_file.modifier_keys
            invariant
                it.seq() == modifiers,
                views(mappings@) == second + modifiers.take(it.index()).map_values(
                    |c: ModifierKeyConfig| c.mapping(),
                ),
        {
            let ghost before = mappings@;
            let mapping = modifier_key.into();
            mappings.push(mapping);
            assert(views(mappings@) == views(before).push(mapping@));
            assert(modifiers.take(it.index() + 1) == modifiers.take(it.index()).push(modifiers[it.index()]));
        }
        MappingConfig { device_name: config_file.device_name, phys: config_file.phys, mappings }
    }
}

} // verus!

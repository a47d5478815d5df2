use evdevil::event::Key;
use evremap::mapping::{
    ConfigError, ConfigFile, DualRoleConfig, EventCode, KeyCodeWrapper, Mapping, MappingConfig,
    ModifierKeyConfig, RemapConfig,
};
use std::collections::HashSet;

fn named(name: &str) -> KeyCodeWrapper {
    let found = name.parse::<Key>().ok().map(|key| EventCode::Key(key.raw()));
    KeyCodeWrapper::try_from(name.to_string(), found).unwrap()
}

fn keys_of(table: &toml::Value, field: &str) -> Vec<KeyCodeWrapper> {
    let keys = table.get(field).unwrap().as_array().unwrap();
    keys.iter().map(|key| named(key.as_str().unwrap())).collect()
}

fn tables(file: &toml::Table, field: &str) -> Vec<toml::Value> {
    match file.get(field) {
        Some(list) => list.as_array().unwrap().clone(),
        None => vec![],
    }
}

fn parse(toml_data: &str) -> ConfigFile {
    let file: toml::Table = toml::from_str(toml_data).unwrap();
    let text = |field: &str| file.get(field).map(|s| s.as_str().unwrap().to_string());
    ConfigFile {
        device_name: text("device_name"),
        phys: text("phys"),
        dual_role: tables(&file, "dual_role")
            .iter()
            .map(|t| DualRoleConfig {
                input: named(t.get("input").unwrap().as_str().unwrap()),
                hold: keys_of(t, "hold"),
                tap: keys_of(t, "tap"),
            })
            .collect(),
        remap: tables(&file, "remap")
            .iter()
            .map(|t| RemapConfig { input: keys_of(t, "input"), output: keys_of(t, "output") })
            .collect(),
        modifier_keys: tables(&file, "modifier_keys")
            .iter()
            .map(|t| ModifierKeyConfig { keys: keys_of(t, "keys") })
            .collect(),
    }
}

#[test]
fn modifier_keys_initialization() {
    let toml_data = "[[modifier_keys]]
            keys = [\"KEY_FN\", \"KEY_LEFTCTRL\"]";
    let config_file: ConfigFile = parse(toml_data);
    let mut mappings: Vec<Mapping> = vec![];
    for dual in config_file.dual_role {
        mappings.push(dual.into());
    }
    for remap in config_file.remap {
        mappings.push(remap.into());
    }
    for modifier_key in config_file.modifier_keys {
        mappings.push(modifier_key.into());
    }

    assert!(mappings.contains(&Mapping::ModifierKey {
        keys: HashSet::from([Key::KEY_FN.raw(), Key::KEY_LEFTCTRL.raw()])
    }));
}

#[test]
fn configuration_keeps_the_order_of_its_kinds() {
    let config = MappingConfig::from_file(parse(
        "device_name = \"Keychron K2\"
        [[remap]]
        input = [\"KEY_LEFTALT\", \"KEY_Q\", \"KEY_Q\"]
        output = [\"KEY_1\"]
        [[modifier_keys]]
        keys = [\"KEY_LEFTALT\"]
        [[dual_role]]
        input = \"KEY_CAPSLOCK\"
        hold = [\"KEY_LEFTCTRL\", \"KEY_LEFTCTRL\"]
        tap = [\"KEY_ESC\"]
        [[dual_role]]
        input = \"KEY_TAB\"
        hold = []
        tap = [\"KEY_TAB\"]",
    ));
    assert_eq!(config.device_name, Some("Keychron K2".to_string()));
    assert_eq!(config.phys, None);
    assert_eq!(
        config.mappings,
        vec![
            Mapping::DualRole { input: 58, hold: vec![29, 29], tap: vec![1] },
            Mapping::DualRole { input: 15, hold: vec![], tap: vec![15] },
            Mapping::Remap { input: HashSet::from([56, 16]), output: HashSet::from([2]) },
            Mapping::ModifierKey { keys: HashSet::from([56]) },
        ]
    );
}

#[test]
fn configuration_may_be_empty() {
    let config = MappingConfig::from_file(parse("phys = \"usb-0000:00:14.0-1/input0\""));
    assert_eq!(config.device_name, None);
    assert_eq!(config.phys, Some("usb-0000:00:14.0-1/input0".to_string()));
    assert_eq!(config.mappings, vec![]);
}

#[test]
fn key_names() {
    let found = KeyCodeWrapper::try_from("KEY_A".to_string(), Some(EventCode::Key(30)));
    assert_eq!(found.unwrap().into(), 30);
    let missing = KeyCodeWrapper::try_from("KEY_NONESUCH".to_string(), None);
    match missing {
        Err(ConfigError::InvalidKey(name)) => assert_eq!(name, "KEY_NONESUCH"),
        _ => panic!("the name is not that of a key"),
    }
    let other = KeyCodeWrapper::try_from("REL_X".to_string(), Some(EventCode::Other));
    assert!(matches!(other, Err(ConfigError::ImpossibleParseKey)));
}

#[test]
fn error_messages() {
    assert_eq!(
        ConfigError::InvalidKey("KEY_NONESUCH".to_string()).message(),
        "Invalid key `KEY_NONESUCH`.  Use `evremap list-keys` to see possible keys."
    );
    assert_eq!(
        ConfigError::ImpossibleParseKey.message(),
        "Impossible: parsed KEY_XXX but not into an EV_KEY"
    );
}

#[test]
fn clones_say_the_same() {
    for mapping in [
        Mapping::DualRole { input: 58, hold: vec![29, 42], tap: vec![1] },
        Mapping::Remap { input: HashSet::from([56, 16]), output: HashSet::from([2]) },
        Mapping::ModifierKey { keys: HashSet::from([56, 100]) },
    ] {
        assert_eq!(mapping.clone(), mapping);
    }
}

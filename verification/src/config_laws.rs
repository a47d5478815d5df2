//! What holds of configurations.
use crate::event::KeyCode;
use crate::mapping;
use crate::mapping::{
    ConfigError, ConfigFile, DualRoleConfig, KeyCodeWrapper, Mapping, MappingView,
    ModifierKeyConfig, RemapConfig,
};
use vstd::prelude::*;

verus! {

/// A list of named keys gives as many codes, each in its place.
pub proof fn codes_keep_their_places(list: Seq<KeyCodeWrapper>, i: int)
    requires
        0 <= i < list.len(),
    ensures
        mapping::codes(list).len() == list.len(),
        mapping::codes(list)[i] == list[i].code,
{
}

/// Every key that a `remap` entry lists is in its mapping, on its side, and no other is.
pub proof fn remap_entry_keeps_every_key(entry: RemapConfig, k: KeyCode)
    ensures
        entry.mapping() matches MappingView::Remap { input, output } && {
            &&& input.contains(k) <==> exists|i: int|
                0 <= i < entry.input@.len() && (#[trigger] entry.input@[i]).code == k
            &&& output.contains(k) <==> exists|i: int|
                0 <= i < entry.output@.len() && (#[trigger] entry.output@[i]).code == k
        },
{
    lemma_set_of_codes(entry.input@, k);
    lemma_set_of_codes(entry.output@, k);
}

/// Every key that a `modifier_keys` entry lists is in its mapping, and no other is.
pub proof fn modifier_entry_keeps_every_key(entry: ModifierKeyConfig, k: KeyCode)
    ensures
        entry.mapping() matches MappingView::ModifierKey { keys } && (keys.contains(k)
            <==> exists|i: int|
            0 <= i < entry.keys@.len() && (#[trigger] entry.keys@[i]).code == k),
{
    lemma_set_of_codes(entry.keys@, k);
}

/// A `dual_role` entry keeps its key, and the keys of both of its lists in order, with repetitions.
pub proof fn dual_role_entry_keeps_its_lists(entry: DualRoleConfig)
    ensures
        entry.mapping() matches MappingView::DualRole { input, hold, tap } && {
            &&& input == entry.input.code
            &&& hold.len() == entry.hold@.len()
            &&& tap.len() == entry.tap@.len()
            &&& forall|i: int| 0 <= i < hold.len() ==> #[trigger] hold[i] == entry.hold@[i].code
            &&& forall|i: int| 0 <= i < tap.len() ==> #[trigger] tap[i] == entry.tap@[i].code
        },
{
}

proof fn lemma_set_of_codes(list: Seq<KeyCodeWrapper>, k: KeyCode)
    ensures
        mapping::codes(list).to_set().contains(k) <==> exists|i: int|
            0 <= i < list.len() && (#[trigger] list[i]).code == k,
{
    let all = mapping::codes(list);
    if all.contains(k) {
        let i = choose|i: int| 0 <= i < all.len() && all[i] == k;
        assert(list[i].code == k);
    }
    if exists|i: int| 0 <= i < list.len() && (#[trigger] list[i]).code == k {
        let i = choose|i: int| 0 <= i < list.len() && (#[trigger] list[i]).code == k;
        assert(all[i] == k);
    }
}

/// A configuration file gives one mapping for each of its entries: those with a dual role first,
/// then those that remap, then the modifiers, each kind in the order of the file.
pub proof fn file_keeps_every_entry(file: ConfigFile)
    ensures
        file.mappings().len() == file.dual_role@.len() + file.remap@.len()
            + file.modifier_keys@.len(),
        forall|i: int|
            0 <= i < file.dual_role@.len() ==> #[trigger] file.mappings()[i]
                == file.dual_role@[i].mapping(),
        forall|i: int|
            0 <= i < file.remap@.len() ==> file.mappings()[file.dual_role@.len() + i] == (
            #[trigger] file.remap@[i]).mapping(),
        forall|i: int|
            0 <= i < file.modifier_keys@.len() ==> file.mappings()[file.dual_role@.len()
                + file.remap@.len() + i] == (#[trigger] file.modifier_keys@[i]).mapping(),
{
}

/// What is said of a list of mappings is said of each of them, in its place.
pub proof fn views_keep_their_places(mappings: Seq<Mapping>, i: int)
    requires
        0 <= i < mappings.len(),
    ensures
        mapping::views(mappings).len() == mappings.len(),
        mapping::views(mappings)[i] == mappings[i]@,
{
}

/// What is said of a mapping leaves nothing of it out.
pub proof fn view_says_everything(m: Mapping)
    ensures
        m matches Mapping::DualRole { input, hold, tap } ==> (m@ matches MappingView::DualRole {
            input: i,
            hold: h,
            tap: t,
        } && i == input && h == hold@ && t == tap@),
        m matches Mapping::Remap { input, output } ==> (m@ matches MappingView::Remap {
            input: i,
            output: o,
        } && i == input@ && o == output@),
        m matches Mapping::ModifierKey { keys } ==> (m@ matches MappingView::ModifierKey {
            keys: k,
        } && k == keys@),
{
}

/// The message about an invalid key quotes the name in full and points to the list of keys; so the
/// messages about two names differ.
pub proof fn message_quotes_the_name(name: String, other: String)
    ensures
        ConfigError::InvalidKey(name).spec_message() == "Invalid key `"@ + name@
            + "`.  Use `evremap list-keys` to see possible keys."@,
        ConfigError::ImpossibleParseKey.spec_message()
            == "Impossible: parsed KEY_XXX but not into an EV_KEY"@,
        name@ != other@ ==> ConfigError::InvalidKey(name).spec_message()
            != ConfigError::InvalidKey(other).spec_message(),
{
    let head = "Invalid key `"@;
    let tail = "`.  Use `evremap list-keys` to see possible keys."@;
    let a = head + name@ + tail;
    let b = head + other@ + tail;
    if a == b {
        assert(a.len() == b.len());
        assert(a.subrange(head.len() as int, (head.len() + name@.len()) as int) =~= name@);
        assert(b.subrange(head.len() as int, (head.len() + other@.len()) as int) =~= other@);
    }
}

} // verus!

//! Sets and lists of keys, and the order in which modifiers stand in a list.
use crate::event::KeyCode;
use std::cmp::Ordering;
use std::collections::HashSet;
use vstd::prelude::*;

verus! {

broadcast use vstd::std_specs::hash::group_hash_axioms;

/// `list` holds each key of `keys` once, and nothing else.
pub open spec fn lists(list: Seq<KeyCode>, keys: Set<KeyCode>) -> bool {
    &&& list.no_duplicates()
    &&& forall|k: KeyCode| #[trigger] list.contains(k) <==> keys.contains(k)
}

/// No modifier stands behind another key.
pub open spec fn modifiers_lead(list: Seq<KeyCode>, modifiers: Set<KeyCode>) -> bool {
    forall|i: int, j: int|
        0 <= i < j < list.len() && modifiers.contains(#[trigger] list[j]) ==> modifiers.contains(
            #[trigger] list[i],
        )
}

/// No modifier stands ahead of another key.
pub open spec fn modifiers_trail(list: Seq<KeyCode>, modifiers: Set<KeyCode>) -> bool {
    forall|i: int, j: int|
        0 <= i < j < list.len() && modifiers.contains(#[trigger] list[i]) ==> modifiers.contains(
            #[trigger] list[j],
        )
}

/// The modifiers of a list, in the order that they have there.
pub open spec fn modifiers_of(list: Seq<KeyCode>, modifiers: Set<KeyCode>) -> Seq<KeyCode> {
    list.filter(|k: KeyCode| modifiers.contains(k))
}

/// The other keys of a list, in the order that they have there.
pub open spec fn others_of(list: Seq<KeyCode>, modifiers: Set<KeyCode>) -> Seq<KeyCode> {
    list.filter(|k: KeyCode| !modifiers.contains(k))
}

pub fn is_modifier(key: &KeyCode, modifier_keys: &HashSet<KeyCode>) -> (r: bool)
    ensures
        r == modifier_keys@.contains(*key),
{
    modifier_keys.contains(key)
}

/// Orders modifier keys ahead of non-modifier keys.
pub fn modifiers_first(
    a: &KeyCode,
    b: &KeyCode,
    modifier_keys: &HashSet<KeyCode>,
) -> (r: Ordering)
    ensures
        r == (if modifier_keys@.contains(*a) == modifier_keys@.contains(*b) {
            Ordering::Equal
        } else if modifier_keys@.contains(*a) {
            Ordering::Less
        } else {
            Ordering::Greater
        }),
{
    if is_modifier(a, modifier_keys) {
        if is_modifier(b, modifier_keys) {
            Ordering::Equal
        } else {
            Ordering::Less
        }
    } else if is_modifier(b, modifier_keys) {
        Ordering::Greater
    } else {
        Ordering::Equal
    }
}

/// Orders modifier keys behind non-modifier keys.
pub fn modifiers_last(
    a: &KeyCode,
    b: &KeyCode,
    modifier_keys: &HashSet<KeyCode>,
) -> (r: Ordering)
    ensures
        r == (if modifier_keys@.contains(*a) == modifier_keys@.contains(*b) {
            Ordering::Equal
        } else if modifier_keys@.contains(*a) {
            Ordering::Greater
        } else {
            Ordering::Less
        }),
{
    match modifiers_first(a, b, modifier_keys) {
        Ordering::Less => Ordering::Greater,
        Ordering::Equal => Ordering::Equal,
        Ordering::Greater => Ordering::Less,
    }
}

/// Where `key` goes in a list sorted by `modifiers_first`, behind the keys that compare as equal.
fn place_modifiers_first(
    key: &KeyCode,
    sorted: &Vec<KeyCode>,
    modifier_keys: &HashSet<KeyCode>,
) -> (at: usize)
    ensures
        at <= sorted.len(),
        at < sorted.len() ==> modifier_keys@.contains(*key),
        forall|j: int| at <= j < sorted.len() ==> !modifier_keys@.contains(#[trigger] sorted@[j]),
        at > 0 ==> !modifier_keys@.contains(*key) || modifier_keys@.contains(sorted@[at - 1]),
{
    let mut at: usize = sorted.len();
    while at > 0
        invariant
            at <= sorted.len(),
            at < sorted.len() ==> modifier_keys@.contains(*key),
            forall|j: int| at <= j < sorted.len() ==> !modifier_keys@.contains(#[trigger] sorted@[j]),
        decreases at,
    {
        match modifiers_first(key, &sorted[at - 1], modifier_keys) {
            Ordering::Less => {
                at = at - 1;
            },
            _ => {
                return at;
            },
        }
    }
    at
}

/// Where `key` goes in a list sorted by `modifiers_last`, behind the keys that compare as equal.
fn place_modifiers_last(
    key: &KeyCode,
    sorted: &Vec<KeyCode>,
    modifier_keys: &HashSet<KeyCode>,
) -> (at: usize)
    ensures
        at <= sorted.len(),
        at < sorted.len() ==> !modifier_keys@.contains(*key),
        forall|j: int| at <= j < sorted.len() ==> modifier_keys@.contains(#[trigger] sorted@[j]),
        at > 0 ==> modifier_keys@.contains(*key) || !modifier_keys@.contains(sorted@[at - 1]),
{
    let mut at: usize = sorted.len();
    while at > 0
        invariant
            at <= sorted.len(),
            at < sorted.len() ==> !modifier_keys@.contains(*key),
            forall|j: int| at <= j < sorted.len() ==> modifier_keys@.contains(#[trigger] sorted@[j]),
        decreases at,
    {
        match modifiers_last(key, &sorted[at - 1], modifier_keys) {
            Ordering::Less => {
                at = at - 1;
            },
            _ => {
                return at;
            },
        }
    }
    at
}

/// One more key joins the modifiers or the other keys of a list, at the end.
proof fn lemma_split_take(list: Seq<KeyCode>, i: int, modifiers: Set<KeyCode>)
    requires
        0 <= i < list.len(),
    ensures
        modifiers_of(list.take(i + 1), modifiers) == (if modifiers.contains(list[i]) {
            modifiers_of(list.take(i), modifiers).push(list[i])
        } else {
            modifiers_of(list.take(i), modifiers)
        }),
        others_of(list.take(i + 1), modifiers) == (if modifiers.contains(list[i]) {
            others_of(list.take(i), modifiers)
        } else {
            others_of(list.take(i), modifiers).push(list[i])
        }),
{
    reveal(Seq::filter);
    assert(list.take(i + 1).drop_last() == list.take(i));
}

/// The modifiers of a list are modifiers, and the other keys are not.
proof fn lemma_split_parts(list: Seq<KeyCode>, modifiers: Set<KeyCode>)
    ensures
        forall|i: int|
            0 <= i < modifiers_of(list, modifiers).len() ==> modifiers.contains(
                #[trigger] modifiers_of(list, modifiers)[i],
            ),
        forall|i: int|
            0 <= i < others_of(list, modifiers).len() ==> !modifiers.contains(
                #[trigger] others_of(list, modifiers)[i],
            ),
{
    broadcast use Seq::lemma_filter_pred;

}

/// Sorts a list by `modifiers_first`; keys that compare as equal keep their order.
pub fn sort_modifiers_first(list: &Vec<KeyCode>, modifier_keys: &HashSet<KeyCode>) -> (r: Vec<
    KeyCode,
>)
    ensures
        r@ == modifiers_of(list@, modifier_keys@) + others_of(list@, modifier_keys@),
{
    let mut sorted: Vec<KeyCode> = Vec::new();
    proof {
        reveal(Seq::filter);
    }
    let mut i: usize = 0;
    while i < list.len()
        invariant
            i <= list.len(),
            sorted@ == modifiers_of(list@.take(i as int), modifier_keys@) + others_of(
                list@.take(i as int),
                modifier_keys@,
            ),
        decreases list.len() - i,
    {
        let key = list[i];
        let at = place_modifiers_first(&key, &sorted, modifier_keys);
        proof {
            let modifiers = modifiers_of(list@.take(i as int), modifier_keys@);
            let others = others_of(list@.take(i as int), modifier_keys@);
            lemma_split_parts(list@.take(i as int), modifier_keys@);
            lemma_split_take(list@, i as int, modifier_keys@);
            if modifier_keys@.contains(key) {
                if at < modifiers.len() {
                    assert(sorted@[at as int] == modifiers[at as int]);
                }
                if at > modifiers.len() {
                    assert(sorted@[at - 1] == others[at - 1 - modifiers.len()]);
                }
                assert(at == modifiers.len());
                assert(sorted@.insert(at as int, key) == modifiers.push(key) + others);
            } else {
                assert(at == sorted.len()) by {
                    if at < sorted.len() {
                        assert(!modifier_keys@.contains(sorted@[at as int]));
                    }
                }
                assert(sorted@.insert(at as int, key) == modifiers + others.push(key));
            }
        }
        sorted.insert(at, key);
        i = i + 1;
    }
    assert(list@.take(list.len() as int) == list@);
    sorted
}

/// Sorts a list by `modifiers_last`; keys that compare as equal keep their order.
pub fn sort_modifiers_last(list: &Vec<KeyCode>, modifier_keys: &HashSet<KeyCode>) -> (r: Vec<
    KeyCode,
>)
    ensures
        r@ == others_of(list@, modifier_keys@) + modifiers_of(list@, modifier_keys@),
{
    let mut sorted: Vec<KeyCode> = Vec::new();
    proof {
        reveal(Seq::filter);
    }
    let mut i: usize = 0;
    while i < list.len()
        invariant
            i <= list.len(),
            sorted@ == others_of(list@.take(i as int), modifier_keys@) + modifiers_of(
                list@.take(i as int),
                modifier_keys@,
            ),
        decreases list.len() - i,
    {
        let key = list[i];
        let at = place_modifiers_last(&key, &sorted, modifier_keys);
        proof {
            let modifiers = modifiers_of(list@.take(i as int), modifier_keys@);
            let others = others_of(list@.take(i as int), modifier_keys@);
            lemma_split_parts(list@.take(i as int), modifier_keys@);
            lemma_split_take(list@, i as int, modifier_keys@);
            if modifier_keys@.contains(key) {
                assert(at == sorted.len()) by {
                    if at < sorted.len() {
                        assert(modifier_keys@.contains(sorted@[at as int]));
                    }
                }
                assert(sorted@.insert(at as int, key) == others + modifiers.push(key));
            } else {
                if at < others.len() {
                    assert(sorted@[at as int] == others[at as int]);
                }
                if at > others.len() {
                    assert(sorted@[at - 1] == modifiers[at - 1 - others.len()]);
                }
                assert(at == others.len());
                assert(sorted@.insert(at as int, key) == others.push(key) + modifiers);
            }
        }
        sorted.insert(at, key);
        i = i + 1;
    }
    assert(list@.take(list.len() as int) == list@);
    sorted
}

/// Sorting a list by `modifiers_first` keeps its keys and puts the modifiers in front.
pub proof fn lemma_sorted_first(list: Seq<KeyCode>, keys: Set<KeyCode>, modifiers: Set<KeyCode>)
    requires
        lists(list, keys),
    ensures
        lists(modifiers_of(list, modifiers) + others_of(list, modifiers), keys),
        modifiers_lead(modifiers_of(list, modifiers) + others_of(list, modifiers), modifiers),
{
    lemma_split_parts(list, modifiers);
    lemma_split_lists(list, modifiers);
    let first = modifiers_of(list, modifiers);
    let second = others_of(list, modifiers);
    let sorted = first + second;
    assert forall|k: KeyCode| #[trigger] sorted.contains(k) <==> keys.contains(k) by {
        lemma_contains_add(first, second, k);
        assert(list.contains(k) <==> keys.contains(k));
    }
}

/// Sorting a list by `modifiers_last` keeps its keys and puts the modifiers at the end.
pub proof fn lemma_sorted_last(list: Seq<KeyCode>, keys: Set<KeyCode>, modifiers: Set<KeyCode>)
    requires
        lists(list, keys),
    ensures
        lists(others_of(list, modifiers) + modifiers_of(list, modifiers), keys),
        modifiers_trail(others_of(list, modifiers) + modifiers_of(list, modifiers), modifiers),
{
    lemma_split_parts(list, modifiers);
    lemma_split_lists(list, modifiers);
    let first = others_of(list, modifiers);
    let second = modifiers_of(list, modifiers);
    let sorted = first + second;
    assert forall|k: KeyCode| #[trigger] sorted.contains(k) <==> keys.contains(k) by {
        lemma_contains_add(first, second, k);
        assert(list.contains(k) <==> keys.contains(k));
    }
}

proof fn lemma_contains_add(a: Seq<KeyCode>, b: Seq<KeyCode>, k: KeyCode)
    ensures
        (a + b).contains(k) <==> a.contains(k) || b.contains(k),
{
    if a.contains(k) {
        let i = choose|i: int| 0 <= i < a.len() && a[i] == k;
        assert((a + b)[i] == k);
    }
    if b.contains(k) {
        let i = choose|i: int| 0 <= i < b.len() && b[i] == k;
        assert((a + b)[a.len() + i] == k);
    }
}

/// The two parts of a list without duplicates have none, and hold its keys between them.
proof fn lemma_split_lists(list: Seq<KeyCode>, modifiers: Set<KeyCode>)
    requires
        list.no_duplicates(),
    ensures
        modifiers_of(list, modifiers).no_duplicates(),
        others_of(list, modifiers).no_duplicates(),
        forall|k: KeyCode| #[trigger]
            modifiers_of(list, modifiers).contains(k) <==> list.contains(k)
                && modifiers.contains(k),
        forall|k: KeyCode| #[trigger]
            others_of(list, modifiers).contains(k) <==> list.contains(k) && !modifiers.contains(k),
    decreases list.len(),
{
    reveal(Seq::filter);
    if list.len() > 0 {
        let front = list.drop_last();
        let last = list.last();
        lemma_split_lists(front, modifiers);
        lemma_split_take(list, list.len() - 1, modifiers);
        assert(list.take(list.len() as int) == list);
        assert(list.take(list.len() - 1) == front);
        assert(!front.contains(last));
        lemma_no_duplicates_push(modifiers_of(front, modifiers), last);
        lemma_no_duplicates_push(others_of(front, modifiers), last);
        assert forall|k: KeyCode| #[trigger] list.contains(k) <==> front.contains(k) || k == last by {
            assert(list == front.push(last));
            lemma_contains_push(front, last, k);
        }
        assert forall|k: KeyCode| #[trigger]
            modifiers_of(list, modifiers).contains(k) <==> list.contains(k) && modifiers.contains(
                k,
            ) by {
            lemma_contains_push(modifiers_of(front, modifiers), last, k);
        }
        assert forall|k: KeyCode| #[trigger]
            others_of(list, modifiers).contains(k) <==> list.contains(k) && !modifiers.contains(
                k,
            ) by {
            lemma_contains_push(others_of(front, modifiers), last, k);
        }
    }
}

proof fn lemma_no_duplicates_push(a: Seq<KeyCode>, last: KeyCode)
    requires
        a.no_duplicates(),
        !a.contains(last),
    ensures
        a.push(last).no_duplicates(),
{
    assert forall|i: int, j: int|
        0 <= i < j < a.len() + 1 implies a.push(last)[i] != a.push(last)[j] by {
        if j == a.len() {
            assert(a.contains(a[i]));
        }
    }
}

proof fn lemma_contains_push(a: Seq<KeyCode>, last: KeyCode, k: KeyCode)
    ensures
        a.push(last).contains(k) <==> a.contains(k) || k == last,
{
    lemma_contains_add(a, seq![last], k);
    assert(a + seq![last] == a.push(last));
    if k == last {
        assert(seq![last][0] == k);
    }
}

/// The keys among the first ones of a list, when one more is counted in.
pub proof fn lemma_take_next(list: Seq<KeyCode>, i: int)
    requires
        0 <= i < list.len(),
    ensures
        forall|k: KeyCode| #[trigger]
            list.take(i + 1).contains(k) <==> list.take(i).contains(k) || k == list[i],
{
    assert(list.take(i + 1) == list.take(i).push(list[i]));
    assert forall|k: KeyCode| #[trigger] list.take(i + 1).contains(k) <==> list.take(i).contains(
        k,
    ) || k == list[i] by {
        lemma_contains_push(list.take(i), list[i], k);
    }
}

/// The keys of a set, in no particular order.
pub fn list_keys(keys: &HashSet<KeyCode>) -> (r: Vec<KeyCode>)
    ensures
        lists(r@, keys@),
{
    let mut list: Vec<KeyCode> = Vec::new();
    let ghost all = vstd::std_specs::iter::IteratorSpec::remaining(
        &vstd::std_specs::hash::spec_hash_keys_iter(keys),
    );
    for k in it: keys.iter()
        invariant
            it.seq() == all,
            list@ == all.take(it.index()).unref(),
    {
        list.push(*k);
    }
    proof {
        assert(list@ == all.unref());
        assert(list@.to_set() == keys@);
        assert forall|k: KeyCode| #[trigger] list@.contains(k) <==> keys@.contains(k) by {
            assert(list@.to_set().contains(k) <==> list@.contains(k));
        }
    }
    list
}

/// Adds the keys of a list to a set.
pub fn insert_list(keys: &mut HashSet<KeyCode>, list: &Vec<KeyCode>)
    ensures
        final(keys)@ == old(keys)@.union(list@.to_set()),
{
    let ghost before = keys@;
    let mut i: usize = 0;
    while i < list.len()
        invariant
            i <= list.len(),
            forall|k: KeyCode| #[trigger]
                keys@.contains(k) <==> before.contains(k) || list@.take(i as int).contains(k),
        decreases list.len() - i,
    {
        keys.insert(list[i]);
        proof {
            lemma_take_next(list@, i as int);
        }
        i = i + 1;
    }
    assert(list@.take(list.len() as int) == list@);
    assert(keys@ =~= before.union(list@.to_set()));
}

/// Adds the keys of one set to another.
pub fn insert_set(keys: &mut HashSet<KeyCode>, more: &HashSet<KeyCode>)
    ensures
        final(keys)@ == old(keys)@.union(more@),
{
    let list = list_keys(more);
    insert_list(keys, &list);
    assert(list@.to_set() =~= more@);
}

/// The keys of a list, as a set.
pub fn set_of(list: &Vec<KeyCode>) -> (r: HashSet<KeyCode>)
    ensures
        r@ == list@.to_set(),
{
    let mut keys: HashSet<KeyCode> = HashSet::new();
    insert_list(&mut keys, list);
    assert(keys@ =~= list@.to_set());
    keys
}

/// A set with the same keys.
pub fn copy_set(keys: &HashSet<KeyCode>) -> (r: HashSet<KeyCode>)
    ensures
        r@ == keys@,
{
    let mut copy: HashSet<KeyCode> = HashSet::new();
    insert_set(&mut copy, keys);
    assert(copy@ =~= keys@);
    copy
}

/// Whether every key of the first set is in the second.
pub fn is_subset(keys: &HashSet<KeyCode>, of: &HashSet<KeyCode>) -> (r: bool)
    ensures
        r == keys@.subset_of(of@),
{
    let list = list_keys(keys);
    let mut i: usize = 0;
    while i < list.len()
        invariant
            i <= list.len(),
            lists(list@, keys@),
            forall|j: int| 0 <= j < i ==> of@.contains(#[trigger] list@[j]),
        decreases list.len() - i,
    {
        if !of.contains(&list[i]) {
            assert(list@.contains(list@[i as int]));
            return false;
        }
        i = i + 1;
    }
    assert forall|k: KeyCode| keys@.contains(k) implies of@.contains(k) by {
        assert(list@.contains(k));
    }
    true
}

/// The keys of the first set that are not in the second, in no particular order.
pub fn list_difference(keys: &HashSet<KeyCode>, without: &HashSet<KeyCode>) -> (r: Vec<KeyCode>)
    ensures
        lists(r@, keys@.difference(without@)),
{
    let list = list_keys(keys);
    let mut rest: Vec<KeyCode> = Vec::new();
    proof {
        reveal(Seq::filter);
    }
    let mut i: usize = 0;
    while i < list.len()
        invariant
            i <= list.len(),
            lists(list@, keys@),
            rest@ == others_of(list@.take(i as int), without@),
        decreases list.len() - i,
    {
        proof {
            lemma_split_take(list@, i as int, without@);
        }
        if !without.contains(&list[i]) {
            rest.push(list[i]);
        }
        i = i + 1;
    }
    proof {
        assert(list@.take(list.len() as int) == list@);
        lemma_split_lists(list@, without@);
    }
    rest
}

/// Takes the keys of a list out of a set.
pub fn remove_list(keys: &mut HashSet<KeyCode>, list: &Vec<KeyCode>)
    ensures
        final(keys)@ == old(keys)@.difference(list@.to_set()),
{
    let ghost before = keys@;
    let mut i: usize = 0;
    while i < list.len()
        invariant
            i <= list.len(),
            forall|k: KeyCode| #[trigger]
                keys@.contains(k) <==> before.contains(k) && !list@.take(i as int).contains(k),
        decreases list.len() - i,
    {
        keys.remove(&list[i]);
        proof {
            lemma_take_next(list@, i as int);
        }
        i = i + 1;
    }
    assert(list@.take(list.len() as int) == list@);
    assert(keys@ =~= before.difference(list@.to_set()));
}

} // verus!

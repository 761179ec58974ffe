//! Maps from strings and from integers to words.
//!
//! A map from strings keeps its entries in the order of their keys and lists them in that order.
//! A map from integers is a hash map, and lists its entries in the order in which it is walked.

use crate::field_map;
use crate::field_map::FieldMap;
use crate::haxe_array;
use crate::haxe_array::HaxeArray;
use crate::haxe_string;
use crate::haxe_string::HaxeString;
use crate::text;
use std::collections::HashMap;
use vstd::prelude::*;
use vstd::std_specs::iter::IteratorSpec;

verus! {

broadcast use vstd::std_specs::hash::group_hash_axioms;

// ---------------------------------------------------------------------------
// String keys
// ---------------------------------------------------------------------------

/// A map from strings to words.
pub struct HaxeStringMap {
    pub map: FieldMap<u64>,
}

impl View for HaxeStringMap {
    type V = Seq<(Seq<u8>, u64)>;

    open spec fn view(&self) -> Seq<(Seq<u8>, u64)> {
        self.map.seq()
    }
}

impl HaxeStringMap {
    /// The keys are in order, so no key occurs twice.
    pub open spec fn wf(&self) -> bool {
        self.map.wf()
    }
}

/// The key that a string stands for; none for a null string and for one that is not UTF-8.
pub open spec fn key_of(key: Option<&HaxeString>) -> Option<Seq<u8>> {
    match key {
        Some(h) => if vstd::utf8::valid_utf8(h@) {
            Some(h@)
        } else {
            None
        },
        None => None,
    }
}

fn key_bytes(key: Option<&HaxeString>) -> (k: Option<Vec<u8>>)
    ensures
        match k {
            Some(v) => key_of(key) == Some(v@),
            None => key_of(key) is None,
        },
{
    match key {
        None => None,
        Some(h) => match haxe_string::from_utf8(h.bytes()) {
            None => None,
            Some(_) => Some(text::copy_all(h.bytes())),
        },
    }
}

/// An empty map.
pub fn haxe_stringmap_new() -> (m: HaxeStringMap)
    ensures
        m.wf(),
        m@ == Seq::<(Seq<u8>, u64)>::empty(),
{
    HaxeStringMap { map: FieldMap::new() }
}

/// Sets the value of a key.
pub fn haxe_stringmap_set(map: &mut HaxeStringMap, key: Option<&HaxeString>, value: u64)
    requires
        old(map).wf(),
    ensures
        final(map).wf(),
        final(map)@ == (match key_of(key) {
            Some(k) => field_map::put(old(map)@, k, value),
            None => old(map)@,
        }),
{
    match key_bytes(key) {
        Some(k) => map.map.insert(k, value),
        None => {},
    }
}

/// The value of a key; 0 where there is none.
pub fn haxe_stringmap_get(map: Option<&HaxeStringMap>, key: Option<&HaxeString>) -> (value: u64)
    requires
        map matches Some(m) ==> m.wf(),
    ensures
        value == (match (map, key_of(key)) {
            (Some(m), Some(k)) => match field_map::lookup(m@, k) {
                Some(v) => v,
                None => 0,
            },
            _ => 0,
        }),
{
    match (map, key_bytes(key)) {
        (Some(m), Some(k)) => match m.map.get(k.as_slice()) {
            Some(v) => *v,
            None => 0,
        },
        _ => 0,
    }
}

/// Whether a key has a value.
pub fn haxe_stringmap_exists(map: Option<&HaxeStringMap>, key: Option<&HaxeString>) -> (r: bool)
    requires
        map matches Some(m) ==> m.wf(),
    ensures
        r == (match (map, key_of(key)) {
            (Some(m), Some(k)) => field_map::has(m@, k),
            _ => false,
        }),
{
    match (map, key_bytes(key)) {
        (Some(m), Some(k)) => m.map.contains(k.as_slice()),
        _ => false,
    }
}

/// Removes a key; whether it had a value.
pub fn haxe_stringmap_remove(map: Option<&mut HaxeStringMap>, key: Option<&HaxeString>) -> (found:
    bool)
    requires
        map matches Some(m) ==> (*m).wf(),
    ensures
        match map {
            None => !found,
            Some(m) => {
                &&& (*final(m)).wf()
                &&& match key_of(key) {
                    Some(k) => {
                        &&& found == field_map::has((*m)@, k)
                        &&& (*final(m))@ == field_map::del((*m)@, k)
                    },
                    None => !found && (*final(m))@ == (*m)@,
                }
            },
        },
{
    match map {
        None => false,
        Some(m) => match key_bytes(key) {
            Some(k) => m.map.remove(k.as_slice()),
            None => false,
        },
    }
}

/// Removes every key.
pub fn haxe_stringmap_clear(map: &mut HaxeStringMap)
    ensures
        final(map).wf(),
        final(map)@ == Seq::<(Seq<u8>, u64)>::empty(),
{
    map.map.clear();
}

/// Number of keys; 0 for null.
pub fn haxe_stringmap_count(map: Option<&HaxeStringMap>) -> (n: i64)
    requires
        map matches Some(m) ==> m@.len() <= i64::MAX,
    ensures
        n == (match map {
            Some(m) => m@.len(),
            None => 0,
        }),
{
    match map {
        None => 0,
        Some(m) => m.map.len() as i64,
    }
}

/// The keys as strings; none for null.
pub fn haxe_stringmap_keys(map: Option<&HaxeStringMap>) -> (keys: Vec<HaxeString>)
    ensures
        keys@.len() == (match map {
            Some(m) => m@.len(),
            None => 0,
        }),
        map matches Some(m) ==> forall|i: int|
            0 <= i < m@.len() ==> (#[trigger] keys@[i]).exact(m@[i].0),
{
    let mut keys: Vec<HaxeString> = Vec::new();
    match map {
        None => {},
        Some(m) => {
            let mut i: usize = 0;
            while i < m.map.len()
                invariant
                    i <= m@.len(),
                    keys@.len() == i,
                    forall|j: int| 0 <= j < i ==> (#[trigger] keys@[j]).exact(m@[j].0),
                decreases m@.len() - i,
            {
                keys.push(HaxeString::from_vec(text::copy_all(m.map.name(i).as_slice())));
                i = i + 1;
            }
        },
    }
    keys
}

/// The keys as the elements of an array of strings; an empty one for null.
pub fn haxe_stringmap_keys_to_array(map: Option<&HaxeStringMap>) -> (keys: Vec<HaxeString>)
    ensures
        keys@.len() == (match map {
            Some(m) => m@.len(),
            None => 0,
        }),
        map matches Some(m) ==> forall|i: int|
            0 <= i < m@.len() ==> (#[trigger] keys@[i]).exact(m@[i].0),
{
    haxe_stringmap_keys(map)
}

/// Text of an entry.
pub open spec fn entry_text(key: Seq<u8>, value: u64) -> Seq<u8> {
    key + text::lit(" => ") + text::dec_nat(value as nat)
}

/// Text of a map from its entries.
pub open spec fn braced(entries: Seq<Seq<u8>>) -> Seq<u8> {
    seq![123u8] + text::join(entries, text::lit(", ")) + seq![125u8]
}

/// `{key => value, ..}`; `{}` for null.
pub fn haxe_stringmap_to_string(map: Option<&HaxeStringMap>) -> (s: HaxeString)
    ensures
        s.exact(
            braced(
                match map {
                    Some(m) => m@.map_values(|e: (Seq<u8>, u64)| entry_text(e.0, e.1)),
                    None => Seq::empty(),
                },
            ),
        ),
{
    let mut out: Vec<u8> = vec![123];
    match map {
        None => {
            out.push(125);
            assert(out@ =~= braced(Seq::empty()));
        },
        Some(m) => {
            let ghost all = m@.map_values(|e: (Seq<u8>, u64)| entry_text(e.0, e.1));
            let ghost sep = text::lit(", ");
            let mut i: usize = 0;
            assert(all.take(0) =~= Seq::empty());
            assert(out@ =~= seq![123u8] + text::join(all.take(0), sep));
            while i < m.map.len()
                invariant
                    i <= m@.len(),
                    all == m@.map_values(|e: (Seq<u8>, u64)| entry_text(e.0, e.1)),
                    sep == text::lit(", "),
                    out@ == seq![123u8] + text::join(all.take(i as int), sep),
                decreases m@.len() - i,
            {
                assert(all.take(i + 1).drop_last() =~= all.take(i as int));
                assert(all.take(i + 1).last() == entry_text(m@[i as int].0, m@[i as int].1));
                if i > 0 {
                    text::append_str(&mut out, ", ");
                }
                text::append(&mut out, m.map.name(i).as_slice());
                text::append_str(&mut out, " => ");
                text::append_u64(&mut out, *m.map.value(i));
                i = i + 1;
                assert(out@ =~= seq![123u8] + text::join(all.take(i as int), sep));
            }
            assert(all.take(i as int) =~= all);
            out.push(125);
            assert(out@ =~= braced(all));
        },
    }
    HaxeString::from_vec(out)
}

/// The values as an array of words; an empty array for null.
pub fn haxe_stringmap_values_to_array(map: Option<&HaxeStringMap>) -> (a: HaxeArray)
    requires
        map matches Some(m) ==> m@.len() < usize::MAX / 2,
    ensures
        a.wf(),
        a.elem_size == 8,
        haxe_array::ints(a@) == (match map {
            Some(m) => m@.map_values(|e: (Seq<u8>, u64)| e.1 as i64),
            None => Seq::empty(),
        }),
{
    let mut a: HaxeArray = haxe_array::haxe_array_new(8);
    assert(haxe_array::ints(a@) =~= Seq::empty());
    match map {
        None => {},
        Some(m) => {
            let ghost all = m@.map_values(|e: (Seq<u8>, u64)| e.1 as i64);
            let mut i: usize = 0;
            while i < m.map.len()
                invariant
                    i <= m@.len() < usize::MAX / 2,
                    all == m@.map_values(|e: (Seq<u8>, u64)| e.1 as i64),
                    a.wf(),
                    a.elem_size == 8,
                    a@.len() == i,
                    haxe_array::ints(a@) == all.take(i as int),
                decreases m@.len() - i,
            {
                let value: u64 = *m.map.value(i);
                let word: i64 = #[verifier::truncate]
                (value as i64);
                push_word(&mut a, word);
                i = i + 1;
                assert(haxe_array::ints(a@) =~= all.take(i as int));
            }
            assert(all.take(i as int) =~= all);
        },
    }
    a
}

fn push_word(a: &mut HaxeArray, value: i64)
    requires
        old(a).wf(),
        old(a).elem_size == 8,
        old(a)@.len() < usize::MAX / 2,
    ensures
        final(a).wf(),
        final(a).elem_size == 8,
        final(a)@.len() == old(a)@.len() + 1,
        haxe_array::ints(final(a)@) == haxe_array::ints(old(a)@).push(value),
{
    let ghost before = a@;
    haxe_array::haxe_array_push_i64(a, value);
    proof {
        haxe_array::law_word_round_trip(value);
        assert(haxe_array::ints(a@) =~= haxe_array::ints(before).push(value));
    }
}

// ---------------------------------------------------------------------------
// Integer keys
// ---------------------------------------------------------------------------

/// A map from integers to words.
pub struct HaxeIntMap {
    pub map: HashMap<i64, u64>,
}

impl View for HaxeIntMap {
    type V = Map<i64, u64>;

    open spec fn view(&self) -> Map<i64, u64> {
        self.map@
    }
}

/// The value of a key.
pub open spec fn int_lookup(m: Map<i64, u64>, key: i64) -> Option<u64> {
    if m.contains_key(key) {
        Some(m[key])
    } else {
        None
    }
}

/// A value that was set for a key is found under it, and other keys keep theirs.
pub proof fn law_int_put_lookup(m: Map<i64, u64>, key: i64, value: u64, other: i64)
    ensures
        int_lookup(m.insert(key, value), key) == Some(value),
        other != key ==> int_lookup(m.insert(key, value), other) == int_lookup(m, other),
{
}

/// A key that was removed has no value, and other keys keep theirs.
pub proof fn law_int_del_lookup(m: Map<i64, u64>, key: i64, other: i64)
    ensures
        int_lookup(m.remove(key), key) is None,
        other != key ==> int_lookup(m.remove(key), other) == int_lookup(m, other),
{
}

/// A list holds every key of a map once.
pub open spec fn lists_keys(keys: Seq<i64>, m: Map<i64, u64>) -> bool {
    keys.no_duplicates() && keys.to_set() == m.dom()
}

/// Texts of entries, in the order of a list of keys.
pub open spec fn int_entry_texts(m: Map<i64, u64>, keys: Seq<i64>) -> Seq<Seq<u8>> {
    keys.map_values(|k: i64| entry_text(text::dec_int(k as int), m[k]))
}

/// Values as words, in the order of a list of keys.
pub open spec fn int_words(m: Map<i64, u64>, keys: Seq<i64>) -> Seq<i64> {
    keys.map_values(|k: i64| m[k] as i64)
}

/// An empty map.
pub fn haxe_intmap_new() -> (m: HaxeIntMap)
    ensures
        m@ == Map::<i64, u64>::empty(),
{
    HaxeIntMap { map: HashMap::new() }
}

/// Sets the value of a key.
pub fn haxe_intmap_set(map: &mut HaxeIntMap, key: i64, value: u64)
    ensures
        final(map)@ == old(map)@.insert(key, value),
{
    let _before: Option<u64> = map.map.insert(key, value);
}

/// The value of a key; 0 where there is none.
pub fn haxe_intmap_get(map: Option<&HaxeIntMap>, key: i64) -> (value: u64)
    ensures
        value == (match map {
            Some(m) => match int_lookup(m@, key) {
                Some(v) => v,
                None => 0,
            },
            None => 0,
        }),
{
    match map {
        None => 0,
        Some(m) => match m.map.get(&key) {
            Some(v) => *v,
            None => 0,
        },
    }
}

/// Whether a key has a value.
pub fn haxe_intmap_exists(map: Option<&HaxeIntMap>, key: i64) -> (r: bool)
    ensures
        r == (map matches Some(m) && m@.contains_key(key)),
{
    match map {
        None => false,
        Some(m) => m.map.contains_key(&key),
    }
}

/// Removes a key; whether it had a value.
pub fn haxe_intmap_remove(map: Option<&mut HaxeIntMap>, key: i64) -> (found: bool)
    ensures
        match map {
            None => !found,
            Some(m) => {
                &&& found == (*m)@.contains_key(key)
                &&& (*final(m))@ == (*m)@.remove(key)
            },
        },
{
    match map {
        None => false,
        Some(m) => m.map.remove(&key).is_some(),
    }
}

/// Removes every key.
pub fn haxe_intmap_clear(map: &mut HaxeIntMap)
    ensures
        final(map)@ == Map::<i64, u64>::empty(),
{
    map.map.clear();
}

/// Number of keys; 0 for null.
pub fn haxe_intmap_count(map: Option<&HaxeIntMap>) -> (n: i64)
    requires
        map matches Some(m) ==> m@.len() <= i64::MAX,
    ensures
        n == (match map {
            Some(m) => m@.len(),
            None => 0,
        }),
{
    match map {
        None => 0,
        Some(m) => m.map.len() as i64,
    }
}

/// The keys, in the order in which the map is walked; none for null.
pub fn haxe_intmap_keys(map: Option<&HaxeIntMap>) -> (keys: Vec<i64>)
    ensures
        match map {
            Some(m) => lists_keys(keys@, m@),
            None => keys@ == Seq::<i64>::empty(),
        },
{
    let mut keys: Vec<i64> = Vec::new();
    match map {
        None => {
            assert(keys@ =~= Seq::empty());
        },
        Some(m) => {
            let ghost order = m.map.keys().remaining();
            for k in walk: m.map.keys()
                invariant
                    walk.seq() == order,
                    keys@.len() == walk.index(),
                    forall|i: int| 0 <= i < keys@.len() ==> keys@[i] == *order[i],
            {
                keys.push(*k);
            }
            proof {
                assert(keys@ =~= order.unref());
                assert(order.unref().to_set() == m@.dom());
                assert forall|i: int, j: int|
                    0 <= i < keys@.len() && 0 <= j < keys@.len() && i != j implies keys@[i]
                    != keys@[j] by {
                    assert(order[i] != order[j]);
                }
            }
        },
    }
    keys
}

/// The text of a map, from its keys in the order in which they are to stand.
pub fn int_entries_text(map: &HaxeIntMap, keys: &Vec<i64>) -> (s: HaxeString)
    requires
        forall|i: int| 0 <= i < keys@.len() ==> map@.contains_key(#[trigger] keys@[i]),
    ensures
        s.exact(braced(int_entry_texts(map@, keys@))),
{
    let ghost all = int_entry_texts(map@, keys@);
    let ghost sep = text::lit(", ");
    let mut out: Vec<u8> = vec![123];
    let mut i: usize = 0;
    assert(all.take(0) =~= Seq::empty());
    assert(out@ =~= seq![123u8] + text::join(all.take(0), sep));
    while i < keys.len()
        invariant
            i <= keys@.len(),
            forall|j: int| 0 <= j < keys@.len() ==> map@.contains_key(#[trigger] keys@[j]),
            all == int_entry_texts(map@, keys@),
            sep == text::lit(", "),
            out@ == seq![123u8] + text::join(all.take(i as int), sep),
        decreases keys@.len() - i,
    {
        let key: i64 = keys[i];
        let value: u64 = haxe_intmap_get(Some(map), key);
        assert(all.take(i + 1).drop_last() =~= all.take(i as int));
        assert(all.take(i + 1).last() == entry_text(text::dec_int(key as int), value));
        if i > 0 {
            text::append_str(&mut out, ", ");
        }
        text::append_i64(&mut out, key);
        text::append_str(&mut out, " => ");
        text::append_u64(&mut out, value);
        i = i + 1;
        assert(out@ =~= seq![123u8] + text::join(all.take(i as int), sep));
    }
    assert(all.take(i as int) =~= all);
    out.push(125);
    assert(out@ =~= braced(all));
    HaxeString::from_vec(out)
}

/// `{key => value, ..}`, in the order in which the map is walked; `{}` for null.
pub fn haxe_intmap_to_string(map: Option<&HaxeIntMap>) -> (s: HaxeString)
    ensures
        match map {
            Some(m) => exists|keys: Seq<i64>| #[trigger]
                lists_keys(keys, m@) && s.exact(braced(int_entry_texts(m@, keys))),
            None => s.exact(braced(Seq::empty())),
        },
{
    let keys: Vec<i64> = haxe_intmap_keys(map);
    match map {
        None => {
            let out: Vec<u8> = vec![123, 125];
            assert(out@ =~= braced(Seq::empty()));
            HaxeString::from_vec(out)
        },
        Some(m) => {
            assert forall|i: int| 0 <= i < keys@.len() implies m@.contains_key(
                #[trigger] keys@[i],
            ) by {
                assert(keys@.to_set().contains(keys@[i]));
            }
            int_entries_text(m, &keys)
        },
    }
}

/// The keys as an array of integers, in the order in which the map is walked; an empty array for
/// null.
pub fn haxe_intmap_keys_to_array(map: Option<&HaxeIntMap>) -> (a: HaxeArray)
    requires
        map matches Some(m) ==> m@.len() < usize::MAX / 2,
    ensures
        a.wf(),
        a.elem_size == 8,
        match map {
            Some(m) => lists_keys(haxe_array::ints(a@), m@),
            None => haxe_array::ints(a@) == Seq::<i64>::empty(),
        },
{
    let keys: Vec<i64> = haxe_intmap_keys(map);
    proof {
        keys@.unique_seq_to_set();
    }
    words_array(&keys)
}

/// The values of keys as words.
pub fn int_values(map: &HaxeIntMap, keys: &Vec<i64>) -> (values: Vec<i64>)
    requires
        forall|i: int| 0 <= i < keys@.len() ==> map@.contains_key(#[trigger] keys@[i]),
    ensures
        values@ == int_words(map@, keys@),
{
    let mut values: Vec<i64> = Vec::new();
    let mut i: usize = 0;
    while i < keys.len()
        invariant
            i <= keys@.len(),
            forall|j: int| 0 <= j < keys@.len() ==> map@.contains_key(#[trigger] keys@[j]),
            values@ == int_words(map@, keys@).take(i as int),
        decreases keys@.len() - i,
    {
        let value: u64 = haxe_intmap_get(Some(map), keys[i]);
        let word: i64 = #[verifier::truncate]
        (value as i64);
        values.push(word);
        i = i + 1;
        assert(values@ =~= int_words(map@, keys@).take(i as int));
    }
    assert(values@ =~= int_words(map@, keys@));
    values
}

/// The values as an array of words, in the order in which the map is walked; an empty array for
/// null.
pub fn haxe_intmap_values_to_array(map: Option<&HaxeIntMap>) -> (a: HaxeArray)
    requires
        map matches Some(m) ==> m@.len() < usize::MAX / 2,
    ensures
        a.wf(),
        a.elem_size == 8,
        match map {
            Some(m) => exists|keys: Seq<i64>| #[trigger]
                lists_keys(keys, m@) && haxe_array::ints(a@) == int_words(m@, keys),
            None => haxe_array::ints(a@) == Seq::<i64>::empty(),
        },
{
    let keys: Vec<i64> = haxe_intmap_keys(map);
    proof {
        keys@.unique_seq_to_set();
    }
    match map {
        None => words_array(&keys),
        Some(m) => {
            assert forall|i: int| 0 <= i < keys@.len() implies m@.contains_key(
                #[trigger] keys@[i],
            ) by {
                assert(keys@.to_set().contains(keys@[i]));
            }
            let values: Vec<i64> = int_values(m, &keys);
            words_array(&values)
        },
    }
}

fn words_array(values: &Vec<i64>) -> (a: HaxeArray)
    requires
        values@.len() < usize::MAX / 2,
    ensures
        a.wf(),
        a.elem_size == 8,
        haxe_array::ints(a@) == values@,
{
    let mut a: HaxeArray = haxe_array::haxe_array_new(8);
    let mut i: usize = 0;
    assert(haxe_array::ints(a@) =~= values@.take(0));
    while i < values.len()
        invariant
            i <= values@.len() < usize::MAX / 2,
            a.wf(),
            a.elem_size == 8,
            a@.len() == i,
            haxe_array::ints(a@) == values@.take(i as int),
        decreases values@.len() - i,
    {
        push_word(&mut a, values[i]);
        i = i + 1;
        assert(haxe_array::ints(a@) =~= values@.take(i as int));
    }
    assert(values@.take(i as int) =~= values@);
    a
}

/// A map as text: braces around its entries with a comma and a space between neighbours, an entry
/// being its key, an arrow between spaces and its value in decimal.
pub proof fn law_map_text(entries: Seq<Seq<u8>>, more: Seq<u8>, key: Seq<u8>, value: u64)
    ensures
        braced(Seq::empty()) == seq![123u8, 125],
        braced(seq![more]) == seq![123u8] + more + seq![125u8],
        entries.len() > 0 ==> braced(entries.push(more)) == braced(entries).drop_last() + seq![
            44u8,
            32,
        ] + more + seq![125u8],
        entry_text(key, value) == key + seq![32u8, 61, 62, 32] + text::dec_int(value as int),
{
    reveal_strlit(", ");
    reveal_strlit(" => ");
    vstd::utf8::is_ascii_chars_encode_utf8(", "@);
    vstd::utf8::is_ascii_chars_encode_utf8(" => "@);
    assert(text::lit(", ") =~= seq![44u8, 32]);
    assert(text::lit(" => ") =~= seq![32u8, 61, 62, 32]);
    text::law_join(entries, seq![44u8, 32], more);
    assert(braced(Seq::empty()) =~= seq![123u8, 125]);
    assert(braced(entries).drop_last() =~= seq![123u8] + text::join(entries, seq![44u8, 32]));
    if entries.len() > 0 {
        assert(braced(entries.push(more)) =~= braced(entries).drop_last() + seq![44u8, 32] + more
            + seq![125u8]);
    }
}

/// The texts and the values of a map go by the list of its keys, one for one.
pub proof fn law_map_lists(m: Map<i64, u64>, keys: Seq<i64>, i: int)
    requires
        0 <= i < keys.len(),
    ensures
        int_entry_texts(m, keys).len() == keys.len(),
        int_entry_texts(m, keys)[i] == entry_text(text::dec_int(keys[i] as int), m[keys[i]]),
        int_words(m, keys).len() == keys.len(),
        int_words(m, keys)[i] as u64 == m[keys[i]],
{
    let v: u64 = m[keys[i]];
    assert((v as i64) as u64 == v) by (bit_vector);
}

} // verus!

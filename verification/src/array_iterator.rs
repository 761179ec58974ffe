//! Iterators over arrays, by value and by key and value.

use crate::anon_object;
use crate::anon_object::{AnonStore, ShapeTable};
use crate::haxe_array;
use crate::haxe_array::HaxeArray;
use crate::haxe_string;
use crate::haxe_string::HaxeString;
use crate::text;
use vstd::prelude::*;

verus! {

/// Layout number of the objects `{key: Int, value: Dynamic}`.
pub const KV_SHAPE_ID: u32 = 1001;

/// An iterator over the elements of an array.
pub struct HaxeArrayIterator {
    pub current: usize,
}

/// An iterator over the positions and elements of an array.
pub struct HaxeArrayKeyValueIterator {
    pub current: usize,
}

/// An iterator that starts at the first element.
pub fn haxe_array_iterator_new() -> (it: HaxeArrayIterator)
    ensures
        it.current == 0,
{
    HaxeArrayIterator { current: 0 }
}

/// 1 where there are more elements, else 0; a null iterator or array has none.
pub fn haxe_array_iterator_has_next(
    iter: Option<&HaxeArrayIterator>,
    array: Option<&HaxeArray>,
) -> (r: i32)
    ensures
        r == (match (iter, array) {
            (Some(it), Some(a)) => if it.current < a@.len() {
                1i32
            } else {
                0i32
            },
            _ => 0i32,
        }),
{
    match (iter, array) {
        (Some(it), Some(a)) => if it.current < a.elems.len() {
            1
        } else {
            0
        },
        _ => 0,
    }
}

/// The next element as an integer; 0 where there is none.
pub fn haxe_array_iterator_next(
    iter: Option<&mut HaxeArrayIterator>,
    array: Option<&HaxeArray>,
) -> (v: i64)
    requires
        array matches Some(a) ==> a.wf() && a.elem_size == 8,
    ensures
        match (iter, array) {
            (Some(it), Some(a)) => if (*it).current < a@.len() {
                &&& v == haxe_array::int_of(a@[(*it).current as int])
                &&& (*final(it)).current == (*it).current + 1
            } else {
                v == 0 && (*final(it)).current == (*it).current
            },
            (Some(it), None) => v == 0 && (*final(it)).current == (*it).current,
            (None, _) => v == 0,
        },
{
    match iter {
        None => 0,
        Some(it) => match array {
            None => 0,
            Some(a) => {
                if it.current >= a.elems.len() {
                    return 0;
                }
                let v: i64 = haxe_array::haxe_array_get_i64(array, it.current);
                it.current = it.current + 1;
                v
            },
        },
    }
}

/// What remains to be visited by an iterator.
pub open spec fn remaining(current: nat, elems: Seq<Seq<u8>>) -> Seq<Seq<u8>> {
    if current < elems.len() {
        elems.skip(current as int)
    } else {
        Seq::empty()
    }
}

/// An iterator visits every element once, in order: it starts with all of them, and each step
/// takes the first that remains.
pub proof fn law_visits_in_order(current: nat, elems: Seq<Seq<u8>>)
    ensures
        remaining(0, elems) == elems,
        current < elems.len() ==> {
            &&& remaining(current, elems).len() > 0
            &&& remaining(current, elems)[0] == elems[current as int]
            &&& remaining(current + 1, elems) == remaining(current, elems).drop_first()
        },
        current >= elems.len() ==> remaining(current, elems).len() == 0,
{
    assert(remaining(0, elems) =~= elems);
    if current < elems.len() {
        assert(remaining(current + 1, elems) =~= remaining(current, elems).drop_first());
    }
}

/// An iterator that starts at the first element.
pub fn haxe_array_kv_iterator_new() -> (it: HaxeArrayKeyValueIterator)
    ensures
        it.current == 0,
{
    HaxeArrayKeyValueIterator { current: 0 }
}

/// 1 where there are more elements, else 0; a null iterator or array has none.
pub fn haxe_array_kv_iterator_has_next(
    iter: Option<&HaxeArrayKeyValueIterator>,
    array: Option<&HaxeArray>,
) -> (r: i32)
    ensures
        r == (match (iter, array) {
            (Some(it), Some(a)) => if it.current < a@.len() {
                1i32
            } else {
                0i32
            },
            _ => 0i32,
        }),
{
    match (iter, array) {
        (Some(it), Some(a)) => if it.current < a.elems.len() {
            1
        } else {
            0
        },
        _ => 0,
    }
}

/// Descriptor of the layout of keys and values.
pub open spec fn kv_descriptor() -> Seq<u8> {
    text::lit("key:3,value:7")
}

/// The object `{key: Int, value: Dynamic}`.
pub open spec fn kv_object(key: i64, value: i64) -> anon_object::Obj {
    anon_object::obj_set_index(
        anon_object::obj_set_index(anon_object::new_obj(KV_SHAPE_ID, 2), 0, key as u64),
        1,
        value as u64,
    )
}

fn new_pair(store: &mut AnonStore, key: i64, value: i64) -> (handle: usize)
    requires
        old(store).wf(),
    ensures
        final(store).wf(),
        handle != 0,
        old(store).at(handle) is None,
        final(store).at(handle) == Some(kv_object(key, value)),
        forall|o: usize| o != handle ==> final(store).at(o) == old(store).at(o),
{
    let handle: usize = anon_object::rayzor_anon_new(store, KV_SHAPE_ID, 2);
    let k: u64 = #[verifier::truncate]
    (key as u64);
    let v: u64 = #[verifier::truncate]
    (value as u64);
    anon_object::rayzor_anon_set_field_by_index(store, handle, 0, k);
    anon_object::rayzor_anon_set_field_by_index(store, handle, 1, v);
    handle
}

/// The next position and element as an object; behind the last element the value is 0, and for a
/// null iterator the key is -1.
pub fn haxe_array_kv_iterator_next(
    iter: Option<&mut HaxeArrayKeyValueIterator>,
    array: Option<&HaxeArray>,
    store: &mut AnonStore,
    table: &mut ShapeTable,
) -> (handle: usize)
    requires
        array matches Some(a) ==> a.wf() && a.elem_size == 8,
        iter matches Some(it) ==> (*it).current < i64::MAX && (*it).current < usize::MAX,
        old(store).wf(),
        anon_object::table_wf(old(table)@),
    ensures
        final(store).wf(),
        anon_object::table_wf(final(table)@),
        final(table)@ == anon_object::ensured(old(table)@, KV_SHAPE_ID, kv_descriptor()),
        handle != 0,
        old(store).at(handle) is None,
        forall|o: usize| o != handle ==> final(store).at(o) == old(store).at(o),
        match iter {
            None => final(store).at(handle) == Some(kv_object(-1i64, 0)),
            Some(it) => {
                &&& (*final(it)).current == (*it).current + 1
                &&& final(store).at(handle) == Some(
                    kv_object(
                        (*it).current as i64,
                        match array {
                            Some(a) => if (*it).current < a@.len() {
                                haxe_array::int_of(a@[(*it).current as int])
                            } else {
                                0
                            },
                            None => 0,
                        },
                    ),
                )
            },
        },
{
    let descriptor: HaxeString = haxe_string::haxe_string_from_bytes(
        Some("key:3,value:7".as_bytes()),
    );
    anon_object::rayzor_ensure_shape(table, KV_SHAPE_ID, Some(&descriptor));
    match iter {
        None => new_pair(store, -1, 0),
        Some(it) => {
            let key: i64 = it.current as i64;
            let value: i64 = haxe_array::haxe_array_get_i64(array, it.current);
            it.current = it.current + 1;
            new_pair(store, key, value)
        },
    }
}

/// An entry has its key as the first field and its value as the second, and no other fields.
pub proof fn law_entries_hold_key_and_value(key: i64, value: i64)
    ensures
        anon_object::obj_get_index(kv_object(key, value), 0) as i64 == key,
        anon_object::obj_get_index(kv_object(key, value), 1) as i64 == value,
        kv_object(key, value).fields is Inline,
        kv_object(key, value).fields->Inline_0.len() == 2,
        kv_object(key, value).shape_id == 1001,
{
    assert((key as u64) as i64 == key) by (bit_vector);
    assert((value as u64) as i64 == value) by (bit_vector);
}

} // verus!

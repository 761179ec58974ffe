use rayzor_runtime::anon_object::{rayzor_anon_get_field_by_index, AnonStore, ShapeTable};
use rayzor_runtime::array_iterator::{
    haxe_array_iterator_has_next, haxe_array_iterator_new, haxe_array_iterator_next,
    haxe_array_kv_iterator_has_next, haxe_array_kv_iterator_new, haxe_array_kv_iterator_next,
};
use rayzor_runtime::closure_entries::{ClosureEntries, ClosureRecord, Methods};
use rayzor_runtime::floats::{float_order, from_int, to_int};
use rayzor_runtime::haxe_array::{
    haxe_array_concat, haxe_array_contains, haxe_array_copy, haxe_array_filter, haxe_array_get_f64,
    haxe_array_get_i64, haxe_array_index_of, haxe_array_insert, haxe_array_join,
    haxe_array_last_index_of, haxe_array_length, haxe_array_map, haxe_array_new,
    haxe_array_pop_i64, haxe_array_push_f64, haxe_array_push_i64, haxe_array_remove,
    haxe_array_resize, haxe_array_reverse, haxe_array_set_i64, haxe_array_shift, haxe_array_slice,
    haxe_array_sort, haxe_array_splice, haxe_array_unshift, HaxeArray,
};
use rayzor_runtime::haxe_bytes::{
    haxe_bytes_alloc, haxe_bytes_blit, haxe_bytes_compare, haxe_bytes_fill, haxe_bytes_get,
    haxe_bytes_get_double, haxe_bytes_get_int16, haxe_bytes_get_int32, haxe_bytes_get_int64,
    haxe_bytes_length, haxe_bytes_of_string, haxe_bytes_set, haxe_bytes_set_double,
    haxe_bytes_set_int16, haxe_bytes_set_int32, haxe_bytes_set_int64, haxe_bytes_sub,
    haxe_bytes_to_string,
};
use rayzor_runtime::haxe_maps::{
    haxe_intmap_count, haxe_intmap_exists, haxe_intmap_get, haxe_intmap_keys, haxe_intmap_new,
    haxe_intmap_remove, haxe_intmap_set, haxe_intmap_to_string, haxe_stringmap_count,
    int_entries_text, int_values,
    haxe_stringmap_exists, haxe_stringmap_get, haxe_stringmap_keys, haxe_stringmap_new,
    haxe_stringmap_remove, haxe_stringmap_set,
};
use rayzor_runtime::haxe_math::{
    haxe_math_abs, haxe_math_ceil, haxe_math_floor, haxe_math_is_finite, haxe_math_is_nan,
    haxe_math_random, haxe_math_round,
};
use rayzor_runtime::haxe_string::{haxe_string_from_bytes, HaxeString};
use rayzor_runtime::reflect::{
    haxe_reflect_compare, haxe_reflect_compare_typed, haxe_reflect_is_function,
    haxe_type_typeof, haxe_type_typeof_value, init_rtti, DynamicValue, Payload, TypeEntry,
    TypeRegistry, TVALUETYPE_TCLASS, TVALUETYPE_TFLOAT, TVALUETYPE_TFUNCTION, TVALUETYPE_TINT,
    TVALUETYPE_TNULL, TVALUETYPE_TUNKNOWN, TYPE_FUNCTION,
};

const TYPE_INT: u32 = rayzor_runtime::anon_object::TYPE_INT;
const TYPE_FLOAT: u32 = rayzor_runtime::anon_object::TYPE_FLOAT;
const TYPE_STRING: u32 = rayzor_runtime::anon_object::TYPE_STRING;

fn hs(s: &str) -> HaxeString {
    haxe_string_from_bytes(Some(s.as_bytes()))
}

fn ints(items: &[i64]) -> HaxeArray {
    let mut a = haxe_array_new(8);
    for x in items {
        haxe_array_push_i64(&mut a, *x);
    }
    a
}

fn items(a: &HaxeArray) -> Vec<i64> {
    (0..haxe_array_length(Some(a))).map(|i| haxe_array_get_i64(Some(a), i)).collect()
}

// --- reflection ----------------------------------------------------------

fn boxed_int(v: i64) -> DynamicValue {
    DynamicValue { type_id: TYPE_INT, payload: Payload::Int(v) }
}

#[test]
fn test_typeof_int() {
    let r = TypeRegistry::new();
    assert_eq!(haxe_type_typeof(Some(&boxed_int(42)), &r), TVALUETYPE_TINT);
}

#[test]
fn test_typeof_float() {
    let r = TypeRegistry::new();
    let v = DynamicValue { type_id: TYPE_FLOAT, payload: Payload::Float(3.1f64.to_bits()) };
    assert_eq!(haxe_type_typeof(Some(&v), &r), TVALUETYPE_TFLOAT);
}

#[test]
fn test_typeof_null() {
    let r = TypeRegistry::new();
    assert_eq!(haxe_type_typeof(None, &r), TVALUETYPE_TNULL);
}

#[test]
fn test_reflect_is_function_true_for_boxed_function() {
    let r = TypeRegistry::new();
    let f = DynamicValue { type_id: TYPE_FUNCTION, payload: Payload::Address(0x4000) };
    assert!(haxe_reflect_is_function(Some(&f)));
    assert_eq!(haxe_type_typeof_value(Some(&f), &r).tag, TVALUETYPE_TFUNCTION);
}

#[test]
fn test_typeof_string_is_tclass_with_payload() {
    let r = TypeRegistry::new();
    let v = DynamicValue { type_id: TYPE_STRING, payload: Payload::Text(hs("x")) };
    let vt = haxe_type_typeof_value(Some(&v), &r);
    assert_eq!(vt.tag, TVALUETYPE_TCLASS);
    assert_eq!(vt.payload, TYPE_STRING as i64);
}

#[test]
fn test_typeof_unknown_is_tunknown() {
    let r = TypeRegistry::new();
    let v = DynamicValue { type_id: 999, payload: Payload::Nothing };
    assert_eq!(haxe_type_typeof_value(Some(&v), &r).tag, TVALUETYPE_TUNKNOWN);
}

#[test]
fn test_typeof_registered_user_type_is_tclass() {
    let mut r = TypeRegistry::new();
    r.register_type(TypeEntry {
        type_id: 4242,
        name: b"UserClass".to_vec(),
        is_enum: false,
        is_class: true,
    });
    let v = DynamicValue { type_id: 4242, payload: Payload::Nothing };
    let vt = haxe_type_typeof_value(Some(&v), &r);
    assert_eq!(vt.tag, TVALUETYPE_TCLASS);
    assert_eq!(vt.payload, 4242);
}

#[test]
fn test_typeof_value_primitive_int_not_tclass() {
    let r = TypeRegistry::new();
    assert_eq!(haxe_type_typeof_value(Some(&boxed_int(7)), &r).tag, TVALUETYPE_TINT);
}

#[test]
fn values_are_compared() {
    assert_eq!(haxe_reflect_compare(Some(&boxed_int(1)), Some(&boxed_int(2))), -1);
    assert_eq!(haxe_reflect_compare(Some(&boxed_int(2)), Some(&boxed_int(2))), 0);
    assert_eq!(haxe_reflect_compare(None, None), 0);
    let (min, max) = (i64::MIN, i64::MAX);
    assert_eq!(haxe_reflect_compare(Some(&boxed_int(min)), Some(&boxed_int(max))), -1);
    assert_eq!(haxe_reflect_compare_typed(max, min, 1, b"", b""), 1);
    let mut r = TypeRegistry::new();
    init_rtti(&mut r);
    let n = r.entries.len();
    init_rtti(&mut r);
    assert_eq!(r.entries.len(), n);
}

// --- arrays --------------------------------------------------------------

#[test]
fn arrays_grow_and_shrink_at_both_ends() {
    let mut a = ints(&[1, 2, 3]);
    haxe_array_unshift(&mut a, 0);
    assert_eq!(items(&a), [0, 1, 2, 3]);
    assert_eq!(haxe_array_shift(Some(&mut a)), 0);
    assert_eq!(haxe_array_pop_i64(Some(&mut a)), 3);
    assert_eq!(items(&a), [1, 2]);
    haxe_array_insert(&mut a, 1, Some(&9i64.to_le_bytes()));
    assert_eq!(items(&a), [1, 9, 2]);
    assert!(haxe_array_remove(Some(&mut a), 1));
    assert_eq!(items(&a), [1, 2]);
    assert!(!haxe_array_remove(Some(&mut a), 7));
    haxe_array_resize(&mut a, 4);
    assert_eq!(items(&a), [1, 2, 0, 0]);
    assert!(haxe_array_set_i64(Some(&mut a), 3, -5));
    haxe_array_reverse(&mut a);
    assert_eq!(items(&a), [-5, 0, 2, 1]);
    haxe_array_reverse(&mut a);
    assert_eq!(items(&a), [1, 2, 0, -5]);
}

#[test]
fn arrays_are_cut_and_put_together() {
    let a = ints(&[1, 2, 3, 4, 5]);
    assert_eq!(items(&haxe_array_slice(Some(&a), 1, 3).unwrap()), [2, 3]);
    assert_eq!(items(&haxe_array_copy(Some(&a)).unwrap()), [1, 2, 3, 4, 5]);
    assert_eq!(items(&haxe_array_concat(Some(&a), Some(&ints(&[6])))), [1, 2, 3, 4, 5, 6]);
    let mut b = ints(&[1, 2, 3, 4, 5]);
    assert_eq!(items(&haxe_array_splice(Some(&mut b), 1, 2)), [2, 3]);
    assert_eq!(items(&b), [1, 4, 5]);
    assert_eq!(items(&haxe_array_splice(Some(&mut b), -1, 9)), [5]);
}

#[test]
fn arrays_take_functions() {
    let a = ints(&[3, 1, 2]);
    assert_eq!(items(&haxe_array_map(Some(&a), Some(|x: i64| x * 10))), [30, 10, 20]);
    assert_eq!(items(&haxe_array_filter(Some(&a), Some(|x: i64| (x > 1) as i64))), [3, 2]);
    let mut s = ints(&[3, 1, 2]);
    haxe_array_sort(&mut s, Some(|x: i64, y: i64| (x - y) as i32));
    assert_eq!(items(&s), [1, 2, 3]);
    assert_eq!(haxe_array_index_of(Some(&a), 2, 0), 2);
    assert_eq!(haxe_array_index_of(Some(&a), 7, 0), -1);
    assert_eq!(haxe_array_last_index_of(Some(&ints(&[4, 4])), 4, 1), 1);
    assert_eq!(haxe_array_contains(Some(&a), 1), 1);
    let parts = vec![Some(hs("x")), Some(hs("y"))];
    assert_eq!(haxe_array_join(Some(&parts), Some(&hs("-"))).bytes(), b"x-y");
    let mut f = haxe_array_new(8);
    haxe_array_push_f64(&mut f, 1.25f64.to_bits());
    assert_eq!(f64::from_bits(haxe_array_get_f64(Some(&f), 0)), 1.25);
}

#[test]
fn iterators_visit_every_element() {
    let a = ints(&[7, 8]);
    let mut it = haxe_array_iterator_new();
    let mut seen = Vec::new();
    while haxe_array_iterator_has_next(Some(&it), Some(&a)) == 1 {
        seen.push(haxe_array_iterator_next(Some(&mut it), Some(&a)));
    }
    assert_eq!(seen, [7, 8]);

    let mut store = AnonStore::new();
    let mut table = ShapeTable { table: None };
    let mut kv = haxe_array_kv_iterator_new();
    let mut pairs = Vec::new();
    while haxe_array_kv_iterator_has_next(Some(&kv), Some(&a)) == 1 {
        let o = haxe_array_kv_iterator_next(Some(&mut kv), Some(&a), &mut store, &mut table);
        pairs.push((
            rayzor_anon_get_field_by_index(&store, o, 0),
            rayzor_anon_get_field_by_index(&store, o, 1),
        ));
    }
    assert_eq!(pairs, [(0, 7), (1, 8)]);
}

// --- bytes and maps ------------------------------------------------------

#[test]
fn bytes_hold_numbers() {
    let mut b = haxe_bytes_alloc(24);
    assert_eq!(haxe_bytes_length(Some(&b)), 24);
    haxe_bytes_set(&mut b, 0, 0x1ff);
    assert_eq!(haxe_bytes_get(Some(&b), 0), 0xff);
    haxe_bytes_set_int16(&mut b, 2, -2);
    haxe_bytes_set_int32(&mut b, 4, -70000);
    haxe_bytes_set_int64(&mut b, 8, i64::MIN);
    haxe_bytes_set_double(&mut b, 16, 0.5f64.to_bits());
    assert_eq!(haxe_bytes_get_int16(Some(&b), 2), -2);
    assert_eq!(haxe_bytes_get_int32(Some(&b), 4), -70000);
    assert_eq!(haxe_bytes_get_int64(Some(&b), 8), i64::MIN);
    assert_eq!(f64::from_bits(haxe_bytes_get_double(Some(&b), 16)), 0.5);
    assert_eq!(haxe_bytes_get(Some(&b), 99), 0);
    haxe_bytes_set(&mut b, 99, 1);
}

#[test]
fn bytes_are_moved_and_compared() {
    let a = haxe_bytes_of_string(Some(&hs("hello")));
    let mut b = haxe_bytes_alloc(5);
    haxe_bytes_fill(&mut b, 0, 5, 45);
    haxe_bytes_blit(Some(&a), 1, &mut b, 2, 3);
    assert_eq!(haxe_bytes_to_string(Some(&b)).bytes(), b"--ell");
    assert_eq!(haxe_bytes_sub(Some(&a), 3, 2).data, b"lo");
    assert_eq!(haxe_bytes_compare(Some(&a), Some(&a)), 0);
    assert!(haxe_bytes_compare(Some(&b), Some(&a)) < 0);
    assert!(haxe_bytes_compare(Some(&a), Some(&b)) > 0);
}

#[test]
fn maps_find_what_was_put() {
    let mut m = haxe_stringmap_new();
    haxe_stringmap_set(&mut m, Some(&hs("k")), 5);
    haxe_stringmap_set(&mut m, Some(&hs("k")), 6);
    haxe_stringmap_set(&mut m, Some(&hs("l")), 7);
    assert_eq!(haxe_stringmap_get(Some(&m), Some(&hs("k"))), 6);
    assert_eq!(haxe_stringmap_count(Some(&m)), 2);
    assert!(haxe_stringmap_exists(Some(&m), Some(&hs("l"))));
    assert!(haxe_stringmap_remove(Some(&mut m), Some(&hs("k"))));
    assert!(!haxe_stringmap_remove(Some(&mut m), Some(&hs("k"))));
    assert_eq!(haxe_stringmap_keys(Some(&m))[0].bytes(), b"l");

    let mut n = haxe_intmap_new();
    haxe_intmap_set(&mut n, -3, 1);
    haxe_intmap_set(&mut n, 4, 2);
    assert_eq!(haxe_intmap_get(Some(&n), -3), 1);
    assert!(haxe_intmap_exists(Some(&n), 4));
    assert!(haxe_intmap_remove(Some(&mut n), -3));
    assert_eq!(haxe_intmap_count(Some(&n)), 1);
    assert_eq!(haxe_intmap_keys(Some(&n)), [4]);
    assert_eq!(haxe_intmap_to_string(Some(&n)).bytes(), b"{4 => 2}");
    haxe_intmap_set(&mut n, 9, 1);
    let mut keys = haxe_intmap_keys(Some(&n));
    let both = int_entries_text(&n, &keys);
    assert_eq!(haxe_intmap_to_string(Some(&n)).bytes(), both.bytes());
    keys.sort();
    assert_eq!(keys, [4, 9]);
    assert_eq!(int_entries_text(&n, &keys).bytes(), b"{4 => 2, 9 => 1}");
    assert_eq!(int_values(&n, &keys), [2, 1]);
    assert_eq!(haxe_intmap_to_string(None).bytes(), b"{}");
}

// --- numbers -------------------------------------------------------------

#[test]
fn numbers_are_rounded() {
    for x in [0.0f64, -0.0, 0.25, 0.5, 0.75, 1.0, 1.5, 2.5, 1e9, 3e9, 1e300, 4503599627370497.5] {
        for v in [x, -x] {
            let b = v.to_bits();
            assert_eq!(haxe_math_floor(b), v.floor() as i32, "{v}");
            assert_eq!(haxe_math_ceil(b), v.ceil() as i32, "{v}");
            assert_eq!(haxe_math_round(b), v.round() as i32, "{v}");
            assert_eq!(to_int(b), v as i64, "{v}");
            assert_eq!(f64::from_bits(haxe_math_abs(b)), v.abs());
        }
    }
    assert_eq!(haxe_math_floor(f64::NAN.to_bits()), 0);
    assert_eq!(haxe_math_round(f64::NEG_INFINITY.to_bits()), i32::MIN);
    assert!(haxe_math_is_nan(f64::NAN.to_bits()));
    assert!(!haxe_math_is_finite(f64::INFINITY.to_bits()));
    assert!(haxe_math_is_finite(1.0f64.to_bits()));
    for i in [0i64, 1, -1, 7, 1 << 53, (1 << 53) + 1, i64::MAX, i64::MIN] {
        assert_eq!(from_int(i), (i as f64).to_bits(), "{i}");
    }
    assert_eq!(float_order(0.0f64.to_bits(), (-0.0f64).to_bits()), 0);
    assert_eq!(float_order(1.0f64.to_bits(), (-2.0f64).to_bits()), 1);
    assert_eq!(float_order(f64::NAN.to_bits(), 0), 0);
}

#[test]
fn the_generator_starts_from_one() {
    let mut seed = 1u64;
    let first = haxe_math_random(&mut seed);
    assert_eq!(seed, 1103527590);
    assert_eq!(first, 16838);
    assert_eq!(haxe_math_random(&mut seed), (seed / 65536) % 32768);
}

// --- closures ------------------------------------------------------------

#[test]
fn closures_have_entries() {
    let mut e = ClosureEntries::new();
    let target = ClosureRecord { code: 0x100, env: 1 };
    let slot = ClosureRecord { code: 0x200, env: 2 };
    let dynamic = ClosureRecord { code: 0x300, env: 3 };
    e.haxe_closure_register_entries(Some(target), Some(slot), Some(dynamic));
    assert_eq!(e.closure_slot_code(0x100), 0x200);
    assert_eq!(e.closure_slot_code(0x999), 0x999);
    let view = e.haxe_closure_dynamic_view(Some(target)).unwrap();
    assert_eq!(view.code, 0x300);
    assert!(e.haxe_closure_dynamic_view(None).is_none());

    let mut m = Methods::new();
    m.haxe_register_method(7, Some(&hs("run")), Some(ClosureRecord { code: 0x40, env: 0 }));
    assert_eq!(m.method_code(7, b"run"), Some(0x40));
    assert_eq!(m.method_code(8, b"run"), None);
}

use rayzor_runtime::anon_object::{
    get_shape, rayzor_anon_delete_field, rayzor_anon_fields, rayzor_anon_get_field,
    rayzor_anon_has_field, rayzor_anon_new, rayzor_anon_set_field, rayzor_anon_set_field_by_index,
    rayzor_ensure_shape, rayzor_register_shape, AnonStore, BoxedValue, DynamicWord, ShapeTable,
    DYNAMIC_SHAPE, TYPE_BOOL, TYPE_INT,
};
use rayzor_runtime::compress::{build_execute_result, ExecuteResult};
use rayzor_runtime::concurrency::{sys_lock_wait, Semaphore};
use rayzor_runtime::haxe_array::{
    haxe_array_get_i64, haxe_array_index_of, haxe_array_length, haxe_array_new,
    haxe_array_push_i64, haxe_array_set_i64, haxe_array_splice, HaxeArray,
};
use rayzor_runtime::haxe_maps::{
    haxe_stringmap_keys_to_array, haxe_stringmap_new, haxe_stringmap_set,
};
use rayzor_runtime::haxe_string::{haxe_string_from_bytes, haxe_string_replace, HaxeString};
use rayzor_runtime::heap::{GlobalStore, Heap};
use rayzor_runtime::iter_handle::{
    answer_truth, answer_value, callable, handle_has_next, handle_iterator, handle_next,
    iter_kind, iterator_made, IterHandle, IterKind,
};
use rayzor_runtime::quant_kernels::{split_qkv, QkvPlan};
use rayzor_runtime::reflect::{
    haxe_reflect_delete_field, haxe_reflect_field, haxe_reflect_fields, haxe_reflect_has_field,
    haxe_reflect_set_field,
};

fn hs(s: &str) -> HaxeString {
    haxe_string_from_bytes(Some(s.as_bytes()))
}

fn txt(s: &HaxeString) -> String {
    String::from_utf8(s.bytes().to_vec()).unwrap()
}

fn word(v: i64) -> Option<DynamicWord> {
    Some(DynamicWord { type_id: TYPE_INT, word: Some(v as u64) })
}

fn number(v: Option<BoxedValue>) -> Option<i64> {
    match v {
        Some(BoxedValue::Int(i)) => Some(i),
        _ => None,
    }
}

fn items(a: &HaxeArray) -> Vec<i64> {
    (0..haxe_array_length(Some(a))).map(|i| haxe_array_get_i64(Some(a), i)).collect()
}

#[test]
fn layouts_are_described_once() {
    let mut t = ShapeTable { table: None };
    let names = vec![b"a".to_vec(), b"b".to_vec()];
    assert_eq!(rayzor_register_shape(&mut t, &names, &vec![3, 4]), 0);
    rayzor_ensure_shape(&mut t, 2, Some(&hs("x:3,,y,z:oops")));
    rayzor_ensure_shape(&mut t, 2, Some(&hs("other:1")));
    rayzor_ensure_shape(&mut t, 0, Some(&hs("other:1")));
    let two = get_shape(&t, 2).unwrap();
    assert_eq!(two.field_names, [b"x".to_vec(), b"y".to_vec(), b"z".to_vec()]);
    assert_eq!(two.field_types, [3, 0, 0]);
    assert_eq!(get_shape(&t, 0).unwrap().field_names, names);
    assert!(get_shape(&t, 1).unwrap().field_names.is_empty());
    assert!(get_shape(&t, 3).is_none());
}

#[test]
fn fields_are_set_read_and_deleted() {
    let mut t = ShapeTable { table: None };
    rayzor_ensure_shape(&mut t, 0, Some(&hs("a:3,b:3")));
    let mut s = AnonStore::new();
    let o = rayzor_anon_new(&mut s, 0, 2);
    rayzor_anon_set_field_by_index(&mut s, o, 1, 7);
    rayzor_anon_set_field(&mut s, &t, o, Some(b"a"), word(5));
    assert_eq!(number(rayzor_anon_get_field(&s, &t, o, Some(b"a"))), Some(5));
    assert_eq!(number(rayzor_anon_get_field(&s, &t, o, Some(b"b"))), Some(7));
    rayzor_anon_set_field(&mut s, &t, o, Some(b"c"), word(9));
    assert_eq!(number(rayzor_anon_get_field(&s, &t, o, Some(b"a"))), Some(5));
    assert_eq!(number(rayzor_anon_get_field(&s, &t, o, Some(b"c"))), Some(9));
    assert!(rayzor_anon_delete_field(&mut s, &t, o, Some(b"a")));
    assert!(!rayzor_anon_delete_field(&mut s, &t, o, Some(b"a")));
    assert!(!rayzor_anon_has_field(&s, &t, o, Some(b"a")));
    let names = rayzor_anon_fields(&s, &t, o).unwrap();
    assert_eq!(names.iter().map(txt).collect::<Vec<_>>(), ["b", "c"]);
    assert!(rayzor_anon_get_field(&s, &t, 0, Some(b"b")).is_none());
}

#[test]
fn a_repeated_name_is_read_by_its_first_field_until_one_is_deleted() {
    let mut t = ShapeTable { table: None };
    rayzor_ensure_shape(&mut t, 0, Some(&hs("a:3,b:3,a:3")));
    let mut s = AnonStore::new();
    let o = rayzor_anon_new(&mut s, 0, 3);
    rayzor_anon_set_field_by_index(&mut s, o, 0, 1);
    rayzor_anon_set_field_by_index(&mut s, o, 2, 9);
    assert_eq!(number(rayzor_anon_get_field(&s, &t, o, Some(b"a"))), Some(1));
    assert!(rayzor_anon_delete_field(&mut s, &t, o, Some(b"b")));
    assert_eq!(number(rayzor_anon_get_field(&s, &t, o, Some(b"a"))), Some(9));
    assert!(!rayzor_anon_has_field(&s, &t, o, Some(b"b")));
}

#[test]
fn ill_formed_names_are_replaced() {
    let t = ShapeTable { table: None };
    let mut s = AnonStore::new();
    let o = rayzor_anon_new(&mut s, DYNAMIC_SHAPE, 0);
    rayzor_anon_set_field(&mut s, &t, o, Some(&[b'a', 0xff]), word(1));
    let names = rayzor_anon_fields(&s, &t, o).unwrap();
    assert_eq!(txt(&names[0]), "a\u{fffd}");
}

#[test]
fn reflection_goes_by_name() {
    let t = ShapeTable { table: None };
    let mut s = AnonStore::new();
    let o = rayzor_anon_new(&mut s, DYNAMIC_SHAPE, 0);
    haxe_reflect_set_field(&mut s, &t, o, Some(&hs("k")), word(-3));
    assert!(haxe_reflect_has_field(&s, &t, o, Some(&hs("k"))));
    assert_eq!(number(haxe_reflect_field(&s, &t, o, Some(&hs("k")))), Some(-3));
    assert_eq!(haxe_reflect_fields(&s, &t, o).unwrap().len(), 1);
    assert!(!haxe_reflect_delete_field(&mut s, &t, o, Some(&hs(""))));
    assert!(haxe_reflect_delete_field(&mut s, &t, o, Some(&hs("k"))));
    assert!(haxe_reflect_field(&s, &t, o, None).is_none());
}

#[test]
fn results_of_steps_have_typed_fields() {
    let mut t = ShapeTable { table: None };
    let mut s = AnonStore::new();
    let r = ExecuteResult { done: true, read: 4, write: 2 };
    let o = build_execute_result(&mut s, &mut t, r);
    let done = rayzor_anon_get_field(&s, &t, o, Some(b"done"));
    assert!(matches!(done, Some(BoxedValue::Bool(true))));
    assert_eq!(number(rayzor_anon_get_field(&s, &t, o, Some(b"read"))), Some(4));
    assert_eq!(get_shape(&t, 1001).unwrap().field_types[0], TYPE_BOOL);
}

#[test]
fn handles_become_iterators_once() {
    assert_eq!(iter_kind(0x10, 0), IterKind::Nothing);
    assert_eq!(iter_kind(0x2000, 0x52_5A_49_54_45_52_00_01), IterKind::Handle);
    assert_eq!(iter_kind(0x2000, 42), IterKind::Nothing);
    assert_eq!(iter_kind(0x2000, 0x7fff_0000_0000), IterKind::Structure);
    assert!(callable(0x1000, 1) && !callable(0x1001, 1) && !callable(0x1000, 0));
    let mut h = IterHandle { object: 5, make: 0x3000, has_next: 0x4000, next: 0x5000 };
    let call = handle_iterator(&h).unwrap();
    assert_eq!((call.record, call.object), (0x3000, 5));
    iterator_made(&mut h, 6);
    assert!(handle_iterator(&h).is_none());
    assert_eq!(handle_has_next(&h).record, 0x4000);
    assert_eq!((handle_next(&h).record, handle_next(&h).object), (0x5000, 6));
    assert_eq!((answer_truth(Some(0x100)), answer_truth(Some(1)), answer_truth(None)), (0, 1, 0));
    assert_eq!((answer_value(Some(9)), answer_value(None)), (9, 0));
}

#[test]
fn replacing_a_needle_by_itself_changes_nothing() {
    let (s, n) = (hs("one two two"), hs("two"));
    let same = haxe_string_replace(Some(&s), Some(&n), Some(&n));
    assert_eq!(txt(&same), "one two two");
    let other = haxe_string_replace(Some(&s), Some(&n), Some(&hs("2")));
    assert_eq!(txt(&other), "one 2 2");
    let absent = haxe_string_replace(Some(&s), Some(&hs("xyz")), Some(&n));
    assert_eq!(txt(&absent), "one two two");
}

#[test]
fn a_splice_recombines() {
    let mut a = haxe_array_new(8);
    for v in [1, 2, 3, 4, 5] {
        haxe_array_push_i64(&mut a, v);
    }
    let out = haxe_array_splice(Some(&mut a), -4, 2);
    assert_eq!(items(&out), [2, 3]);
    assert_eq!(items(&a), [1, 4, 5]);
    assert!(haxe_array_set_i64(Some(&mut a), 5, 8));
    assert_eq!(items(&a), [1, 4, 5, 0, 0, 8]);
    assert_eq!(haxe_array_index_of(Some(&a), 8, -2), 5);
}

#[test]
fn growing_keeps_bytes_and_variables_keep_values() {
    let mut h = Heap::new();
    let p = h.rayzor_malloc(4);
    h.set_byte(p, 3, 9);
    let q = h.rayzor_realloc(p, 4, 400);
    assert_eq!(h.byte(q, 3), 9);
    let mut g = GlobalStore::new();
    g.rayzor_global_store(100, -1);
    assert_eq!((g.rayzor_global_load(100), g.rayzor_global_load(99)), (-1, 0));
    assert_eq!(g.rayzor_global_load(1_000_000), 0);
}

#[test]
fn locks_are_waited_for() {
    let mut s = Semaphore { count: 1 };
    assert_eq!(sys_lock_wait(Some(&mut s)), Some(true));
    assert_eq!(sys_lock_wait(Some(&mut s)), None);
    assert_eq!(sys_lock_wait(None), Some(false));
}

#[test]
fn keys_are_listed() {
    let mut m = haxe_stringmap_new();
    haxe_stringmap_set(&mut m, Some(&hs("k")), 1);
    haxe_stringmap_set(&mut m, Some(&hs("k")), 2);
    let keys = haxe_stringmap_keys_to_array(Some(&m));
    assert_eq!(keys.iter().map(txt).collect::<Vec<_>>(), ["k"]);
    assert!(haxe_stringmap_keys_to_array(None).is_empty());
}

#[test]
fn bands_cover_every_row_once() {
    let (q_n, k_n, v_n) = (5, 2, 3);
    let mut seen = [[0u32; 5]; 3];
    for (lo, hi) in [(0, 4), (4, 8), (8, 10)] {
        let plan = QkvPlan { batch: 1, k: 256, q_n, k_n, v_n, threads: 3 };
        let (q, k, v) = split_qkv(plan, lo, hi);
        for (rows, band) in seen.iter_mut().zip([q, k, v]) {
            if let Some(b) = band {
                (b.lo..b.hi).for_each(|r| rows[r] += 1);
            }
        }
    }
    assert_eq!(seen, [[1; 5], [1, 1, 0, 0, 0], [1, 1, 1, 0, 0]]);
}

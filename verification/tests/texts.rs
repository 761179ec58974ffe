use rayzor_runtime::cstring_runtime::{
    rayzor_cstring_free, rayzor_cstring_from, rayzor_cstring_to_string,
};
use rayzor_runtime::haxe_string::{
    haxe_string_char_at, haxe_string_char_code_at, haxe_string_compare, haxe_string_concat_sret,
    haxe_string_from_bytes, haxe_string_from_cstr, haxe_string_hash, haxe_string_index_of,
    haxe_string_length, haxe_string_print, haxe_string_println, haxe_string_replace,
    haxe_string_split, haxe_string_split_array, haxe_string_substr, haxe_string_substring,
    haxe_string_to_cstr, haxe_string_to_lower_case, haxe_string_to_upper_case,
    rayzor_stdout_write, HaxeString, StdoutBuffer,
};
use rayzor_runtime::haxe_sys::{
    haxe_fileinput_eof, haxe_fileinput_read_byte, haxe_fileinput_seek, haxe_fileoutput_seek,
    haxe_string_char_at_ptr, haxe_string_char_code_at_ptr, haxe_string_from_bool,
    haxe_string_from_char_code, haxe_string_from_int, haxe_string_index_of_ptr,
    haxe_string_last_index_of_ptr, haxe_string_lower, haxe_string_split_ptr,
    haxe_string_substr_ptr, haxe_string_substring_ptr, haxe_string_upper, haxe_sys_get_char,
    haxe_filesystem_stat, haxe_sys_put_env, haxe_sys_system_name, haxe_trace_bool, haxe_trace_int,
    plain_stat, set_trace_prefix, EnvChange, FileTime, HaxeFileInput, SeekTarget, TracePrefix,
};
use rayzor_runtime::json::{haxe_json_parse, haxe_json_stringify, JsonValue, Parser};

fn hs(s: &str) -> HaxeString {
    haxe_string_from_bytes(Some(s.as_bytes()))
}

fn txt(s: &HaxeString) -> String {
    String::from_utf8(s.bytes().to_vec()).unwrap()
}

fn txts(v: &[HaxeString]) -> Vec<String> {
    v.iter().map(txt).collect()
}

#[test]
fn strings_are_measured_and_cut() {
    let s = hs("hello world");
    assert_eq!(haxe_string_length(Some(&s)), 11);
    assert_eq!(haxe_string_length(None), 0);
    assert_eq!(haxe_string_char_at(Some(&s), 4), 'o' as i32);
    assert_eq!(haxe_string_char_at(Some(&s), 99), -1);
    assert_eq!(haxe_string_char_code_at(Some(&s), 0), 104);
    assert_eq!(txt(&haxe_string_substring(Some(&s), 6, 11)), "world");
    assert_eq!(txt(&haxe_string_substr(Some(&s), 0, 5)), "hello");
    assert_eq!(txt(&haxe_string_concat_sret(Some(&s), Some(&hs("!")))), "hello world!");
    assert_eq!(txt(&haxe_string_to_upper_case(Some(&s))), "HELLO WORLD");
    assert_eq!(txt(&haxe_string_to_lower_case(Some(&hs("ABC")))), "abc");
}

#[test]
fn strings_are_searched() {
    let s = hs("banana");
    assert_eq!(haxe_string_index_of(Some(&s), Some(&hs("an")), 0), 1);
    assert_eq!(haxe_string_index_of(Some(&s), Some(&hs("an")), 2), 3);
    assert_eq!(haxe_string_index_of(Some(&s), Some(&hs("xyz")), 0), -1);
    assert_eq!(haxe_string_index_of(Some(&s), Some(&hs("bananas!")), 0), -1);
    assert_eq!(haxe_string_index_of_ptr(Some(&s), Some(&hs("na")), 3), 4);
    assert_eq!(haxe_string_last_index_of_ptr(Some(&s), Some(&hs("an")), 5), 3);
    assert_eq!(haxe_string_last_index_of_ptr(Some(&s), Some(&hs("an")), 2), 1);
    assert_eq!(haxe_string_compare(Some(&hs("a")), Some(&hs("b"))), -1);
    assert_eq!(haxe_string_compare(Some(&hs("ab")), Some(&hs("a"))), 1);
    assert_eq!(haxe_string_compare(Some(&hs("a")), Some(&hs("a"))), 0);
}

#[test]
fn strings_are_split_and_joined_again() {
    let s = hs("a,b,,c");
    assert_eq!(txts(&haxe_string_split(Some(&s), Some(&hs(",")))), ["a", "b", "", "c"]);
    let parts = haxe_string_split_array(Some(&s), Some(&hs(",")));
    assert_eq!(txts(&parts), ["a", "b", "", "c"]);
    assert_eq!(txts(&haxe_string_split_ptr(Some(&s), Some(&hs(","))).unwrap()).join(","), "a,b,,c");
    assert_eq!(
        txt(&haxe_string_replace(Some(&hs("one two one")), Some(&hs("one")), Some(&hs("1")))),
        "1 two 1"
    );
}

#[test]
fn strings_cross_the_boundary_to_c() {
    let s = hs("path/to");
    let c = haxe_string_to_cstr(Some(&s)).unwrap();
    assert_eq!(c, b"path/to\0");
    assert_eq!(txt(&haxe_string_from_cstr(Some(&c))), "path/to");
    let c = rayzor_cstring_from(Some(&s)).unwrap();
    assert_eq!(c, b"path/to\0");
    let back = rayzor_cstring_to_string(Some(&c));
    assert_eq!(txt(&back), "path/to");
    assert_eq!((back.len, back.cap), (7, 33));
    assert_eq!(back.data, Some(b"path/to\0".to_vec()));
    let empty = rayzor_cstring_to_string(None);
    assert_eq!((empty.len, empty.cap, empty.data), (0, 32, Some(vec![0])));
    assert_eq!(haxe_string_to_cstr(Some(&haxe_string_from_int(42))).unwrap(), b"42");
    assert_eq!(rayzor_cstring_free(Some(c)), 8);
    assert!(rayzor_cstring_from(None).is_none());
}

#[test]
fn files_have_statistics() {
    let time = |secs| Some(FileTime { secs, nanos: 5 });
    let raw = plain_stat(false, 9, time(1), time(2), None);
    assert_eq!((raw.nlink, raw.mode, raw.ino), (1, 0o644, 0));
    assert_eq!(plain_stat(true, 0, None, None, None).mode, 0o755);
    let path = "f".to_string();
    let s = haxe_filesystem_stat(Some(&path), Some(raw)).unwrap();
    assert_eq!((s.size, s.mode, s.nlink), (9, 0o644, 1));
    assert_eq!((s.atime.secs, s.mtime.secs, s.ctime.secs, s.ctime.nanos), (1, 2, 0, 0));
    assert!(haxe_filesystem_stat(None, Some(raw)).is_none());
    assert!(haxe_filesystem_stat(Some(&path), None).is_none());
}

#[test]
fn hashes_are_equal_for_equal_strings() {
    assert_eq!(haxe_string_hash(Some(&hs("abc"))), haxe_string_hash(Some(&hs("abc"))));
    assert_ne!(haxe_string_hash(Some(&hs("abc"))), haxe_string_hash(Some(&hs("abd"))));
    assert_eq!(haxe_string_hash(None), 0);
}

#[test]
fn haxe_cuts_take_signed_positions() {
    let s = hs("hello");
    assert_eq!(txt(&haxe_string_substr_ptr(Some(&s), -3, 2)), "ll");
    assert_eq!(txt(&haxe_string_substr_ptr(Some(&s), 1, -1)), "");
    assert_eq!(txt(&haxe_string_substring_ptr(Some(&s), 3, 1)), "el");
    assert_eq!(txt(&haxe_string_char_at_ptr(Some(&s), 1)), "e");
    assert_eq!(txt(&haxe_string_char_at_ptr(Some(&s), 9)), "");
    assert_eq!(haxe_string_char_code_at_ptr(Some(&s), 0), 104);
    assert_eq!(txt(&haxe_string_upper(Some(&s))), "HELLO");
    assert_eq!(txt(&haxe_string_lower(Some(&hs("HeY")))), "hey");
    assert_eq!(txt(&haxe_string_from_char_code(65)), "A");
    assert_eq!(txt(&haxe_string_from_int(-120)), "-120");
    assert_eq!(txt(&haxe_string_from_bool(true)), "true");
}

#[test]
fn standard_output_is_buffered() {
    let mut out = StdoutBuffer::new();
    assert_eq!(rayzor_stdout_write(&mut out, b"a", b"\n", false, 50, 100), None);
    assert_eq!(haxe_string_print(&mut out, Some(&hs("b")), 50, 120), None);
    assert_eq!(haxe_string_println(&mut out, Some(&hs("c")), 50, 150), Some(b"a\nbc\n".to_vec()));
    assert_eq!(rayzor_stdout_write(&mut out, b"x", b"", true, 50, 151), Some(b"x".to_vec()));
    let big = vec![b'z'; 4096];
    assert_eq!(rayzor_stdout_write(&mut out, &big, b"", false, 50, 151), Some(big.clone()));
}

#[test]
fn traces_carry_the_prefix() {
    let mut state = TracePrefix::new();
    assert_eq!(haxe_trace_int(&state, 7), b"7\n");
    set_trace_prefix(&mut state, "[main] ");
    assert_eq!(haxe_trace_int(&state, 7), b"[main] 7\n");
    assert_eq!(haxe_trace_bool(&state, false), b"[main] false\n");
}

#[test]
fn system_calls_are_prepared() {
    assert_eq!(txt(&haxe_sys_system_name("linux")), "Linux");
    assert_eq!(txt(&haxe_sys_system_name("macos")), "Mac");
    assert_eq!(haxe_sys_get_char(Some(10)), 10);
    assert_eq!(haxe_sys_get_char(None), -1);
    let name = hs("HOME");
    assert!(matches!(haxe_sys_put_env(Some(&name), None), EnvChange::Remove(n) if n == "HOME"));
    assert!(matches!(
        haxe_sys_put_env(Some(&name), Some(&hs("/"))),
        EnvChange::Assign(n, v) if n == "HOME" && v == "/"
    ));
    assert!(matches!(haxe_sys_put_env(None, None), EnvChange::Keep));
}

#[test]
fn files_are_read_to_their_end() {
    let mut f = HaxeFileInput { eof_reached: false };
    assert_eq!(haxe_fileinput_read_byte(&mut f, Ok(Some(9))), 9);
    assert!(!haxe_fileinput_eof(Some(&f)));
    assert_eq!(haxe_fileinput_read_byte(&mut f, Ok(None)), -1);
    assert!(haxe_fileinput_eof(Some(&f)));
    assert!(matches!(haxe_fileinput_seek(&mut f, 3, 0), Some(SeekTarget::Start(3))));
    assert!(!haxe_fileinput_eof(Some(&f)));
    assert!(matches!(haxe_fileoutput_seek(-2, 2), Some(SeekTarget::End(-2))));
    assert!(haxe_fileoutput_seek(0, 9).is_none());
}

fn read_number(text: &[u8]) -> Option<u64> {
    std::str::from_utf8(text).ok()?.parse::<f64>().ok().map(f64::to_bits)
}

fn write_number(bits: u64) -> Vec<u8> {
    f64::from_bits(bits).to_string().into_bytes()
}

#[test]
fn json_goes_through_text() {
    let source = hs("{\"a\": [1, -2, true, null], \"b\\n\": \"\\u00e9x\", \"c\": 1.5}");
    let v = haxe_json_parse(Some(&source), &read_number);
    match &v {
        JsonValue::Object(fields) => {
            assert_eq!(fields.len(), 3);
            assert_eq!(fields[0].0, b"a");
            assert!(matches!(&fields[0].1, JsonValue::Array(a) if a.len() == 4
                && matches!(a[0], JsonValue::Int(1)) && matches!(a[1], JsonValue::Int(-2))
                && matches!(a[2], JsonValue::Bool(true)) && matches!(a[3], JsonValue::Null)));
            assert_eq!(fields[1].0, b"b\n");
            assert!(matches!(&fields[1].1, JsonValue::Str(s) if s == "\u{e9}x".as_bytes()));
            assert!(matches!(fields[2].1, JsonValue::Float(b) if f64::from_bits(b) == 1.5));
        }
        _ => panic!("not an object"),
    }
    let small = JsonValue::Array(vec![JsonValue::Int(5), JsonValue::Str(b"q\"".to_vec())]);
    assert_eq!(txt(&haxe_json_stringify(&small, &write_number)), "[5,\"q\\\"\"]");
    assert!(matches!(haxe_json_parse(None, &read_number), JsonValue::Null));
}

#[test]
fn json_numbers_are_integers_where_they_fit() {
    let parse = |s: &str| haxe_json_parse(Some(&hs(s)), &read_number);
    assert!(matches!(parse("9223372036854775807"), JsonValue::Int(i64::MAX)));
    assert!(matches!(parse("-9223372036854775808"), JsonValue::Int(i64::MIN)));
    for (text, value) in [
        ("9223372036854775808", 9223372036854775808.0),
        ("18446744073709551615", 18446744073709551615.0),
        ("-9223372036854775809", -9223372036854775809.0),
        ("1e3", 1000.0),
        ("-0.0", 0.0),
        ("2.", 2.0),
        ("1e", 0.0),
    ] {
        assert!(matches!(parse(text), JsonValue::Float(b) if f64::from_bits(b) == value));
    }
    let mut p = Parser { bytes: b"9223372036854775808", pos: 0 };
    assert!(matches!(p.parse_number(&read_number), JsonValue::Float(_)));
    assert_eq!(p.pos, 19);
}

#[test]
fn json_numbers_are_formatted() {
    for (given, wanted) in [
        ("1.50", "1.5"),
        ("1e3", "1000.0"),
        ("-2.0", "-2.0"),
        ("999999999999999.0", "999999999999999.0"),
        ("1e15", "1000000000000000"),
        ("1.25e-3", "0.00125"),
        ("[1.0,{\"k\":2.5}]", "[1.0,{\"k\":2.5}]"),
    ] {
        let v = haxe_json_parse(Some(&hs(given)), &read_number);
        assert_eq!(txt(&haxe_json_stringify(&v, &write_number)), wanted);
    }
}

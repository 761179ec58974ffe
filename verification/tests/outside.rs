use rayzor_runtime::anon_object::{rayzor_anon_get_field_by_index, AnonStore, ShapeTable};
use rayzor_runtime::compress::{
    build_execute_result, finish_step, rayzor_compress_execute, rayzor_compress_new,
    rayzor_compress_run, rayzor_compress_set_flush, rayzor_uncompress_execute,
    rayzor_uncompress_new, rayzor_uncompress_set_flush, to_flush_compress, to_flush_decompress,
    zlib_header, ExecuteResult, FlushMode, InflateMode, StepTotals,
};
use rayzor_runtime::ereg::{
    haxe_ereg_escape, haxe_ereg_match, haxe_ereg_match_sub, haxe_ereg_matched,
    haxe_ereg_matched_left, haxe_ereg_matched_pos, haxe_ereg_matched_right, haxe_ereg_new,
    backreferences, haxe_ereg_replace, haxe_ereg_split, parse_flags,
};
use rayzor_runtime::haxe_bytes::HaxeBytes;
use rayzor_runtime::haxe_date::{
    choose_reading, date_components, date_of, date_or_now, day_of, full_year_of,
    get_local_datetime, haxe_date_from_string, haxe_date_from_time,
    haxe_date_get_date, haxe_date_get_day, haxe_date_get_full_year, haxe_date_get_hours,
    haxe_date_get_minutes, haxe_date_get_month, haxe_date_get_seconds, haxe_date_get_time,
    haxe_date_get_timezone_offset, haxe_date_get_utc_date, haxe_date_get_utc_day,
    haxe_date_get_utc_full_year, haxe_date_get_utc_hours, haxe_date_get_utc_minutes,
    haxe_date_get_utc_month, haxe_date_get_utc_seconds, haxe_date_new, haxe_date_now,
    haxe_date_to_string, hours_of, minutes_of, month_of, read_date, seconds_of, text_of,
    timezone_offset_of, Civil, DateReading, HaxeDate, Moment,
};
use rayzor_runtime::haxe_string::{haxe_string_from_bytes, HaxeString};

fn hs(s: &str) -> HaxeString {
    haxe_string_from_bytes(Some(s.as_bytes()))
}

fn txt(s: &HaxeString) -> String {
    String::from_utf8(s.bytes().to_vec()).unwrap()
}

fn bytes(data: &[u8]) -> HaxeBytes {
    HaxeBytes { data: data.to_vec(), cap: data.len().max(16) }
}

// --- compression ---------------------------------------------------------

#[test]
fn what_is_compressed_is_decompressed() {
    let text: Vec<u8> = (0..2000).map(|i| b"abcabcabd"[i % 9]).collect();
    let packed = rayzor_compress_run(Some(&bytes(&text)), 6).unwrap();
    assert!(packed.data.len() < text.len() / 4);
    assert_eq!(packed.data[0], 0x78);

    let mut d = rayzor_uncompress_new(15);
    rayzor_uncompress_set_flush(&mut d, 3);
    let mut out = bytes(&vec![0u8; 2100]);
    let r = rayzor_uncompress_execute(Some(&mut d), Some(&packed), 0, &mut out, 50);
    assert!(r.done);
    assert_eq!(r.read, packed.data.len() as i64);
    assert_eq!(r.write, 2000);
    assert_eq!(&out.data[50..2050], &text[..]);
    assert!(out.data[..50].iter().chain(&out.data[2050..]).all(|b| *b == 0));
    assert!(rayzor_compress_run(None, 6).is_none());
}

#[test]
fn every_level_is_read_back() {
    for text in [&b""[..], &b"a"[..], &[7u8; 700][..], &b"no run repeats"[..]] {
        for level in [-1, 0, 1, 5, 9, 12] {
            let packed = rayzor_compress_run(Some(&bytes(text)), level).unwrap();
            let mut d = rayzor_uncompress_new(1);
            rayzor_uncompress_set_flush(&mut d, 2);
            let mut out = bytes(&vec![0u8; text.len() + 1]);
            let r = rayzor_uncompress_execute(Some(&mut d), Some(&packed), 0, &mut out, 0);
            let (read, write) = (packed.data.len() as i64, text.len() as i64);
            assert_eq!(r, ExecuteResult { done: true, read, write });
            assert_eq!(&out.data[..text.len()], text);
        }
    }
}

#[test]
fn steps_depend_on_those_before() {
    let (mut one, mut two) = (rayzor_compress_new(6), rayzor_compress_new(6));
    let src = bytes(b"abcabcabcabc");
    rayzor_compress_set_flush(&mut one, 1);
    rayzor_compress_set_flush(&mut two, 1);
    let mut dst = bytes(&[0u8; 64]);
    let first = rayzor_compress_execute(Some(&mut one), Some(&src), 0, &mut dst, 0);
    assert!(!first.done && first.read == 12);
    let mut again = bytes(&[0u8; 64]);
    let same = rayzor_compress_execute(Some(&mut two), Some(&src), 0, &mut again, 0);
    assert_eq!(first, same);
    assert_eq!(dst.data, again.data);
    let mut next = bytes(&[0u8; 64]);
    let second = rayzor_compress_execute(Some(&mut one), Some(&src), 0, &mut next, 0);
    assert_ne!(&next.data[..second.write as usize], &dst.data[..first.write as usize]);
}

#[test]
fn streams_are_compressed_in_steps() {
    let mut c = rayzor_compress_new(99);
    rayzor_compress_set_flush(&mut c, 3);
    let src = bytes(b"xxhello hello hello");
    let mut dst = bytes(&[0u8; 64]);
    let r = rayzor_compress_execute(Some(&mut c), Some(&src), 2, &mut dst, 0);
    assert!(r.done && r.read == 17 && r.write > 0);

    let mut d = rayzor_uncompress_new(15);
    rayzor_uncompress_set_flush(&mut d, 3);
    let packed = bytes(&dst.data[..r.write as usize]);
    let mut out = bytes(&[b'.'; 20]);
    let r = rayzor_uncompress_execute(Some(&mut d), Some(&packed), -1, &mut out, 1);
    assert!(r.done);
    assert_eq!(out.data, b".hello hello hello..");

    let none = ExecuteResult { done: false, read: 0, write: 0 };
    assert_eq!(rayzor_compress_execute(None, Some(&src), 0, &mut dst, 0), none);
    assert_eq!(rayzor_compress_execute(Some(&mut c), Some(&src), 19, &mut dst, 0), none);
    assert_eq!(rayzor_compress_execute(Some(&mut c), Some(&src), 0, &mut dst, 64), none);
}

#[test]
fn steps_are_reported() {
    let mut dst = bytes(b"------");
    let t = StepTotals {
        done: true,
        in_before: 10,
        in_after: 13,
        out_before: 4,
        out_after: 6,
        buffer: b"ABCD".to_vec(),
    };
    let r = finish_step(&mut dst, 2, t);
    assert_eq!(r, ExecuteResult { done: true, read: 3, write: 2 });
    assert_eq!(dst.data, b"--AB--");

    let mut store = AnonStore::new();
    let mut table = ShapeTable { table: None };
    let o = build_execute_result(&mut store, &mut table, r);
    let fields: Vec<u64> = (0..3).map(|i| rayzor_anon_get_field_by_index(&store, o, i)).collect();
    assert_eq!(fields, [1, 3, 2]);
    assert_eq!(to_flush_compress(4), FlushMode::Sync);
    assert_eq!(to_flush_compress(2), FlushMode::Full);
    assert_eq!(to_flush_compress(9), FlushMode::NoFlush);
    assert_eq!(to_flush_decompress(2), InflateMode::Finish);
    assert!(zlib_header(15) && !zlib_header(0) && !zlib_header(-15));
}

// --- regular expressions -------------------------------------------------

#[test]
fn expressions_match() {
    let mut e = haxe_ereg_new(Some(&hs("([a-z]+)-([0-9]+)")), Some(&hs("i")));
    assert_eq!(haxe_ereg_match(Some(&mut e), Some(&hs("<< AB-12 >>"))), 1);
    assert_eq!(txt(&haxe_ereg_matched(Some(&e), 0).unwrap()), "AB-12");
    assert_eq!(txt(&haxe_ereg_matched(Some(&e), 2).unwrap()), "12");
    assert!(haxe_ereg_matched(Some(&e), 3).is_none());
    assert_eq!(txt(&haxe_ereg_matched_left(Some(&e))), "<< ");
    assert_eq!(txt(&haxe_ereg_matched_right(Some(&e))), " >>");
    assert_eq!(haxe_ereg_matched_pos(&e), (3, 5));
    assert_eq!(haxe_ereg_match(Some(&mut e), Some(&hs("none"))), 0);
    assert_eq!(haxe_ereg_match_sub(Some(&mut e), Some(&hs("a-1 b-2")), 3, -1), 1);
    assert_eq!(haxe_ereg_matched_pos(&e), (4, 3));
}

#[test]
fn expressions_split_and_replace() {
    let once = haxe_ereg_new(Some(&hs(", *")), Some(&hs("")));
    let all = haxe_ereg_new(Some(&hs(", *")), Some(&hs("g")));
    let s = hs("a,b, c");
    let parts = |v: Vec<HaxeString>| v.iter().map(txt).collect::<Vec<_>>();
    assert_eq!(parts(haxe_ereg_split(Some(&once), Some(&s))), ["a", "b, c"]);
    assert_eq!(parts(haxe_ereg_split(Some(&all), Some(&s))), ["a", "b", "c"]);
    assert_eq!(txt(&haxe_ereg_replace(Some(&once), Some(&s), Some(&hs(";")))), "a;b, c");
    assert_eq!(txt(&haxe_ereg_replace(Some(&all), Some(&s), Some(&hs(";")))), "a;b;c");
    assert_eq!(txt(&haxe_ereg_escape(Some(&hs("a.b")))), "a\\.b");
    let b = haxe_ereg_new(Some(&hs("(b)")), Some(&hs("")));
    let swap = |by| txt(&haxe_ereg_replace(Some(&b), Some(&hs("abc")), Some(&hs(by))));
    assert_eq!(swap("$1x"), "abxc");
    assert_eq!(swap("$$1"), "a$1c");
    assert_eq!(swap("$12"), "ab2c");
    assert_eq!(swap("<$0$>"), "a<b$>c");
    assert_eq!(swap("<${1}$x>"), "a<b>c");
    assert_eq!(backreferences("$1x$$\u{e9}$0"), "${1}x$$\u{e9}$0");
    assert_eq!(parse_flags(b"gi").0, true);
}

#[test]
fn a_broken_expression_matches_nothing() {
    let mut e = haxe_ereg_new(Some(&hs("(")), Some(&hs("")));
    assert!(!e.valid);
    assert_eq!(haxe_ereg_match(Some(&mut e), Some(&hs("("))), 0);
    assert_eq!(haxe_ereg_match(Some(&mut e), Some(&hs(""))), 0);
}

// --- dates ---------------------------------------------------------------

fn at(ms: f64) -> HaxeDate {
    haxe_date_from_time(ms.to_bits())
}

fn utc(d: &HaxeDate) -> [i32; 7] {
    let d = Some(d);
    [
        haxe_date_get_utc_full_year(d),
        haxe_date_get_utc_month(d),
        haxe_date_get_utc_date(d),
        haxe_date_get_utc_hours(d),
        haxe_date_get_utc_minutes(d),
        haxe_date_get_utc_seconds(d),
        haxe_date_get_utc_day(d),
    ]
}

#[test]
fn dates_have_fields_in_utc() {
    assert_eq!(utc(&at(0.0)), [1970, 0, 1, 0, 0, 0, 4]);
    assert_eq!(utc(&at(951_827_696_789.0)), [2000, 1, 29, 12, 34, 56, 2]);
    assert_eq!(utc(&at(-1000.0)), [1969, 11, 31, 23, 59, 59, 3]);
    assert_eq!(utc(&at(-1.0)), [1970, 0, 1, 0, 0, 0, 0]);
    assert_eq!(utc(&at(1e300)), [1970, 0, 1, 0, 0, 0, 0]);
    assert_eq!(haxe_date_get_utc_full_year(None), 1970);
    assert_eq!(haxe_date_get_utc_date(None), 1);
    assert_eq!(haxe_date_get_time(Some(&at(12.5))), 12.5f64.to_bits());
    assert_eq!(haxe_date_get_time(None), 0);
}

#[test]
fn dates_have_fields_in_local_time() {
    let d = haxe_date_new(2024, 5, 15, 12, 30, 45);
    let o = Some(&d);
    assert_eq!(haxe_date_get_full_year(o), 2024);
    assert_eq!(haxe_date_get_month(o), 5);
    assert_eq!(haxe_date_get_date(o), 15);
    assert_eq!(haxe_date_get_hours(o), 12);
    assert_eq!(haxe_date_get_minutes(o), 30);
    assert_eq!(haxe_date_get_seconds(o), 45);
    assert_eq!(haxe_date_get_day(o), 6);
    assert_eq!(txt(&haxe_date_to_string(o)), "2024-06-15 12:30:45");
    let m = get_local_datetime(o).unwrap();
    assert_eq!(haxe_date_get_timezone_offset(o), timezone_offset_of(&m));
    assert_eq!(haxe_date_get_hours(o), hours_of(&m));
    assert!(get_local_datetime(None).is_none());
    assert_eq!(txt(&haxe_date_to_string(None)), "1970-01-01 00:00:00");
    assert_eq!(txt(&haxe_date_to_string(Some(&at(-0.5 - 1.0)))), "1970-01-01 00:00:00");
    let now = f64::from_bits(haxe_date_now().timestamp_ms);
    assert!(now > 1.6e12);
}

#[test]
fn components_that_are_no_date_stand_for_the_epoch() {
    let c = date_components(2023, 1, 29, 24, 0, 0);
    assert_eq!((c.year, c.month, c.day, c.hour), (1970, 1, 1, 0));
    let c = date_components(2024, 1, 29, 23, 59, 59);
    assert_eq!((c.month, c.day, c.hour, c.second), (2, 29, 23, 59));
    let c = date_components(2024, -1, 1, -1, 0, 0);
    assert_eq!((c.year, c.month, c.hour), (1970, 1, 0));
    assert_eq!(date_or_now(None, 5), date_or_now(Some(5), 9));
}

#[test]
fn dates_are_read() {
    let civil = |year, month, day, hour, minute, second| Civil {
        year,
        month,
        day,
        hour,
        minute,
        second,
        nanos: 0,
    };
    assert_eq!(
        read_date("2021-03-04 05:06:07"),
        DateReading::Local(civil(2021, 3, 4, 5, 6, 7))
    );
    assert_eq!(read_date("2021-03-04"), DateReading::Local(civil(2021, 3, 4, 0, 0, 0)));
    assert_eq!(read_date("05:06:07"), DateReading::Utc(civil(1970, 1, 1, 5, 6, 7)));
    assert_eq!(read_date("2021-13-04"), DateReading::Unreadable);
    assert_eq!(choose_reading(None, None, None), DateReading::Unreadable);
    let d = haxe_date_from_string(Some(&hs("01:00:01")));
    assert_eq!(f64::from_bits(d.timestamp_ms), 3_601_000.0);
    let d = haxe_date_from_string(Some(&hs("2021-03-04 05:06:07")));
    assert_eq!(txt(&haxe_date_to_string(Some(&d))), "2021-03-04 05:06:07");
    let d = haxe_date_from_string(None);
    assert!(f64::from_bits(d.timestamp_ms) > 1.6e12);
}

#[test]
fn clocks_are_read() {
    let civil =
        Civil { year: 2024, month: 6, day: 15, hour: 12, minute: 30, second: 45, nanos: 0 };
    let mut m = Moment { offset: 7200, civil, weekday: 6, text: b"noon".to_vec() };
    assert_eq!(timezone_offset_of(&m), 120);
    m.offset = -12_630;
    assert_eq!(timezone_offset_of(&m), -210);
    assert_eq!((full_year_of(&m), month_of(&m), date_of(&m), day_of(&m)), (2024, 5, 15, 6));
    assert_eq!((hours_of(&m), minutes_of(&m), seconds_of(&m)), (12, 30, 45));
    assert_eq!(txt(&text_of(&m)), "noon");
}

#[test]
fn streams_without_a_header_have_no_positive_window() {
    let packed = rayzor_compress_run(Some(&bytes(b"hello hello")), 6).unwrap();
    let raw = bytes(&packed.data[2..packed.data.len() - 4]);
    for window_bits in [0, -15] {
        let mut d = rayzor_uncompress_new(window_bits);
        rayzor_uncompress_set_flush(&mut d, 2);
        let mut out = bytes(&[0u8; 12]);
        let r = rayzor_uncompress_execute(Some(&mut d), Some(&raw), 0, &mut out, 0);
        assert!(r.done && r.write == 11);
        assert_eq!(&out.data[..11], b"hello hello");
    }
}

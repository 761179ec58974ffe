//! Byte-string building blocks: searching, copying, and decimal and hexadecimal
//! rendering of integers.

use vstd::prelude::*;
use vstd::slice::slice_subrange;

verus! {

/// The UTF-8 bytes of a string.
pub open spec fn lit(s: &str) -> Seq<u8> {
    vstd::utf8::encode_utf8(s@)
}

/// `needle` stands in `hay` at position `i`.
pub open spec fn occurs_at(hay: Seq<u8>, needle: Seq<u8>, i: int) -> bool {
    &&& 0 <= i
    &&& i + needle.len() <= hay.len()
    &&& hay.subrange(i, i + needle.len()) == needle
}

/// The least position at or after `start` at which `needle` stands in `hay`, or -1.
pub open spec fn find_from(hay: Seq<u8>, needle: Seq<u8>, start: int) -> int
    decreases hay.len() + 1 - start,
{
    if start < 0 || start + needle.len() > hay.len() {
        -1
    } else if occurs_at(hay, needle, start) {
        start
    } else {
        find_from(hay, needle, start + 1)
    }
}

/// The greatest position at or before `start` at which `needle` stands in `hay`, or -1.
pub open spec fn find_back(hay: Seq<u8>, needle: Seq<u8>, start: int) -> int
    decreases start + 1,
{
    if start < 0 {
        -1
    } else if occurs_at(hay, needle, start) {
        start
    } else {
        find_back(hay, needle, start - 1)
    }
}

/// `find_from` gives the first occurrence, and -1 exactly when there is none.
pub proof fn lemma_find_from(hay: Seq<u8>, needle: Seq<u8>, start: int)
    requires
        0 <= start,
    ensures
        ({
            let r = find_from(hay, needle, start);
            &&& r == -1 || (start <= r && occurs_at(hay, needle, r))
            &&& forall|j: int| start <= j && (r == -1 || j < r) ==> !occurs_at(hay, needle, j)
        }),
    decreases hay.len() + 1 - start,
{
    if start + needle.len() <= hay.len() && !occurs_at(hay, needle, start) {
        lemma_find_from(hay, needle, start + 1);
    }
}

/// `find_back` gives the last occurrence, and -1 exactly when there is none.
pub proof fn lemma_find_back(hay: Seq<u8>, needle: Seq<u8>, start: int)
    requires
        -1 <= start,
    ensures
        ({
            let r = find_back(hay, needle, start);
            &&& r == -1 || (0 <= r <= start && occurs_at(hay, needle, r))
            &&& forall|j: int| r < j <= start ==> !occurs_at(hay, needle, j)
        }),
    decreases start + 1,
{
    if start >= 0 && !occurs_at(hay, needle, start) {
        lemma_find_back(hay, needle, start - 1);
    }
}

/// Whether `needle` stands in `hay` at `i`.
pub fn matches_at(hay: &[u8], needle: &[u8], i: usize) -> (found: bool)
    requires
        i + needle@.len() <= hay@.len(),
    ensures
        found == occurs_at(hay@, needle@, i as int),
{
    let hay_len: usize = hay.len();
    let mut k: usize = 0;
    while k < needle.len()
        invariant
            k <= needle@.len(),
            i + needle@.len() <= hay@.len(),
            hay@.len() == hay_len,
            forall|j: int| 0 <= j < k ==> hay@[i + j] == needle@[j],
        decreases needle@.len() - k,
    {
        if hay[i + k] != needle[k] {
            assert(hay@.subrange(i as int, i + needle@.len())[k as int] != needle@[k as int]);
            return false;
        }
        k = k + 1;
    }
    assert(hay@.subrange(i as int, i + needle@.len()) =~= needle@);
    true
}

/// Position of the first occurrence of `needle` at or after `start`.
pub fn find(hay: &[u8], needle: &[u8], start: usize) -> (found: Option<usize>)
    ensures
        match found {
            Some(i) => i as int == find_from(hay@, needle@, start as int),
            None => find_from(hay@, needle@, start as int) == -1,
        },
{
    if needle.len() > hay.len() {
        return None;
    }
    let last: usize = hay.len() - needle.len();
    let mut i: usize = start;
    while i <= last
        invariant
            last + needle@.len() == hay@.len(),
            start <= i,
            find_from(hay@, needle@, start as int) == find_from(hay@, needle@, i as int),
        decreases hay@.len() + 1 - i,
    {
        if matches_at(hay, needle, i) {
            return Some(i);
        }
        if i == last {
            assert(find_from(hay@, needle@, i + 1) == -1);
            return None;
        }
        i = i + 1;
    }
    None
}

/// Position of the last occurrence of `needle` at or before `start`.
pub fn rfind(hay: &[u8], needle: &[u8], start: usize) -> (found: Option<usize>)
    requires
        start + needle@.len() <= hay@.len(),
    ensures
        match found {
            Some(i) => i as int == find_back(hay@, needle@, start as int),
            None => find_back(hay@, needle@, start as int) == -1,
        },
{
    let mut i: usize = start;
    loop
        invariant
            i <= start,
            start + needle@.len() <= hay@.len(),
            find_back(hay@, needle@, start as int) == find_back(hay@, needle@, i as int),
        decreases i,
    {
        if matches_at(hay, needle, i) {
            return Some(i);
        }
        if i == 0 {
            assert(find_back(hay@, needle@, -1) == -1);
            return None;
        }
        i = i - 1;
    }
}

/// Appends `src` to `dst`.
pub fn append(dst: &mut Vec<u8>, src: &[u8])
    ensures
        final(dst)@ == old(dst)@ + src@,
{
    let mut k: usize = 0;
    while k < src.len()
        invariant
            k <= src@.len(),
            dst@ == old(dst)@ + src@.subrange(0, k as int),
        decreases src@.len() - k,
    {
        dst.push(src[k]);
        k = k + 1;
        assert(src@.subrange(0, k as int) =~= src@.subrange(0, k - 1).push(src@[k - 1]));
    }
    assert(src@.subrange(0, k as int) =~= src@);
}

/// Appends the UTF-8 bytes of `s` to `dst`.
pub fn append_str(dst: &mut Vec<u8>, s: &str)
    ensures
        final(dst)@ == old(dst)@ + lit(s),
{
    append(dst, s.as_bytes());
}

/// A copy of all of `src`.
pub fn copy_all(src: &[u8]) -> (out: Vec<u8>)
    ensures
        out@ == src@,
{
    let mut out: Vec<u8> = Vec::new();
    append(&mut out, src);
    assert(out@ =~= src@);
    out
}

/// A copy of `src[lo..hi]`.
pub fn copy_range(src: &[u8], lo: usize, hi: usize) -> (out: Vec<u8>)
    requires
        lo <= hi <= src@.len(),
    ensures
        out@ == src@.subrange(lo as int, hi as int),
{
    copy_all(slice_subrange(src, lo, hi))
}

/// Whether two byte strings are equal.
pub fn equal(a: &[u8], b: &[u8]) -> (same: bool)
    ensures
        same == (a@ == b@),
{
    if a.len() != b.len() {
        return false;
    }
    let same: bool = matches_at(a, b, 0);
    assert(a@.subrange(0, a@.len() as int) =~= a@);
    same
}

/// Sign of the lexicographic comparison of two byte strings: -1, 0 or 1.
pub open spec fn lex_order(a: Seq<u8>, b: Seq<u8>) -> int
    decreases a.len(),
{
    if a.len() == 0 && b.len() == 0 {
        0
    } else if a.len() == 0 {
        -1
    } else if b.len() == 0 {
        1
    } else if a[0] < b[0] {
        -1
    } else if a[0] > b[0] {
        1
    } else {
        lex_order(a.drop_first(), b.drop_first())
    }
}

/// Position of the first byte in which `a` and `b` differ, or the shorter length.
pub fn mismatch(a: &[u8], b: &[u8]) -> (k: usize)
    ensures
        k <= a@.len(),
        k <= b@.len(),
        forall|j: int| 0 <= j < k ==> a@[j] == b@[j],
        k < a@.len() && k < b@.len() ==> a@[k as int] != b@[k as int],
{
    let mut k: usize = 0;
    while k < a.len() && k < b.len() && a[k] == b[k]
        invariant
            k <= a@.len(),
            k <= b@.len(),
            forall|j: int| 0 <= j < k ==> a@[j] == b@[j],
        decreases a@.len() - k,
    {
        k = k + 1;
    }
    k
}

/// The order is decided at the first difference.
pub proof fn lemma_lex_order_at(a: Seq<u8>, b: Seq<u8>, k: int)
    requires
        0 <= k <= a.len(),
        k <= b.len(),
        forall|j: int| 0 <= j < k ==> a[j] == b[j],
    ensures
        lex_order(a, b) == lex_order(a.skip(k), b.skip(k)),
    decreases k,
{
    if k == 0 {
        assert(a.skip(0) =~= a);
        assert(b.skip(0) =~= b);
    } else {
        assert(a.drop_first().skip(k - 1) =~= a.skip(k));
        assert(b.drop_first().skip(k - 1) =~= b.skip(k));
        lemma_lex_order_at(a.drop_first(), b.drop_first(), k - 1);
    }
}

/// Two strings are ordered by the first place where they do not agree: one that ends there comes
/// first, and otherwise the one with the smaller byte. Strings that agree to their ends are equal.
pub proof fn law_first_difference_decides(a: Seq<u8>, b: Seq<u8>, k: int)
    requires
        0 <= k <= a.len(),
        k <= b.len(),
        forall|j: int| 0 <= j < k ==> a[j] == b[j],
    ensures
        k == a.len() && k == b.len() ==> lex_order(a, b) == 0,
        k == a.len() && k < b.len() ==> lex_order(a, b) == -1,
        k < a.len() && k == b.len() ==> lex_order(a, b) == 1,
        k < a.len() && k < b.len() && a[k] < b[k] ==> lex_order(a, b) == -1,
        k < a.len() && k < b.len() && a[k] > b[k] ==> lex_order(a, b) == 1,
{
    lemma_lex_order_at(a, b, k);
}

/// Lexicographic comparison, as -1, 0 or 1.
pub fn order(a: &[u8], b: &[u8]) -> (r: i32)
    ensures
        r as int == lex_order(a@, b@),
{
    let k: usize = mismatch(a, b);
    proof {
        lemma_lex_order_at(a@, b@, k as int);
        if k < a@.len() {
            assert(a@.skip(k as int)[0] == a@[k as int]);
        }
        if k < b@.len() {
            assert(b@.skip(k as int)[0] == b@[k as int]);
        }
    }
    if k == a.len() {
        if k == b.len() {
            0
        } else {
            -1
        }
    } else if k == b.len() {
        1
    } else if a[k] < b[k] {
        -1
    } else {
        1
    }
}

/// Comparing the other way round gives the opposite sign.
pub proof fn lemma_lex_order_antisymmetric(a: Seq<u8>, b: Seq<u8>)
    ensures
        lex_order(a, b) == -lex_order(b, a),
    decreases a.len(),
{
    if a.len() > 0 && b.len() > 0 && a[0] == b[0] {
        lemma_lex_order_antisymmetric(a.drop_first(), b.drop_first());
    }
}

/// Two byte strings compare as equal exactly when they are equal.
pub proof fn lemma_lex_order_zero(a: Seq<u8>, b: Seq<u8>)
    ensures
        lex_order(a, b) == 0 <==> a == b,
    decreases a.len(),
{
    if a.len() > 0 && b.len() > 0 && a[0] == b[0] {
        lemma_lex_order_zero(a.drop_first(), b.drop_first());
        if a.drop_first() == b.drop_first() {
            assert(a =~= seq![a[0]] + a.drop_first());
            assert(b =~= seq![b[0]] + b.drop_first());
        }
    } else if a.len() == 0 && b.len() == 0 {
        assert(a =~= b);
    }
}

/// The order is transitive.
pub proof fn lemma_lex_order_transitive(a: Seq<u8>, b: Seq<u8>, c: Seq<u8>)
    requires
        lex_order(a, b) <= 0,
        lex_order(b, c) <= 0,
    ensures
        lex_order(a, c) <= 0,
        lex_order(a, b) < 0 || lex_order(b, c) < 0 ==> lex_order(a, c) < 0,
    decreases a.len(),
{
    if a.len() > 0 && b.len() > 0 && c.len() > 0 && a[0] == b[0] && b[0] == c[0] {
        lemma_lex_order_transitive(a.drop_first(), b.drop_first(), c.drop_first());
    }
}

/// Decimal digits of a natural number.
pub open spec fn dec_nat(n: nat) -> Seq<u8>
    decreases n,
{
    if n < 10 {
        seq![(48 + n) as u8]
    } else {
        dec_nat(n / 10).push((48 + n % 10) as u8)
    }
}

/// Decimal rendering of an integer, with a leading minus sign where it is negative.
pub open spec fn dec_int(i: int) -> Seq<u8> {
    if i < 0 {
        seq![45u8] + dec_nat((-i) as nat)
    } else {
        dec_nat(i as nat)
    }
}

/// Value of a string of decimal digits.
pub open spec fn dec_value(s: Seq<u8>) -> nat
    decreases s.len(),
{
    if s.len() == 0 {
        0
    } else {
        dec_value(s.drop_last()) * 10 + (s.last() - 48) as nat
    }
}

/// `b` is an ASCII decimal digit.
pub open spec fn is_digit(b: u8) -> bool {
    48 <= b <= 57
}

/// The decimal rendering consists of digits, starts with a zero only for 0, and has the value
/// that was rendered.
pub proof fn lemma_dec_nat(n: nat)
    ensures
        dec_nat(n).len() >= 1,
        forall|i: int| 0 <= i < dec_nat(n).len() ==> is_digit(#[trigger] dec_nat(n)[i]),
        dec_value(dec_nat(n)) == n,
        n > 0 ==> dec_nat(n)[0] != 48,
    decreases n,
{
    if n < 10 {
        let s = seq![(48 + n) as u8];
        assert(s.drop_last() =~= Seq::<u8>::empty());
        assert(dec_value(s.drop_last()) == 0);
    } else {
        lemma_dec_nat(n / 10);
        let s = dec_nat(n);
        assert(s.drop_last() =~= dec_nat(n / 10));
        assert(s.last() == (48 + n % 10) as u8);
    }
}

/// A number under 10^k has at most k digits (and 0 has one).
pub proof fn lemma_dec_nat_len(n: nat, k: nat)
    requires
        k >= 1,
        n < vstd::arithmetic::power::pow(10, k),
    ensures
        dec_nat(n).len() <= k,
    decreases k,
{
    reveal(vstd::arithmetic::power::pow);
    if n >= 10 {
        assert(k >= 2) by {
            if k == 1 {
                assert(vstd::arithmetic::power::pow(10, 0) == 1);
                assert(vstd::arithmetic::power::pow(10, 1) == 10);
            }
        }
        assert(vstd::arithmetic::power::pow(10, k) == 10 * vstd::arithmetic::power::pow(10, (k - 1) as nat));
        assert(n / 10 < vstd::arithmetic::power::pow(10, (k - 1) as nat)) by (nonlinear_arith)
            requires
                n < 10 * vstd::arithmetic::power::pow(10, (k - 1) as nat),
        ;
        lemma_dec_nat_len(n / 10, (k - 1) as nat);
    }
}

/// Appends the decimal digits of `n`.
pub fn append_u64(dst: &mut Vec<u8>, n: u64)
    ensures
        final(dst)@ == old(dst)@ + dec_nat(n as nat),
    decreases n,
{
    if n >= 10 {
        append_u64(dst, n / 10);
        dst.push(48 + (n % 10) as u8);
        assert(dst@ =~= old(dst)@ + dec_nat(n as nat));
    } else {
        dst.push(48 + n as u8);
        assert(dst@ =~= old(dst)@ + dec_nat(n as nat));
    }
}

/// Appends the decimal rendering of `i`.
pub fn append_i64(dst: &mut Vec<u8>, i: i64)
    ensures
        final(dst)@ == old(dst)@ + dec_int(i as int),
{
    if i < 0 {
        dst.push(45);
        let m: u64 = if i == i64::MIN {
            0x8000_0000_0000_0000
        } else {
            (-i) as u64
        };
        append_u64(dst, m);
        assert(dst@ =~= old(dst)@ + dec_int(i as int));
    } else {
        append_u64(dst, i as u64);
    }
}

/// Decimal rendering of `i`.
pub fn decimal(i: i64) -> (out: Vec<u8>)
    ensures
        out@ == dec_int(i as int),
{
    let mut out: Vec<u8> = Vec::new();
    append_i64(&mut out, i);
    assert(out@ =~= dec_int(i as int));
    out
}

/// Lower-case hexadecimal digit.
pub open spec fn hex_digit(d: int) -> u8 {
    if d < 10 {
        (48 + d) as u8
    } else {
        (87 + d) as u8
    }
}

/// The low `width` hexadecimal digits of `n`, most significant first.
pub open spec fn hex_fixed(n: nat, width: nat) -> Seq<u8>
    decreases width,
{
    if width == 0 {
        Seq::empty()
    } else {
        hex_fixed(n / 16, (width - 1) as nat).push(hex_digit((n % 16) as int))
    }
}

/// Hexadecimal rendering without leading zeros.
pub open spec fn hex_nat(n: nat) -> Seq<u8>
    decreases n,
{
    if n < 16 {
        seq![hex_digit(n as int)]
    } else {
        hex_nat(n / 16).push(hex_digit((n % 16) as int))
    }
}

fn nibble(d: u8) -> (b: u8)
    requires
        d < 16,
    ensures
        b == hex_digit(d as int),
{
    if d < 10 {
        48 + d
    } else {
        87 + d
    }
}

/// Appends the low `width` hexadecimal digits of `n`.
pub fn append_hex_fixed(dst: &mut Vec<u8>, n: u64, width: usize)
    ensures
        final(dst)@ == old(dst)@ + hex_fixed(n as nat, width as nat),
    decreases width,
{
    if width > 0 {
        append_hex_fixed(dst, n / 16, width - 1);
        dst.push(nibble((n % 16) as u8));
    }
    assert(dst@ =~= old(dst)@ + hex_fixed(n as nat, width as nat));
}

/// Appends the hexadecimal digits of `n` without leading zeros.
pub fn append_hex(dst: &mut Vec<u8>, n: u64)
    ensures
        final(dst)@ == old(dst)@ + hex_nat(n as nat),
    decreases n,
{
    if n >= 16 {
        append_hex(dst, n / 16);
        dst.push(nibble((n % 16) as u8));
    } else {
        dst.push(nibble(n as u8));
    }
    assert(dst@ =~= old(dst)@ + hex_nat(n as nat));
}

/// The pieces of `s[start..]` between the occurrences of `sep`, found from left to right; the
/// whole of it where `sep` is empty.
pub open spec fn pieces(s: Seq<u8>, sep: Seq<u8>, start: int) -> Seq<Seq<u8>>
    decreases s.len() - start,
    when 0 <= start <= s.len()
{
    let i = find_from(s, sep, start);
    if sep.len() == 0 || i < start || i + sep.len() > s.len() {
        seq![s.subrange(start, s.len() as int)]
    } else {
        seq![s.subrange(start, i)] + pieces(s, sep, i + sep.len())
    }
}

/// The parts one after another, with `sep` between neighbours.
pub open spec fn join(parts: Seq<Seq<u8>>, sep: Seq<u8>) -> Seq<u8>
    decreases parts.len(),
{
    if parts.len() == 0 {
        Seq::empty()
    } else if parts.len() == 1 {
        parts[0]
    } else {
        join(parts.drop_last(), sep) + sep + parts.last()
    }
}

/// Joining can equally be unfolded from the left.
pub proof fn lemma_join_first(parts: Seq<Seq<u8>>, sep: Seq<u8>)
    requires
        parts.len() >= 2,
    ensures
        join(parts, sep) == parts[0] + sep + join(parts.drop_first(), sep),
    decreases parts.len(),
{
    let tail = parts.drop_first();
    if parts.len() == 2 {
        assert(parts.drop_last() =~= seq![parts[0]]);
        assert(tail =~= seq![parts[1]]);
        assert(join(parts.drop_last(), sep) == parts[0]);
        assert(join(tail, sep) == parts[1]);
    } else {
        lemma_join_first(parts.drop_last(), sep);
        assert(parts.drop_last().drop_first() =~= tail.drop_last());
        assert(tail.last() == parts.last());
        assert(join(parts, sep) =~= parts[0] + sep + (join(tail.drop_last(), sep) + sep + tail.last()));
    }
}

/// Splitting and joining with the same separator gives the string back.
pub proof fn lemma_join_pieces(s: Seq<u8>, sep: Seq<u8>, start: int)
    requires
        0 <= start <= s.len(),
    ensures
        join(pieces(s, sep, start), sep) == s.subrange(start, s.len() as int),
        pieces(s, sep, start).len() >= 1,
    decreases s.len() - start,
{
    let i = find_from(s, sep, start);
    lemma_find_from(s, sep, start);
    if sep.len() > 0 && i >= start {
        let rest = pieces(s, sep, i + sep.len());
        lemma_join_pieces(s, sep, i + sep.len());
        let all = seq![s.subrange(start, i)] + rest;
        assert(all.drop_first() =~= rest);
        lemma_join_first(all, sep);
        assert(s.subrange(start, i) + sep + s.subrange(i + sep.len(), s.len() as int) =~= s.subrange(
            start,
            s.len() as int,
        )) by {
            assert(s.subrange(i, i + sep.len()) == sep);
            assert(forall|k: int| 0 <= k < sep.len() ==> sep[k] == s.subrange(i, i + sep.len())[k]);
        }
    }
}

/// No piece holds the separator.
pub proof fn lemma_pieces_free(s: Seq<u8>, sep: Seq<u8>, start: int, n: int, j: int)
    requires
        0 <= start <= s.len(),
        sep.len() > 0,
        0 <= n < pieces(s, sep, start).len(),
    ensures
        !occurs_at(pieces(s, sep, start)[n], sep, j),
    decreases s.len() - start,
{
    let i = find_from(s, sep, start);
    lemma_find_from(s, sep, start);
    let piece = pieces(s, sep, start)[n];
    if i >= start && n > 0 {
        assert(pieces(s, sep, start)[n] == pieces(s, sep, i + sep.len())[n - 1]);
        lemma_pieces_free(s, sep, i + sep.len(), n - 1, j);
    } else if occurs_at(piece, sep, j) {
        assert(piece.subrange(j, j + sep.len()) =~= s.subrange(start + j, start + j + sep.len()));
        assert(occurs_at(s, sep, start + j));
    }
}

/// A search gives the first place at or after the start where every byte of the needle stands,
/// and it finds one whenever there is one.
pub proof fn law_first_occurrence(hay: Seq<u8>, needle: Seq<u8>, start: int, k: int)
    requires
        0 <= start,
    ensures
        ({
            let r = find_from(hay, needle, start);
            &&& r == -1 || (start <= r && r + needle.len() <= hay.len() && forall|j: int|
                0 <= j < needle.len() ==> hay[r + j] == #[trigger] needle[j])
            &&& start <= k && k + needle.len() <= hay.len() && (forall|j: int|
                0 <= j < needle.len() ==> hay[k + j] == #[trigger] needle[j]) ==> r != -1 && r <= k
        }),
{
    lemma_find_from(hay, needle, start);
    lemma_occurs_bytes(hay, needle, find_from(hay, needle, start));
    lemma_occurs_bytes(hay, needle, k);
}

/// A search from behind gives the last place at or before the start where every byte of the needle
/// stands, and it finds one whenever there is one.
pub proof fn law_last_occurrence(hay: Seq<u8>, needle: Seq<u8>, start: int, k: int)
    requires
        -1 <= start,
    ensures
        ({
            let r = find_back(hay, needle, start);
            &&& r == -1 || (0 <= r <= start && r + needle.len() <= hay.len() && forall|j: int|
                0 <= j < needle.len() ==> hay[r + j] == #[trigger] needle[j])
            &&& 0 <= k <= start && k + needle.len() <= hay.len() && (forall|j: int|
                0 <= j < needle.len() ==> hay[k + j] == #[trigger] needle[j]) ==> r >= k
        }),
{
    lemma_find_back(hay, needle, start);
    lemma_occurs_bytes(hay, needle, find_back(hay, needle, start));
    lemma_occurs_bytes(hay, needle, k);
}

proof fn lemma_occurs_bytes(hay: Seq<u8>, needle: Seq<u8>, k: int)
    ensures
        occurs_at(hay, needle, k) <==> (0 <= k && k + needle.len() <= hay.len() && forall|j: int|
            0 <= j < needle.len() ==> hay[k + j] == #[trigger] needle[j]),
{
    if 0 <= k && k + needle.len() <= hay.len() {
        let part = hay.subrange(k, k + needle.len());
        if part == needle {
            assert forall|j: int| 0 <= j < needle.len() implies hay[k + j]
                == #[trigger] needle[j] by {
                assert(part[j] == hay[k + j]);
            }
        } else if forall|j: int| 0 <= j < needle.len() ==> hay[k + j] == #[trigger] needle[j] {
            assert(part =~= needle);
        }
    }
}

/// A number is rendered by decimal digits, the first of them a zero only for 0 itself, whose value
/// by position is the number; a negative number has a minus sign before those of its opposite.
pub proof fn law_decimal(n: nat)
    ensures
        dec_int(n as int).len() >= 1,
        forall|i: int| 0 <= i < dec_int(n as int).len() ==> 48 <= #[trigger] dec_int(n as int)[i] <= 57,
        dec_int(n as int).fold_left(0int, |v: int, c: u8| 10 * v + (c - 48)) == n,
        n > 0 ==> dec_int(n as int)[0] != 48,
        n > 0 ==> dec_int(-n) == seq![45u8] + dec_int(n as int),
        dec_int(0) == seq![48u8],
{
    lemma_dec_nat(n);
    law_decimal_value(dec_nat(n));
    assert forall|i: int| 0 <= i < dec_int(n as int).len() implies 48 <= #[trigger] dec_int(
        n as int,
    )[i] <= 57 by {
        assert(is_digit(dec_nat(n)[i]));
    }
}

/// The value of a string of decimal digits goes by their position.
pub proof fn law_decimal_value(s: Seq<u8>)
    requires
        forall|i: int| 0 <= i < s.len() ==> 48 <= #[trigger] s[i] <= 57,
    ensures
        dec_value(s) == s.fold_left(0int, |v: int, c: u8| 10 * v + (c - 48)),
    decreases s.len(),
{
    if s.len() > 0 {
        assert forall|i: int| 0 <= i < s.drop_last().len() implies 48 <= #[trigger] s.drop_last()[i]
            <= 57 by {
            assert(s.drop_last()[i] == s[i]);
        }
        law_decimal_value(s.drop_last());
    }
}

/// Hexadecimal digits are 0 to 9 and a to f, as many as asked for, and their value by position is
/// the number's remainder.
pub proof fn law_hexadecimal(n: nat, width: nat)
    ensures
        hex_fixed(n, width).len() == width,
        forall|i: int|
            0 <= i < width ==> (48 <= #[trigger] hex_fixed(n, width)[i] <= 57 || 97 <= hex_fixed(
                n,
                width,
            )[i] <= 102),
        hex_fixed(n, width).fold_left(
            0int,
            |v: int, c: u8|
                16 * v + if c < 97 {
                    c - 48
                } else {
                    c - 87
                },
        ) == n as int % vstd::arithmetic::power::pow(16, width),
    decreases width,
{
    let f = |v: int, c: u8|
        16 * v + if c < 97 {
            c - 48
        } else {
            c - 87
        };
    let s = hex_fixed(n, width);
    vstd::arithmetic::power::lemma_pow0(16);
    if width == 0 {
        assert(s.fold_left(0int, f) == 0);
    } else {
        let w = (width - 1) as nat;
        law_hexadecimal(n / 16, w);
        assert(s.drop_last() =~= hex_fixed(n / 16, w));
        vstd::arithmetic::power::lemma_pow_positive(16, w);
        reveal(vstd::arithmetic::power::pow);
        let p = vstd::arithmetic::power::pow(16, w);
        assert(vstd::arithmetic::power::pow(16, width) == 16 * p);
        vstd::arithmetic::div_mod::lemma_mod_breakdown(n as int, 16, p);
        assert(s.fold_left(0int, f) == 16 * ((n as int / 16) % p) + n as int % 16);
        assert forall|i: int| 0 <= i < width implies (48 <= #[trigger] s[i] <= 57 || 97 <= s[i]
            <= 102) by {
            if i < w {
                assert(s[i] == hex_fixed(n / 16, w)[i]);
            }
        }
    }
}

/// A number without a width is rendered by as many hexadecimal digits as it needs.
pub proof fn law_hexadecimal_without_width(n: nat)
    ensures
        hex_nat(n).len() >= 1,
        hex_nat(n).len() > 1 ==> hex_nat(n)[0] != 48,
        forall|i: int|
            0 <= i < hex_nat(n).len() ==> (48 <= #[trigger] hex_nat(n)[i] <= 57 || 97 <= hex_nat(
                n,
            )[i] <= 102),
        hex_nat(n).fold_left(
            0int,
            |v: int, c: u8|
                16 * v + if c < 97 {
                    c - 48
                } else {
                    c - 87
                },
        ) == n,
    decreases n,
{
    let f = |v: int, c: u8|
        16 * v + if c < 97 {
            c - 48
        } else {
            c - 87
        };
    let s = hex_nat(n);
    if n < 16 {
        assert(s.drop_last() =~= Seq::empty());
        assert(s.drop_last().fold_left(0int, f) == 0);
        assert(s.fold_left(0int, f) == n);
    } else {
        law_hexadecimal_without_width(n / 16);
        assert(s.drop_last() =~= hex_nat(n / 16));
        assert(s.fold_left(0int, f) == n);
        assert forall|i: int| 0 <= i < s.len() implies (48 <= #[trigger] s[i] <= 57 || 97 <= s[i]
            <= 102) by {
            if i < s.len() - 1 {
                assert(s[i] == hex_nat(n / 16)[i]);
            }
        }
        assert(s[0] == hex_nat(n / 16)[0]);
        if hex_nat(n / 16).len() == 1 {
            let t = hex_nat(n / 16);
            assert(t.drop_last() =~= Seq::empty());
            assert(t.drop_last().fold_left(0int, f) == 0);
            assert(t.fold_left(0int, f) == f(0, t[0]));
        }
    }
}

/// Joined parts stand in their order with the separator between neighbours: a part that is added
/// comes behind a separator, and one part stands alone.
pub proof fn law_join(parts: Seq<Seq<u8>>, sep: Seq<u8>, more: Seq<u8>)
    ensures
        join(Seq::empty(), sep) == Seq::<u8>::empty(),
        join(seq![more], sep) == more,
        parts.len() > 0 ==> join(parts.push(more), sep) == join(parts, sep) + sep + more,
{
    assert(parts.push(more).drop_last() =~= parts);
}

/// Views of a list of byte strings.
pub open spec fn views(parts: Seq<Vec<u8>>) -> Seq<Seq<u8>> {
    parts.map_values(|v: Vec<u8>| v@)
}

/// Bytes of a list that one string was added to.
pub proof fn lemma_views_push(parts: Seq<Vec<u8>>, v: Vec<u8>)
    ensures
        views(parts.push(v)) == views(parts).push(v@),
{
    assert(views(parts.push(v)) =~= views(parts).push(v@));
}

/// Splits `s` at every occurrence of `sep`.
pub fn split(s: &[u8], sep: &[u8]) -> (parts: Vec<Vec<u8>>)
    ensures
        views(parts@) == pieces(s@, sep@, 0),
{
    let mut parts: Vec<Vec<u8>> = Vec::new();
    let mut start: usize = 0;
    let n: usize = s.len();
    loop
        invariant
            start <= n == s@.len(),
            views(parts@) + pieces(s@, sep@, start as int) == pieces(s@, sep@, 0),
        decreases n - start,
    {
        proof {
            lemma_find_from(s@, sep@, start as int);
        }
        let found: Option<usize> = if sep.len() == 0 {
            None
        } else {
            find(s, sep, start)
        };
        match found {
            Some(i) => {
                parts.push(copy_range(s, start, i));
                start = i + sep.len();
                assert(views(parts@) + pieces(s@, sep@, start as int) =~= pieces(s@, sep@, 0));
            },
            None => {
                let ghost before = parts@;
                parts.push(copy_range(s, start, n));
                assert(views(parts@) =~= views(before) + pieces(s@, sep@, start as int));
                return parts;
            },
        }
    }
}

/// Appends the UTF-8 encoding of a Unicode scalar value.
pub fn append_scalar(dst: &mut Vec<u8>, code: u32)
    requires
        vstd::utf8::is_scalar(code),
    ensures
        final(dst)@ == old(dst)@ + vstd::utf8::encode_scalar(code),
{
    if code <= 0x7F {
        dst.push((code & 0x7F) as u8);
    } else if code <= 0x7FF {
        dst.push(0xC0 | ((code >> 6) & 0x1F) as u8);
        dst.push(0x80 | (code & 0x3F) as u8);
    } else if code <= 0xFFFF {
        dst.push(0xE0 | ((code >> 12) & 0x0F) as u8);
        dst.push(0x80 | ((code >> 6) & 0x3F) as u8);
        dst.push(0x80 | (code & 0x3F) as u8);
    } else {
        dst.push(0xF0 | ((code >> 18) & 0x7) as u8);
        dst.push(0x80 | ((code >> 12) & 0x3F) as u8);
        dst.push(0x80 | ((code >> 6) & 0x3F) as u8);
        dst.push(0x80 | (code & 0x3F) as u8);
    }
    assert(dst@ =~= old(dst)@ + vstd::utf8::encode_scalar(code));
}

/// Splitting cuts at the first occurrence of the separator and goes on behind it: what stands
/// before it is the first piece.
pub proof fn law_split_at_first(before: Seq<u8>, sep: Seq<u8>, after: Seq<u8>)
    requires
        sep.len() > 0,
        forall|j: int| 0 <= j < before.len() ==> !occurs_at(before + sep + after, sep, j),
    ensures
        pieces(before + sep + after, sep, 0) == seq![before] + pieces(after, sep, 0),
{
    let s = before + sep + after;
    let n = before.len() as int;
    lemma_find_from(s, sep, 0);
    assert(s.subrange(n, n + sep.len()) =~= sep);
    assert(occurs_at(s, sep, n));
    let i = find_from(s, sep, 0);
    assert(i == n) by {
        if i < n {
            assert(occurs_at(s, sep, i));
        }
    }
    assert(s.subrange(0, n) =~= before);
    assert(s.skip(n + sep.len()) =~= after);
    lemma_pieces_shift(s, sep, n + sep.len(), n + sep.len());
    assert(after.skip(0) =~= after);
}

/// Without the separator a string is one piece.
pub proof fn law_split_without_separator(s: Seq<u8>, sep: Seq<u8>)
    requires
        sep.len() == 0 || forall|j: int| !occurs_at(s, sep, j),
    ensures
        pieces(s, sep, 0) == seq![s],
{
    lemma_find_from(s, sep, 0);
    assert(s.subrange(0, s.len() as int) =~= s);
}

proof fn lemma_find_shift(s: Seq<u8>, sep: Seq<u8>, k: int, start: int)
    requires
        0 <= k <= start,
        k <= s.len(),
    ensures
        find_from(s, sep, start) == if find_from(s.skip(k), sep, start - k) == -1 {
            -1
        } else {
            find_from(s.skip(k), sep, start - k) + k
        },
    decreases s.len() + 1 - start,
{
    let t = s.skip(k);
    lemma_find_from(t, sep, start - k);
    if start + sep.len() <= s.len() {
        assert(s.subrange(start, start + sep.len()) =~= t.subrange(
            start - k,
            start - k + sep.len(),
        ));
        if !occurs_at(s, sep, start) {
            lemma_find_shift(s, sep, k, start + 1);
        }
    }
}

proof fn lemma_pieces_shift(s: Seq<u8>, sep: Seq<u8>, k: int, start: int)
    requires
        0 <= k <= start <= s.len(),
    ensures
        pieces(s, sep, start) == pieces(s.skip(k), sep, start - k),
    decreases s.len() - start,
{
    let t = s.skip(k);
    lemma_find_shift(s, sep, k, start);
    lemma_find_from(s, sep, start);
    lemma_find_from(t, sep, start - k);
    let i = find_from(s, sep, start);
    assert(s.subrange(start, s.len() as int) =~= t.subrange(start - k, t.len() as int));
    if sep.len() > 0 && i >= start && i + sep.len() <= s.len() {
        assert(s.subrange(start, i) =~= t.subrange(start - k, i - k));
        lemma_pieces_shift(s, sep, k, i + sep.len());
    }
}

} // verus!

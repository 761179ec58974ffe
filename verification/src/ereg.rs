//! Regular expressions.
//!
//! Patterns are compiled and matched by the `regex` crate; what a pattern matches in a text is
//! named here and not described. The state of an expression is the text that it was matched
//! against last and the groups of that match, by byte offsets.

use crate::haxe_string;
use crate::haxe_string::HaxeString;
use crate::text;
use vstd::prelude::*;
use vstd::string::*;

verus! {

/// Byte offsets of the groups of a match; group 0 is the whole match.
pub type Groups = Vec<Option<(usize, usize)>>;

// ---------------------------------------------------------------------------
// The outside crate
// ---------------------------------------------------------------------------

/// Whether `regex::Regex::new` accepts a pattern.
pub uninterp spec fn pattern_ok(pattern: Seq<char>) -> bool;

/// Groups of the first match that `regex::Regex::captures` finds in a text.
pub uninterp spec fn first_groups(pattern: Seq<char>, input: Seq<char>) -> Option<
    Seq<Option<(usize, usize)>>,
>;

/// Byte offsets of the first match in a text: those of its group 0.
pub open spec fn first_match(pattern: Seq<char>, input: Seq<char>) -> Option<(usize, usize)> {
    match first_groups(pattern, input) {
        Some(g) => g[0],
        None => None,
    }
}

/// Parts that `regex::Regex::split` cuts a text into.
pub uninterp spec fn split_parts(pattern: Seq<char>, input: Seq<char>) -> Seq<Seq<char>>;

/// What `regex::Regex::replace` makes of a text.
pub uninterp spec fn replaced_first(
    pattern: Seq<char>,
    input: Seq<char>,
    by: Seq<char>,
) -> Seq<char>;

/// What `regex::Regex::replace_all` makes of a text.
pub uninterp spec fn replaced_all(
    pattern: Seq<char>,
    input: Seq<char>,
    by: Seq<char>,
) -> Seq<char>;

/// Calls `regex::Regex::new`: whether the pattern compiles.
#[verifier::external_body]
fn compiles(pattern: &str) -> (ok: bool)
    ensures
        ok == pattern_ok(pattern@),
{
    regex::Regex::new(pattern).is_ok()
}

/// Byte offsets lie in a text, in order.
pub open spec fn span_inside(span: (usize, usize), len: nat) -> bool {
    span.0 <= span.1 <= len
}

/// Calls `regex::Regex::captures`: groups of the first match. A match always has group 0, and
/// offsets lie in the text with the start not behind the end. A pattern that does not compile
/// matches nothing.
#[verifier::external_body]
fn captures(pattern: &str, input: &str) -> (groups: Option<Groups>)
    ensures
        match groups {
            Some(g) => {
                &&& first_groups(pattern@, input@) == Some(g@)
                &&& g@.len() > 0
                &&& g@[0] is Some
                &&& forall|i: int|
                    0 <= i < g@.len() && (#[trigger] g@[i]) is Some ==> span_inside(
                        g@[i]->Some_0,
                        text::lit(input).len(),
                    )
            },
            None => first_groups(pattern@, input@) is None,
        },
{
    let re = regex::Regex::new(pattern).ok()?;
    let caps = re.captures(input)?;
    Some(caps.iter().map(|m| m.map(|m| (m.start(), m.end()))).collect())
}

/// Calls `regex::Regex::find`: offsets of the first match, which is the whole match that
/// `regex::Regex::captures` gives as group 0. They lie in the text with the start not behind the
/// end. A pattern that does not compile matches nothing.
#[verifier::external_body]
fn find_first(pattern: &str, input: &str) -> (span: Option<(usize, usize)>)
    ensures
        span == first_match(pattern@, input@),
        span matches Some(s) ==> span_inside(s, text::lit(input).len()),
{
    let re = regex::Regex::new(pattern).ok()?;
    re.find(input).map(|m| (m.start(), m.end()))
}

/// Texts of a list of strings.
pub open spec fn chars_of(parts: Seq<String>) -> Seq<Seq<char>> {
    parts.map_values(|s: String| s@)
}

/// Calls `regex::Regex::split`: the parts of the text between matches. A pattern that does not
/// compile gives no part.
#[verifier::external_body]
fn split_all(pattern: &str, input: &str) -> (parts: Vec<String>)
    ensures
        chars_of(parts@) == split_parts(pattern@, input@),
{
    match regex::Regex::new(pattern) {
        Ok(re) => re.split(input).map(|p| p.to_string()).collect(),
        Err(_) => Vec::new(),
    }
}

/// Calls `regex::Regex::replace`: the text with its first match replaced. A pattern that does not
/// compile gives an empty text.
#[verifier::external_body]
fn replace_first(pattern: &str, input: &str, by: &str) -> (out: String)
    ensures
        out@ == replaced_first(pattern@, input@, by@),
{
    match regex::Regex::new(pattern) {
        Ok(re) => re.replace(input, by).into_owned(),
        Err(_) => String::new(),
    }
}

/// Calls `regex::Regex::replace_all`: the text with all its matches replaced. A pattern that does
/// not compile gives an empty text.
#[verifier::external_body]
fn replace_every(pattern: &str, input: &str, by: &str) -> (out: String)
    ensures
        out@ == replaced_all(pattern@, input@, by@),
{
    match regex::Regex::new(pattern) {
        Ok(re) => re.replace_all(input, by).into_owned(),
        Err(_) => String::new(),
    }
}

/// A character that means something in a pattern.
pub open spec fn is_meta(c: char) -> bool {
    c == '\\' || c == '.' || c == '+' || c == '*' || c == '?' || c == '(' || c == ')' || c == '|'
        || c == '[' || c == ']' || c == '{' || c == '}' || c == '^' || c == '$' || c == '#' || c
        == '&' || c == '-' || c == '~'
}

/// A text with a backslash before every character that means something in a pattern.
pub open spec fn escaped(s: Seq<char>) -> Seq<char>
    decreases s.len(),
{
    if s.len() == 0 {
        Seq::empty()
    } else if is_meta(s.last()) {
        escaped(s.drop_last()).push('\\').push(s.last())
    } else {
        escaped(s.drop_last()).push(s.last())
    }
}

/// Calls `regex::escape`: a backslash before every character that means something in a pattern.
#[verifier::external_body]
fn escape(s: &str) -> (out: String)
    ensures
        out@ == escaped(s@),
{
    regex::escape(s)
}

// ---------------------------------------------------------------------------
// Expressions
// ---------------------------------------------------------------------------

/// A regular expression and its last match.
pub struct HaxeEReg {
    /// The pattern with its flags.
    pub pattern: String,
    /// Whether the pattern compiles; one that does not never matches.
    pub valid: bool,
    pub global: bool,
    pub last_input: Option<Vec<u8>>,
    pub last_captures: Option<Groups>,
}

/// The groups lie in the text.
pub open spec fn groups_inside(groups: Seq<Option<(usize, usize)>>, len: nat) -> bool {
    &&& groups.len() > 0
    &&& groups[0] is Some
    &&& forall|i: int|
        0 <= i < groups.len() && (#[trigger] groups[i]) is Some ==> span_inside(
            groups[i]->Some_0,
            len,
        )
}

impl HaxeEReg {
    /// The groups of the last match lie in the text that was matched.
    pub open spec fn wf(&self) -> bool {
        &&& self.last_captures is Some ==> self.last_input is Some
        &&& self.last_captures matches Some(g) ==> groups_inside(
            g@,
            self.last_input->Some_0@.len(),
        )
    }

    /// Groups of the first match of this expression in a text.
    pub open spec fn groups_in(&self, input: Seq<char>) -> Option<Seq<Option<(usize, usize)>>> {
        if self.valid {
            first_groups(self.pattern@, input)
        } else {
            None
        }
    }

    /// The expression itself, without its last match.
    pub open spec fn same_expression(&self, other: &HaxeEReg) -> bool {
        &&& self.pattern@ == other.pattern@
        &&& self.valid == other.valid
        &&& self.global == other.global
    }
}

/// Flags among the options that are part of the pattern, in their order.
pub open spec fn inline_flags(opts: Seq<u8>) -> Seq<char>
    decreases opts.len(),
{
    if opts.len() == 0 {
        Seq::empty()
    } else {
        let rest = inline_flags(opts.drop_last());
        let b = opts.last();
        if b == 105 {
            rest.push('i')
        } else if b == 109 {
            rest.push('m')
        } else if b == 115 {
            rest.push('s')
        } else {
            rest
        }
    }
}

/// Prefix of a pattern for its flags.
pub open spec fn flag_prefix(opts: Seq<u8>) -> Seq<char> {
    let flags = inline_flags(opts);
    if flags.len() == 0 {
        Seq::empty()
    } else {
        seq!['(', '?'] + flags + seq![')']
    }
}

/// Whether the options ask for all matches, and the prefix of the pattern for its flags. Unknown
/// options are ignored.
pub fn parse_flags(opts: &[u8]) -> (r: (bool, String))
    ensures
        r.0 == opts@.contains(103u8),
        r.1@ == flag_prefix(opts@),
{
    let mut global: bool = false;
    let mut flags: String = String::from_str("");
    let mut some: bool = false;
    let mut i: usize = 0;
    proof {
        reveal_strlit("");
        reveal_strlit("i");
        reveal_strlit("m");
        reveal_strlit("s");
        assert(opts@.take(0) =~= Seq::empty());
        assert(flags@ =~= inline_flags(opts@.take(0)));
    }
    while i < opts.len()
        invariant
            i <= opts@.len(),
            global == opts@.take(i as int).contains(103u8),
            flags@ == inline_flags(opts@.take(i as int)),
            some == (flags@.len() > 0),
            "i"@ == seq!['i'],
            "m"@ == seq!['m'],
            "s"@ == seq!['s'],
        decreases opts@.len() - i,
    {
        let b: u8 = opts[i];
        let ghost before = flags@;
        proof {
            let now = opts@.take(i + 1);
            assert(now.drop_last() =~= opts@.take(i as int));
            assert(now.last() == b);
            assert(now =~= opts@.take(i as int).push(b));
            if b == 103 {
                assert(now[i as int] == 103u8);
            }
            if opts@.take(i as int).contains(103u8) {
                let k = opts@.take(i as int).index_of(103u8);
                assert(now[k] == 103u8);
            }
            if now.contains(103u8) && b != 103 {
                let k = now.index_of(103u8);
                assert(opts@.take(i as int)[k] == 103u8);
            }
        }
        if b == 103 {
            global = true;
        } else if b == 105 {
            flags.append("i");
            some = true;
            assert(flags@ =~= before.push('i'));
        } else if b == 109 {
            flags.append("m");
            some = true;
            assert(flags@ =~= before.push('m'));
        } else if b == 115 {
            flags.append("s");
            some = true;
            assert(flags@ =~= before.push('s'));
        }
        i = i + 1;
    }
    assert(opts@.take(i as int) =~= opts@);
    if some {
        let mut prefix: String = String::from_str("(?");
        prefix.append(flags.as_str());
        prefix.append(")");
        proof {
            reveal_strlit("(?");
            reveal_strlit(")");
            assert(prefix@ =~= flag_prefix(opts@));
        }
        (global, prefix)
    } else {
        (global, flags)
    }
}

proof fn lemma_inline_flags(opts: Seq<u8>)
    ensures
        inline_flags(opts) == opts.filter(|b: u8| b == 105 || b == 109 || b == 115).map_values(
            |b: u8| b as char,
        ),
    decreases opts.len(),
{
    reveal(Seq::filter);
    let keep = |b: u8| b == 105 || b == 109 || b == 115;
    let name = |b: u8| b as char;
    if opts.len() == 0 {
        assert(opts.filter(keep).map_values(name) =~= Seq::<char>::empty());
    } else {
        lemma_inline_flags(opts.drop_last());
        let rest = opts.drop_last().filter(keep);
        let b = opts.last();
        if keep(b) {
            assert(opts.filter(keep) == rest.push(b));
            assert(rest.push(b).map_values(name) =~= rest.map_values(name).push(b as char));
        }
    }
}

/// The flags of a pattern are the letters `i`, `m` and `s` among the options, in their order and
/// as often as they are given; without any there is no prefix.
pub proof fn law_flags_reach_the_pattern(opts: Seq<u8>)
    ensures
        ({
            let flags = opts.filter(|b: u8| b == 105 || b == 109 || b == 115);
            &&& flags.len() == 0 ==> flag_prefix(opts) == Seq::<char>::empty()
            &&& flags.len() > 0 ==> flag_prefix(opts) == seq!['(', '?'] + flags.map_values(
                |b: u8| b as char,
            ) + seq![')']
        }),
{
    lemma_inline_flags(opts);
}

/// A letter among `i`, `m` and `s` stands in the prefix of a pattern exactly where it is among the
/// options, and there is a prefix exactly where one of them is.
pub proof fn law_each_flag_counts(opts: Seq<u8>)
    ensures
        flag_prefix(opts).contains('i') <==> opts.contains(105),
        flag_prefix(opts).contains('m') <==> opts.contains(109),
        flag_prefix(opts).contains('s') <==> opts.contains(115),
        flag_prefix(opts).len() == 0 <==> !opts.contains(105) && !opts.contains(109)
            && !opts.contains(115),
    decreases opts.len(),
{
    if opts.len() > 0 {
        let head = opts.drop_last();
        law_each_flag_counts(head);
        let b = opts.last();
        assert(opts =~= head.push(b));
        assert forall|c: u8| #[trigger] opts.contains(c) <==> head.contains(c) || c == b by {
            if head.contains(c) {
                assert(opts[head.index_of(c)] == c);
            }
            if c == b {
                assert(opts[opts.len() - 1] == c);
            }
            if opts.contains(c) && c != b {
                assert(head[opts.index_of(c)] == c);
            }
        }
        lemma_flag_letters(head);
        lemma_flag_letters(opts);
    } else {
        lemma_flag_letters(opts);
    }
}

proof fn lemma_flag_letters(opts: Seq<u8>)
    ensures
        forall|c: char|
            c == 'i' || c == 'm' || c == 's' ==> (#[trigger] flag_prefix(opts).contains(c)
                <==> inline_flags(opts).contains(c)),
        flag_prefix(opts).len() == 0 <==> inline_flags(opts).len() == 0,
        opts.len() > 0 ==> forall|c: char| #[trigger]
            inline_flags(opts).contains(c) <==> inline_flags(opts.drop_last()).contains(c) || (c
                == 'i' && opts.last() == 105) || (c == 'm' && opts.last() == 109) || (c == 's'
                && opts.last() == 115),
{
    let flags = inline_flags(opts);
    let prefix = flag_prefix(opts);
    assert forall|c: char| c == 'i' || c == 'm' || c == 's' implies (#[trigger] prefix.contains(c)
        <==> flags.contains(c)) by {
        if flags.contains(c) {
            assert(prefix[flags.index_of(c) + 2] == c);
        }
        if prefix.contains(c) {
            let k = prefix.index_of(c);
            assert(prefix[k] == c);
            assert(flags[k - 2] == c);
        }
    }
    if opts.len() > 0 {
        let rest = inline_flags(opts.drop_last());
        let b = opts.last();
        assert forall|c: char| #[trigger] flags.contains(c) <==> rest.contains(c) || (c == 'i' && b
            == 105) || (c == 'm' && b == 109) || (c == 's' && b == 115) by {
            if rest.contains(c) {
                assert(flags[rest.index_of(c)] == c);
            }
            if flags.len() > rest.len() {
                assert(flags[rest.len() as int] == flags.last());
            }
            if flags.contains(c) {
                let k = flags.index_of(c);
                if k < rest.len() {
                    assert(rest[k] == c);
                }
            }
        }
    }
}

/// A string as text; the empty text for null.
pub open spec fn input_chars(s: Option<&HaxeString>) -> Seq<char> {
    vstd::utf8::decode_utf8(haxe_string::opt_view(s))
}

fn string_text(s: Option<&HaxeString>) -> (t: String)
    requires
        vstd::utf8::valid_utf8(haxe_string::opt_view(s)),
    ensures
        t@ == input_chars(s),
        vstd::utf8::encode_utf8(t@) == haxe_string::opt_view(s),
{
    let ghost bytes = haxe_string::opt_view(s);
    proof {
        vstd::utf8::decode_utf8_encode_utf8(bytes);
    }
    match s {
        Some(h) => match haxe_string::from_utf8(h.bytes()) {
            Some(t) => t,
            None => String::from_str(""),
        },
        None => {
            let t: String = String::from_str("");
            proof {
                reveal_strlit("");
                vstd::utf8::encode_utf8_decode_utf8(t@);
                assert(t@ =~= Seq::empty());
                assert(vstd::utf8::encode_utf8(Seq::<char>::empty()) =~= Seq::<u8>::empty());
                assert(bytes =~= Seq::<u8>::empty());
            }
            t
        },
    }
}

/// Compiles an expression from a pattern and options.
pub fn haxe_ereg_new(pattern: Option<&HaxeString>, opts: Option<&HaxeString>) -> (e: HaxeEReg)
    requires
        vstd::utf8::valid_utf8(haxe_string::opt_view(pattern)),
    ensures
        e.wf(),
        e.valid == pattern_ok(e.pattern@),
        e.pattern@ == flag_prefix(haxe_string::opt_view(opts)) + input_chars(pattern),
        e.global == haxe_string::opt_view(opts).contains(103u8),
        e.last_input is None,
        e.last_captures is None,
{
    let none: Vec<u8> = Vec::new();
    assert(none@ =~= Seq::empty());
    let (global, prefix): (bool, String) = match opts {
        Some(h) => parse_flags(h.bytes()),
        None => parse_flags(none.as_slice()),
    };
    let body: String = string_text(pattern);
    let mut full: String = prefix;
    full.append(body.as_str());
    let valid: bool = compiles(full.as_str());
    HaxeEReg { pattern: full, valid, global, last_input: None, last_captures: None }
}

/// Groups moved by an offset.
pub open spec fn shifted(groups: Seq<Option<(usize, usize)>>, by: int) -> Seq<
    Option<(usize, usize)>,
> {
    groups.map_values(
        |g: Option<(usize, usize)>|
            match g {
                Some(s) => Some(((s.0 + by) as usize, (s.1 + by) as usize)),
                None => None,
            },
    )
}

/// Takes note of a match: the text, and the groups of the match moved by an offset; 1 where there
/// was a match, else 0.
pub fn note_match(
    ereg: &mut HaxeEReg,
    input: Vec<u8>,
    groups: Option<Groups>,
    offset: usize,
) -> (r: i32)
    requires
        old(ereg).wf(),
        offset <= input@.len(),
        groups matches Some(g) ==> groups_inside(g@, (input@.len() - offset) as nat),
    ensures
        final(ereg).wf(),
        final(ereg).same_expression(old(ereg)),
        r == (if groups is Some {
            1i32
        } else {
            0i32
        }),
        final(ereg).last_input is Some,
        final(ereg).last_input->Some_0@ == input@,
        match groups {
            Some(g) => final(ereg).last_captures is Some && final(ereg).last_captures->Some_0@
                == shifted(g@, offset as int),
            None => final(ereg).last_captures is None,
        },
{
    match groups {
        None => {
            ereg.last_captures = None;
            ereg.last_input = Some(input);
            0
        },
        Some(g) => {
            let n: usize = input.len();
            let mut moved: Groups = Vec::new();
            let mut i: usize = 0;
            while i < g.len()
                invariant
                    i <= g@.len(),
                    offset <= n == input@.len(),
                    groups_inside(g@, (n - offset) as nat),
                    moved@ == shifted(g@, offset as int).take(i as int),
                decreases g@.len() - i,
            {
                match g[i] {
                    Some(s) => {
                        assert(span_inside(g@[i as int]->Some_0, (n - offset) as nat));
                        moved.push(Some((s.0 + offset, s.1 + offset)));
                    },
                    None => {
                        moved.push(None);
                    },
                }
                i = i + 1;
                assert(moved@ =~= shifted(g@, offset as int).take(i as int));
            }
            assert(moved@ =~= shifted(g@, offset as int));
            assert(groups_inside(moved@, n as nat)) by {
                assert(moved@[0] == Some(
                    (
                        (g@[0]->Some_0.0 + offset) as usize,
                        (g@[0]->Some_0.1 + offset) as usize,
                    ),
                ));
                assert forall|k: int| 0 <= k < moved@.len() && (#[trigger] moved@[k]) is Some implies
                    span_inside(moved@[k]->Some_0, n as nat) by {
                    assert(g@[k] is Some);
                    assert(span_inside(g@[k]->Some_0, (n - offset) as nat));
                }
            }
            ereg.last_captures = Some(moved);
            ereg.last_input = Some(input);
            1
        },
    }
}

fn groups_of(ereg: &HaxeEReg, input: &str) -> (groups: Option<Groups>)
    ensures
        match groups {
            Some(g) => ereg.groups_in(input@) == Some(g@) && groups_inside(
                g@,
                text::lit(input).len(),
            ),
            None => ereg.groups_in(input@) is None,
        },
{
    if !ereg.valid {
        return None;
    }
    captures(ereg.pattern.as_str(), input)
}

/// Matches a string; 1 where the expression matches, else 0. The match is kept.
pub fn haxe_ereg_match(ereg: Option<&mut HaxeEReg>, s: Option<&HaxeString>) -> (r: i32)
    requires
        ereg matches Some(e) ==> (*e).wf(),
        vstd::utf8::valid_utf8(haxe_string::opt_view(s)),
    ensures
        match ereg {
            None => r == 0,
            Some(e) => {
                let found = (*e).groups_in(input_chars(s));
                let now = *final(e);
                &&& now.wf()
                &&& now.same_expression(&*e)
                &&& r == (if found is Some {
                    1i32
                } else {
                    0i32
                })
                &&& now.last_input is Some
                &&& now.last_input->Some_0@ == haxe_string::opt_view(s)
                &&& match found {
                    Some(g) => now.last_captures is Some && now.last_captures->Some_0@ == g,
                    None => now.last_captures is None,
                }
            },
        },
{
    match ereg {
        None => 0,
        Some(e) => {
            let input: String = string_text(s);
            let groups: Option<Groups> = groups_of(e, input.as_str());
            let bytes: Vec<u8> = text::copy_all(input.as_str().as_bytes());
            proof {
                if groups is Some {
                    assert(shifted(groups->Some_0@, 0) =~= groups->Some_0@);
                }
            }
            note_match(e, bytes, groups, 0)
        },
    }
}

/// Where a part of a text starts: not behind its end; a negative position counts as its end.
pub open spec fn sub_start(pos: int, n: nat) -> int {
    if pos < 0 || pos > n {
        n as int
    } else {
        pos
    }
}

/// Where a part of a text ends: not behind its end; a negative length reaches to its end.
pub open spec fn sub_end(pos: int, len: int, n: nat) -> int {
    if len < 0 || sub_start(pos, n) + len > n {
        n as int
    } else {
        sub_start(pos, n) + len
    }
}

/// The part of a text that is matched.
pub open spec fn sub_bytes(bytes: Seq<u8>, pos: int, len: int) -> Seq<u8> {
    bytes.subrange(sub_start(pos, bytes.len()), sub_end(pos, len, bytes.len()))
}

/// Matches a part of a string; the offsets of the match are in the whole string.
pub fn haxe_ereg_match_sub(
    ereg: Option<&mut HaxeEReg>,
    s: Option<&HaxeString>,
    pos: i32,
    len: i32,
) -> (r: i32)
    requires
        ereg matches Some(e) ==> (*e).wf(),
        vstd::utf8::valid_utf8(sub_bytes(haxe_string::opt_view(s), pos as int, len as int)),
    ensures
        match ereg {
            None => r == 0,
            Some(e) => {
                let bytes = haxe_string::opt_view(s);
                let found = (*e).groups_in(
                    vstd::utf8::decode_utf8(sub_bytes(bytes, pos as int, len as int)),
                );
                let now = *final(e);
                &&& now.wf()
                &&& now.same_expression(&*e)
                &&& r == (if found is Some {
                    1i32
                } else {
                    0i32
                })
                &&& now.last_input is Some
                &&& now.last_input->Some_0@ == bytes
                &&& match found {
                    Some(g) => now.last_captures is Some && now.last_captures->Some_0@ == shifted(
                        g,
                        sub_start(pos as int, bytes.len()),
                    ),
                    None => now.last_captures is None,
                }
            },
        },
{
    match ereg {
        None => 0,
        Some(e) => {
            let bytes: Vec<u8> = match s {
                Some(h) => text::copy_all(h.bytes()),
                None => Vec::new(),
            };
            assert(bytes@ =~= haxe_string::opt_view(s));
            let n: usize = bytes.len();
            let start: usize = if pos < 0 || pos as usize > n {
                n
            } else {
                pos as usize
            };
            let end: usize = if len < 0 || len as usize > n - start {
                n
            } else {
                start + len as usize
            };
            let part: HaxeString = HaxeString::from_vec(
                text::copy_range(bytes.as_slice(), start, end),
            );
            assert(part@ == sub_bytes(bytes@, pos as int, len as int));
            let input: String = string_text(Some(&part));
            let groups: Option<Groups> = groups_of(e, input.as_str());
            proof {
                if groups is Some {
                    let g = groups->Some_0;
                    assert forall|i: int| 0 <= i < g@.len() && (#[trigger] g@[i]) is Some implies
                        span_inside(g@[i]->Some_0, (n - start) as nat) by {
                        assert(span_inside(g@[i]->Some_0, vstd::utf8::encode_utf8(input@).len()));
                    }
                    assert(groups_inside(g@, (n - start) as nat));
                }
            }
            note_match(e, bytes, groups, start)
        },
    }
}

// ---------------------------------------------------------------------------
// The last match
// ---------------------------------------------------------------------------

/// Offsets of a group of the last match.
pub open spec fn group_span(e: HaxeEReg, n: int) -> Option<(usize, usize)> {
    match e.last_captures {
        Some(g) => if 0 <= n < g@.len() {
            g@[n]
        } else {
            None
        },
        None => None,
    }
}

fn span_of(e: &HaxeEReg, n: i32) -> (span: Option<(usize, usize)>)
    requires
        e.wf(),
    ensures
        span == group_span(*e, n as int),
        span matches Some(s) ==> e.last_input is Some && span_inside(
            s,
            e.last_input->Some_0@.len(),
        ),
{
    match &e.last_captures {
        Some(g) => if n >= 0 && (n as usize) < g.len() {
            g[n as usize]
        } else {
            None
        },
        None => None,
    }
}

/// A group of the last match; none where there is none.
pub fn haxe_ereg_matched(ereg: Option<&HaxeEReg>, n: i32) -> (s: Option<HaxeString>)
    requires
        ereg matches Some(e) ==> e.wf(),
    ensures
        match ereg {
            None => s is None,
            Some(e) => match group_span(*e, n as int) {
                Some(span) => s is Some && s->Some_0.buffered(
                    e.last_input->Some_0@.subrange(span.0 as int, span.1 as int),
                ),
                None => s is None,
            },
        },
{
    match ereg {
        None => None,
        Some(e) => match (span_of(e, n), &e.last_input) {
            (Some(span), Some(input)) => {
                let part: Vec<u8> = text::copy_range(input.as_slice(), span.0, span.1);
                Some(haxe_string::haxe_string_from_bytes(Some(part.as_slice())))
            },
            _ => None,
        },
    }
}

/// What stood before the last match; empty where there was none.
pub fn haxe_ereg_matched_left(ereg: Option<&HaxeEReg>) -> (s: HaxeString)
    requires
        ereg matches Some(e) ==> e.wf(),
    ensures
        s.buffered(
            match ereg {
                Some(e) => match group_span(*e, 0) {
                    Some(span) => e.last_input->Some_0@.subrange(0, span.0 as int),
                    None => Seq::empty(),
                },
                None => Seq::empty(),
            },
        ),
{
    let mut part: Vec<u8> = Vec::new();
    assert(part@ =~= Seq::empty());
    match ereg {
        None => {},
        Some(e) => match (span_of(e, 0), &e.last_input) {
            (Some(span), Some(input)) => {
                part = text::copy_range(input.as_slice(), 0, span.0);
            },
            _ => {},
        },
    }
    haxe_string::haxe_string_from_bytes(Some(part.as_slice()))
}

/// What stood behind the last match; empty where there was none.
pub fn haxe_ereg_matched_right(ereg: Option<&HaxeEReg>) -> (s: HaxeString)
    requires
        ereg matches Some(e) ==> e.wf(),
    ensures
        s.buffered(
            match ereg {
                Some(e) => match group_span(*e, 0) {
                    Some(span) => e.last_input->Some_0@.subrange(
                        span.1 as int,
                        e.last_input->Some_0@.len() as int,
                    ),
                    None => Seq::empty(),
                },
                None => Seq::empty(),
            },
        ),
{
    let mut part: Vec<u8> = Vec::new();
    assert(part@ =~= Seq::empty());
    match ereg {
        None => {},
        Some(e) => match (span_of(e, 0), &e.last_input) {
            (Some(span), Some(input)) => {
                part = text::copy_range(input.as_slice(), span.1, input.len());
            },
            _ => {},
        },
    }
    haxe_string::haxe_string_from_bytes(Some(part.as_slice()))
}

/// What stood before a match, the match and what stood behind it make up the text.
pub proof fn law_match_recombines(e: HaxeEReg)
    requires
        e.wf(),
        e.last_captures is Some,
    ensures
        group_span(e, 0) is Some,
        ({
            let input = e.last_input->Some_0@;
            let span = group_span(e, 0)->Some_0;
            input.subrange(0, span.0 as int) + input.subrange(span.0 as int, span.1 as int)
                + input.subrange(span.1 as int, input.len() as int) == input
        }),
{
    let input = e.last_input->Some_0@;
    let g = e.last_captures->Some_0@;
    assert(g[0] is Some);
    let span = group_span(e, 0)->Some_0;
    assert(input.subrange(0, span.0 as int) + input.subrange(span.0 as int, span.1 as int)
        + input.subrange(span.1 as int, input.len() as int) =~= input);
}

/// Position and length of the last match as 32-bit integers; -1 and 0 where there was none.
pub fn haxe_ereg_matched_pos(ereg: &HaxeEReg) -> (p: (i32, i32))
    requires
        ereg.wf(),
    ensures
        match group_span(*ereg, 0) {
            Some(span) => p.0 == span.0 as i32 && p.1 == (span.1 - span.0) as i32,
            None => p.0 == -1 && p.1 == 0,
        },
{
    match span_of(ereg, 0) {
        Some(span) => {
            let len: usize = span.1 - span.0;
            let pos: i32 = #[verifier::truncate]
            (span.0 as i32);
            let count: i32 = #[verifier::truncate]
            (len as i32);
            (pos, count)
        },
        None => (-1, 0),
    }
}

// ---------------------------------------------------------------------------
// Splitting and replacing
// ---------------------------------------------------------------------------

/// A text cut at one place.
pub open spec fn cut_at(bytes: Seq<u8>, span: Option<(usize, usize)>) -> Seq<Seq<u8>> {
    match span {
        Some(s) => seq![
            bytes.subrange(0, s.0 as int),
            bytes.subrange(s.1 as int, bytes.len() as int),
        ],
        None => seq![bytes],
    }
}

/// Cuts a text at one place; the whole text where there is none.
pub fn split_at(bytes: &[u8], span: Option<(usize, usize)>) -> (parts: Vec<HaxeString>)
    requires
        span matches Some(s) ==> span_inside(s, bytes@.len()),
    ensures
        haxe_string::all_views(parts@) == cut_at(bytes@, span),
        haxe_string::all_buffered(parts@),
{
    let mut parts: Vec<HaxeString> = Vec::new();
    match span {
        Some(s) => {
            let left: Vec<u8> = text::copy_range(bytes, 0, s.0);
            let right: Vec<u8> = text::copy_range(bytes, s.1, bytes.len());
            parts.push(haxe_string::haxe_string_from_bytes(Some(left.as_slice())));
            parts.push(haxe_string::haxe_string_from_bytes(Some(right.as_slice())));
        },
        None => {
            parts.push(haxe_string::haxe_string_from_bytes(Some(bytes)));
        },
    }
    assert(haxe_string::all_views(parts@) =~= cut_at(bytes@, span));
    parts
}

/// Cuts a string at its matches: at all of them where the expression is global, else at the
/// first. No parts for a null expression or string.
pub fn haxe_ereg_split(ereg: Option<&HaxeEReg>, s: Option<&HaxeString>) -> (parts: Vec<HaxeString>)
    requires
        ereg matches Some(e) ==> e.wf(),
        vstd::utf8::valid_utf8(haxe_string::opt_view(s)),
    ensures
        haxe_string::all_views(parts@) == (match (ereg, s) {
            (Some(e), Some(h)) => if !e.valid {
                seq![h@]
            } else if e.global {
                split_parts(e.pattern@, input_chars(s)).map_values(
                    |p: Seq<char>| vstd::utf8::encode_utf8(p),
                )
            } else {
                cut_at(h@, first_match(e.pattern@, input_chars(s)))
            },
            _ => Seq::empty(),
        }),
        haxe_string::all_buffered(parts@),
{
    match (ereg, s) {
        (Some(e), Some(h)) => {
            let input: String = string_text(s);
            if !e.valid {
                return split_at(h.bytes(), None);
            }
            if !e.global {
                return split_at(h.bytes(), find_first(e.pattern.as_str(), input.as_str()));
            }
            let found: Vec<String> = split_all(e.pattern.as_str(), input.as_str());
            strings_of(&found)
        },
        _ => {
            let parts: Vec<HaxeString> = Vec::new();
            assert(haxe_string::all_views(parts@) =~= Seq::empty());
            parts
        },
    }
}

/// Strings that hold texts.
pub fn strings_of(texts: &Vec<String>) -> (parts: Vec<HaxeString>)
    ensures
        haxe_string::all_views(parts@) == chars_of(texts@).map_values(
            |p: Seq<char>| vstd::utf8::encode_utf8(p),
        ),
        haxe_string::all_buffered(parts@),
{
    let ghost want = chars_of(texts@).map_values(|p: Seq<char>| vstd::utf8::encode_utf8(p));
    let mut parts: Vec<HaxeString> = Vec::new();
    let mut i: usize = 0;
    while i < texts.len()
        invariant
            i <= texts@.len(),
            want == chars_of(texts@).map_values(|p: Seq<char>| vstd::utf8::encode_utf8(p)),
            parts@.len() == i,
            forall|j: int| 0 <= j < i ==> (#[trigger] parts@[j])@ == want[j],
            haxe_string::all_buffered(parts@),
        decreases texts@.len() - i,
    {
        parts.push(haxe_string::haxe_string_from_bytes(Some(texts[i].as_str().as_bytes())));
        i = i + 1;
    }
    assert(haxe_string::all_views(parts@) =~= want);
    parts
}

/// A replacement text for the `regex` crate: `$1` to `$9` stand for groups whatever follows them.
/// `$$` and every other use of a dollar is left as the crate reads it.
pub open spec fn translated(by: Seq<char>) -> Seq<char>
    decreases by.len(),
{
    if by.len() == 0 {
        Seq::empty()
    } else if by[0] != '$' {
        seq![by[0]] + translated(by.skip(1))
    } else if by.len() > 1 && '1' <= by[1] <= '9' {
        seq!['$', '{', by[1], '}'] + translated(by.skip(2))
    } else if by.len() > 1 && by[1] == '$' {
        seq!['$', '$'] + translated(by.skip(2))
    } else {
        seq!['$'] + translated(by.skip(1))
    }
}

/// Writes a replacement text for the `regex` crate.
pub fn backreferences(by: &str) -> (t: String)
    ensures
        t@ == translated(by@),
{
    let n: usize = by.unicode_len();
    let mut t: String = String::from_str("");
    let mut i: usize = 0;
    proof {
        reveal_strlit("");
        reveal_strlit("$$");
        reveal_strlit("${");
        reveal_strlit("}");
        assert(t@ =~= Seq::empty());
        assert(by@.skip(0) =~= by@);
        assert(t@ + translated(by@.skip(0)) =~= translated(by@));
    }
    while i < n
        invariant
            n == by@.len(),
            i <= n,
            t@ + translated(by@.skip(i as int)) == translated(by@),
        decreases n - i,
    {
        let ghost rest = by@.skip(i as int);
        let ghost before = t@;
        let c: char = by.get_char(i);
        let next: char = if i + 1 < n {
            by.get_char(i + 1)
        } else {
            ' '
        };
        assert(rest.skip(1) =~= by@.skip(i + 1));
        if c != '$' {
            t.append(by.substring_char(i, i + 1));
            i = i + 1;
            assert(t@ =~= before + seq![c]);
        } else if next >= '1' && next <= '9' {
            t.append("${");
            t.append(by.substring_char(i + 1, i + 2));
            t.append("}");
            assert(rest.skip(2) =~= by@.skip(i + 2));
            i = i + 2;
            assert(t@ =~= before + seq!['$', '{', next, '}']) by {
                reveal_strlit("${");
                reveal_strlit("}");
            }
        } else if next == '$' {
            t.append("$$");
            assert(t@ =~= before + seq!['$', '$']) by {
                reveal_strlit("$$");
            }
            assert(rest.skip(2) =~= by@.skip(i + 2));
            i = i + 2;
        } else {
            t.append("$");
            assert(t@ =~= before + seq!['$']) by {
                reveal_strlit("$");
            }
            i = i + 1;
        }
        assert(t@ + translated(by@.skip(i as int)) =~= before + translated(rest));
    }
    proof {
        assert(by@.skip(n as int) =~= Seq::empty());
        assert(t@ + translated(by@.skip(n as int)) =~= t@);
    }
    t
}

/// Replaces matches: all of them where the expression is global, else the first. In the
/// replacement `$1` to `$9` stand for groups of the match and `$$` for a dollar; other uses of a
/// dollar (`$0`, `${name}`) mean what the `regex` crate gives them. Empty for a null expression or
/// string.
pub fn haxe_ereg_replace(
    ereg: Option<&HaxeEReg>,
    s: Option<&HaxeString>,
    by: Option<&HaxeString>,
) -> (r: HaxeString)
    requires
        ereg matches Some(e) ==> e.wf(),
        vstd::utf8::valid_utf8(haxe_string::opt_view(s)),
        vstd::utf8::valid_utf8(haxe_string::opt_view(by)),
    ensures
        r.buffered(
            match (ereg, s) {
                (Some(e), Some(h)) => if !e.valid {
                    h@
                } else if e.global {
                    vstd::utf8::encode_utf8(
                        replaced_all(e.pattern@, input_chars(s), translated(input_chars(by))),
                    )
                } else {
                    vstd::utf8::encode_utf8(
                        replaced_first(e.pattern@, input_chars(s), translated(input_chars(by))),
                    )
                },
                _ => Seq::empty(),
            },
        ),
{
    match (ereg, s) {
        (Some(e), Some(h)) => {
            if !e.valid {
                return haxe_string::haxe_string_from_bytes(Some(h.bytes()));
            }
            let input: String = string_text(s);
            let given: String = string_text(by);
            let with: String = backreferences(given.as_str());
            let out: String = if e.global {
                replace_every(e.pattern.as_str(), input.as_str(), with.as_str())
            } else {
                replace_first(e.pattern.as_str(), input.as_str(), with.as_str())
            };
            haxe_string::haxe_string_from_bytes(Some(out.as_str().as_bytes()))
        },
        _ => haxe_string::haxe_string_new(),
    }
}

/// A string with a backslash before every character that means something in a pattern; empty for
/// null.
pub fn haxe_ereg_escape(s: Option<&HaxeString>) -> (r: HaxeString)
    requires
        vstd::utf8::valid_utf8(haxe_string::opt_view(s)),
    ensures
        r.buffered(
            match s {
                Some(_) => vstd::utf8::encode_utf8(escaped(input_chars(s))),
                None => Seq::empty(),
            },
        ),
{
    match s {
        None => haxe_string::haxe_string_new(),
        Some(_) => {
            let input: String = string_text(s);
            let out: String = escape(input.as_str());
            haxe_string::haxe_string_from_bytes(Some(out.as_str().as_bytes()))
        },
    }
}

/// Escaping goes character by character: each of the characters that mean something in a pattern
/// has a backslash put before it, and every other one stands for itself.
pub proof fn law_escaping(s: Seq<char>, c: char)
    ensures
        escaped(s.push(c)) == escaped(s) + if seq![
            '\\',
            '.',
            '+',
            '*',
            '?',
            '(',
            ')',
            '|',
            '[',
            ']',
            '{',
            '}',
            '^',
            '$',
            '#',
            '&',
            '-',
            '~',
        ].contains(c) {
            seq!['\\', c]
        } else {
            seq![c]
        },
        escaped(Seq::empty()) == Seq::<char>::empty(),
{
    let metas = seq![
        '\\',
        '.',
        '+',
        '*',
        '?',
        '(',
        ')',
        '|',
        '[',
        ']',
        '{',
        '}',
        '^',
        '$',
        '#',
        '&',
        '-',
        '~',
    ];
    assert(s.push(c).drop_last() =~= s);
    assert(is_meta(c) <==> metas.contains(c)) by {
        if is_meta(c) {
            assert(metas[0] == '\\' && metas[1] == '.' && metas[2] == '+' && metas[3] == '*'
                && metas[4] == '?' && metas[5] == '(' && metas[6] == ')' && metas[7] == '|'
                && metas[8] == '[' && metas[9] == ']' && metas[10] == '{' && metas[11] == '}'
                && metas[12] == '^' && metas[13] == '$' && metas[14] == '#' && metas[15] == '&'
                && metas[16] == '-' && metas[17] == '~');
        }
    }
    assert(escaped(s.push(c)) =~= escaped(s) + if metas.contains(c) {
        seq!['\\', c]
    } else {
        seq![c]
    });
}

/// The part of a text that is matched starts at its position and has its length, both as far as
/// there is text; a negative length reaches to the end, and a negative position is the end.
pub proof fn law_part_that_is_matched(bytes: Seq<u8>, pos: int, len: int, i: int)
    ensures
        0 <= pos <= bytes.len() && len >= 0 ==> sub_bytes(bytes, pos, len).len() == vstd::math::min(
            len,
            bytes.len() - pos,
        ),
        0 <= pos <= bytes.len() && len < 0 ==> sub_bytes(bytes, pos, len).len() == bytes.len() - pos,
        0 <= pos && 0 <= i < sub_bytes(bytes, pos, len).len() ==> sub_bytes(bytes, pos, len)[i]
            == bytes[pos + i],
        pos < 0 || pos > bytes.len() ==> sub_bytes(bytes, pos, len).len() == 0,
{
}

/// Offsets of a match in a part of a text are those in the text once the start of the part is added.
pub proof fn law_groups_are_moved(groups: Seq<Option<(usize, usize)>>, by: int, i: int)
    requires
        0 <= i < groups.len(),
        0 <= by,
        groups[i] matches Some(s) ==> s.0 + by <= usize::MAX && s.1 + by <= usize::MAX,
    ensures
        shifted(groups, by).len() == groups.len(),
        groups[i] is None ==> shifted(groups, by)[i] is None,
        groups[i] matches Some(s) ==> shifted(groups, by)[i] is Some && shifted(
            groups,
            by,
        )[i]->Some_0.0 == s.0 + by && shifted(groups, by)[i]->Some_0.1 == s.1 + by,
{
}

/// A text that is cut at a match has what stands before it and what stands behind it; without a
/// match it is whole.
pub proof fn law_cut_leaves_out_the_match(before: Seq<u8>, found: Seq<u8>, after: Seq<u8>)
    requires
        before.len() + found.len() <= usize::MAX,
    ensures
        cut_at(
            before + found + after,
            Some((before.len() as usize, (before.len() + found.len()) as usize)),
        ) == seq![before, after],
        cut_at(before, None) == seq![before],
{
    let s = before + found + after;
    assert(s.subrange(0, before.len() as int) =~= before);
    assert(s.subrange((before.len() + found.len()) as int, s.len() as int) =~= after);
}

/// In a replacement, a dollar and a digit other than 0 stand for a group whatever follows, two
/// dollars stay as they are, and a text without dollars is left alone.
pub proof fn law_replacements(plain: Seq<char>, digit: char, rest: Seq<char>)
    requires
        forall|i: int| 0 <= i < plain.len() ==> plain[i] != '$',
    ensures
        translated(plain + rest) == plain + translated(rest),
        '1' <= digit <= '9' ==> translated(seq!['$', digit] + rest) == seq!['$', '{', digit, '}']
            + translated(rest),
        translated(seq!['$', '$'] + rest) == seq!['$', '$'] + translated(rest),
        translated(Seq::empty()) == Seq::<char>::empty(),
    decreases plain.len(),
{
    assert((seq!['$', digit] + rest).skip(2) =~= rest);
    assert((seq!['$', '$'] + rest).skip(2) =~= rest);
    if plain.len() > 0 {
        let more = plain.skip(1);
        assert forall|i: int| 0 <= i < more.len() implies more[i] != '$' by {
            assert(more[i] == plain[i + 1]);
        }
        law_replacements(more, digit, rest);
        assert((plain + rest).skip(1) =~= more + rest);
        assert((plain + rest)[0] == plain[0]);
        assert(seq![plain[0]] + (more + translated(rest)) =~= plain + translated(rest));
    } else {
        assert(plain + rest =~= rest);
        assert(plain + translated(rest) =~= translated(rest));
    }
}

} // verus!

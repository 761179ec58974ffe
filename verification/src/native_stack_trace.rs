//! Stack traces in terms of source code.
//!
//! Compiled functions are registered with the place in the source that they come from. A trace is
//! made either from instruction addresses, or from the shadow stack that instrumented code keeps.

use crate::anon_object;
use crate::haxe_array;
use crate::haxe_array::HaxeArray;
use crate::haxe_string::HaxeString;
use crate::text;
use std::collections::HashMap;
use vstd::prelude::*;

verus! {

broadcast use vstd::std_specs::hash::group_hash_axioms;

/// Source of a compiled function.
pub struct FunctionSourceInfo {
    /// Address of its code.
    pub code_start: usize,
    pub qualified_name: Vec<u8>,
    pub source_file: Vec<u8>,
    /// Line in the source, from 1; 0 where it is not known.
    pub line: u32,
    /// Column in the source, from 1; 0 where it is not known.
    pub column: u32,
    /// The line itself; empty where it is not known.
    pub source_snippet: Vec<u8>,
}

/// Registered functions, and which of them a function number stands for.
pub struct FunctionRegistry {
    pub entries: Vec<FunctionSourceInfo>,
    pub ids: HashMap<u32, u32>,
}

/// Whether traces are captured, and the calls that are under way.
pub struct StackTraces {
    pub enabled: bool,
    pub shadow: Vec<u32>,
}

/// Lines of a source file.
pub struct SourceFile {
    pub path: Vec<u8>,
    pub lines: Vec<Vec<u8>>,
}

/// Source files that were read.
pub struct SourceCache {
    pub files: Vec<SourceFile>,
}

// ---------------------------------------------------------------------------
// The switch
// ---------------------------------------------------------------------------

impl StackTraces {
    /// Traces are off and no call is under way.
    pub fn new() -> (t: StackTraces)
        ensures
            !t.enabled,
            t.shadow@.len() == 0,
    {
        StackTraces { enabled: false, shadow: Vec::new() }
    }
}

/// Switches traces on or off.
pub fn rayzor_set_stack_traces_enabled(traces: &mut StackTraces, enabled: i32)
    ensures
        final(traces).enabled == (enabled != 0),
        final(traces).shadow@ == old(traces).shadow@,
{
    traces.enabled = enabled != 0;
}

/// Whether traces are captured.
pub fn is_enabled(traces: &StackTraces) -> (r: bool)
    ensures
        r == traces.enabled,
{
    traces.enabled
}

// ---------------------------------------------------------------------------
// Source lines
// ---------------------------------------------------------------------------

/// A line without the carriage return of its line ending.
pub open spec fn without_cr(s: Seq<u8>) -> Seq<u8> {
    if s.len() > 0 && s.last() == 13 {
        s.drop_last()
    } else {
        s
    }
}

/// Lines from parts between newlines: each but the last is ended by a newline or by a carriage
/// return and a newline; an empty last part is no line.
pub open spec fn lines_of_parts(parts: Seq<Seq<u8>>) -> Seq<Seq<u8>> {
    let ended = parts.drop_last().map_values(|p: Seq<u8>| without_cr(p));
    if parts.last().len() == 0 {
        ended
    } else {
        ended.push(parts.last())
    }
}

/// Lines of a text.
pub open spec fn lines_of(content: Seq<u8>) -> Seq<Seq<u8>> {
    lines_of_parts(text::pieces(content, seq![10u8], 0))
}

/// Line `line`, from 1, of a text; empty where there is none.
pub open spec fn line_at(lines: Seq<Seq<u8>>, line: int) -> Seq<u8> {
    let i = if line > 0 {
        line - 1
    } else {
        0
    };
    if i < lines.len() {
        lines[i]
    } else {
        Seq::empty()
    }
}

fn split_lines(content: &[u8]) -> (lines: Vec<Vec<u8>>)
    ensures
        text::views(lines@) == lines_of(content@),
{
    let newline: Vec<u8> = vec![10];
    assert(newline@ =~= seq![10u8]);
    let parts: Vec<Vec<u8>> = text::split(content, newline.as_slice());
    let ghost all = text::pieces(content@, seq![10u8], 0);
    proof {
        text::lemma_join_pieces(content@, seq![10u8], 0);
        assert(all.len() == parts@.len());
    }
    let n: usize = parts.len();
    let mut lines: Vec<Vec<u8>> = Vec::new();
    let mut i: usize = 0;
    let ghost ended = all.drop_last().map_values(|p: Seq<u8>| without_cr(p));
    while i < n - 1
        invariant
            n == parts@.len(),
            n >= 1,
            i <= n - 1,
            all == text::views(parts@),
            ended == all.drop_last().map_values(|p: Seq<u8>| without_cr(p)),
            text::views(lines@) == ended.take(i as int),
        decreases n - i,
    {
        let part: &Vec<u8> = &parts[i];
        let len: usize = part.len();
        let line: Vec<u8> = if len > 0 && part[len - 1] == 13 {
            text::copy_range(part.as_slice(), 0, len - 1)
        } else {
            text::copy_all(part.as_slice())
        };
        assert(line@ =~= without_cr(part@));
        assert(all[i as int] == part@);
        assert(ended[i as int] == line@);
        proof {
            text::lemma_views_push(lines@, line);
            assert(ended.take(i + 1) =~= ended.take(i as int).push(line@));
        }
        lines.push(line);
        i = i + 1;
    }
    assert(ended.take(i as int) =~= ended);
    assert(all.last() == parts@[n - 1]@);
    if parts[n - 1].len() > 0 {
        let last: Vec<u8> = text::copy_all(parts[n - 1].as_slice());
        lines.push(last);
        assert(text::views(lines@) =~= ended.push(all.last()));
    }
    lines
}

/// The cache's lines for a path: those of the file that was read last.
pub open spec fn cached(files: Seq<SourceFile>, path: Seq<u8>) -> Option<Seq<Seq<u8>>>
    decreases files.len(),
{
    if files.len() == 0 {
        None
    } else if files.last().path@ == path {
        Some(text::views(files.last().lines@))
    } else {
        cached(files.drop_last(), path)
    }
}

/// What stands for a file that is not known.
pub open spec fn unknown() -> Seq<u8> {
    text::lit("<unknown>")
}

impl SourceCache {
    /// Nothing was read yet.
    pub fn new() -> (c: SourceCache)
        ensures
            c.files@.len() == 0,
    {
        SourceCache { files: Vec::new() }
    }

    fn find(&self, path: &[u8]) -> (i: Option<usize>)
        ensures
            match i {
                Some(i) => {
                    &&& i < self.files@.len()
                    &&& cached(self.files@, path@) == Some(
                        text::views(self.files@[i as int].lines@),
                    )
                },
                None => cached(self.files@, path@) is None,
            },
    {
        let mut i: usize = self.files.len();
        assert(self.files@.take(i as int) =~= self.files@);
        while i > 0
            invariant
                i <= self.files@.len(),
                cached(self.files@, path@) == cached(self.files@.take(i as int), path@),
            decreases i,
        {
            assert(self.files@.take(i as int).drop_last() =~= self.files@.take(i - 1));
            assert(self.files@.take(i as int).last() == self.files@[i - 1]);
            if text::equal(self.files[i - 1].path.as_slice(), path) {
                return Some(i - 1);
            }
            i = i - 1;
        }
        None
    }

    /// Whether the file has to be read to know a line of it.
    pub fn needs_file(&self, path: &[u8], line: u32) -> (r: bool)
        ensures
            r == (path@ != unknown() && line != 0 && cached(self.files@, path@) is None),
    {
        if text::equal(path, "<unknown>".as_bytes()) || line == 0 {
            return false;
        }
        match self.find(path) {
            Some(_) => false,
            None => true,
        }
    }
}

/// Line `line` of the file at `path`. A file that is not in the cache is taken from `content`,
/// which is what reading it gave, and is kept; where it could not be read the line is empty.
pub fn fetch_source_line(
    cache: &mut SourceCache,
    path: &[u8],
    line: u32,
    content: Option<&[u8]>,
) -> (out: Vec<u8>)
    ensures
        ({
            let known = cached(old(cache).files@, path@);
            if path@ == unknown() || line == 0 {
                out@ == Seq::<u8>::empty() && final(cache).files@ == old(cache).files@
            } else {
                match (known, content) {
                    (Some(lines), _) => {
                        &&& out@ == line_at(lines, line as int)
                        &&& final(cache).files@ == old(cache).files@
                    },
                    (None, Some(c)) => {
                        &&& out@ == line_at(lines_of(c@), line as int)
                        &&& cached(final(cache).files@, path@) == Some(lines_of(c@))
                        &&& forall|p: Seq<u8>|
                            p != path@ ==> #[trigger] cached(final(cache).files@, p) == cached(
                                old(cache).files@,
                                p,
                            )
                    },
                    (None, None) => {
                        &&& out@ == Seq::<u8>::empty()
                        &&& final(cache).files@ == old(cache).files@
                    },
                }
            }
        }),
{
    let unknown_path: &str = "<unknown>";
    if text::equal(path, unknown_path.as_bytes()) || line == 0 {
        return Vec::new();
    }
    match cache.find(path) {
        Some(i) => pick_line(&cache.files[i].lines, line),
        None => match content {
            None => Vec::new(),
            Some(c) => {
                let lines: Vec<Vec<u8>> = split_lines(c);
                let out: Vec<u8> = pick_line(&lines, line);
                let ghost before = cache.files@;
                cache.files.push(SourceFile { path: text::copy_all(path), lines });
                assert(cache.files@.drop_last() =~= before);
                out
            },
        },
    }
}

fn pick_line(lines: &Vec<Vec<u8>>, line: u32) -> (out: Vec<u8>)
    ensures
        out@ == line_at(text::views(lines@), line as int),
{
    let i: usize = if line > 0 {
        (line - 1) as usize
    } else {
        0
    };
    if i < lines.len() {
        text::copy_all(lines[i].as_slice())
    } else {
        let out: Vec<u8> = Vec::new();
        assert(out@ =~= Seq::empty());
        out
    }
}

// ---------------------------------------------------------------------------
// Registered functions
// ---------------------------------------------------------------------------

/// Name or path that was given, as text; a null or empty one is unknown.
pub open spec fn given_or_unknown(s: Option<Seq<u8>>) -> Seq<u8> {
    match s {
        Some(b) => if b.len() == 0 {
            unknown()
        } else {
            anon_object::lossy_bytes(b)
        },
        None => unknown(),
    }
}

fn known_text(s: Option<&[u8]>) -> (out: Vec<u8>)
    ensures
        out@ == given_or_unknown(
            match s {
                Some(b) => Some(b@),
                None => None,
            },
        ),
{
    match s {
        Some(b) => if b.len() == 0 {
            text::copy_all("<unknown>".as_bytes())
        } else {
            anon_object::utf8_lossy(b)
        },
        None => text::copy_all("<unknown>".as_bytes()),
    }
}

impl FunctionRegistry {
    /// Nothing is registered.
    pub fn new() -> (r: FunctionRegistry)
        ensures
            r.entries@.len() == 0,
            r.ids@ == Map::<u32, u32>::empty(),
    {
        FunctionRegistry { entries: Vec::new(), ids: HashMap::new() }
    }
}

/// Registers where a compiled function comes from; `source_snippet` is its line of the source.
/// A function number that was registered before stands for the new entry.
pub fn rayzor_register_function_source(
    registry: &mut FunctionRegistry,
    func_id: u32,
    code_start: usize,
    qualified_name: Option<&[u8]>,
    source_file: Option<&[u8]>,
    line: u32,
    column: u32,
    source_snippet: Vec<u8>,
)
    ensures
        final(registry).entries@.len() == old(registry).entries@.len() + 1,
        final(registry).entries@.drop_last() == old(registry).entries@,
        ({
            let e = final(registry).entries@.last();
            &&& e.code_start == code_start
            &&& e.qualified_name@ == given_or_unknown(
                match qualified_name {
                    Some(b) => Some(b@),
                    None => None,
                },
            )
            &&& e.source_file@ == given_or_unknown(
                match source_file {
                    Some(b) => Some(b@),
                    None => None,
                },
            )
            &&& e.line == line
            &&& e.column == column
            &&& e.source_snippet@ == source_snippet@
        }),
        final(registry).ids@ == old(registry).ids@.insert(
            func_id,
            old(registry).entries@.len() as u32,
        ),
{
    let ghost before = registry.entries@;
    let n: usize = registry.entries.len();
    let index: u32 = #[verifier::truncate]
    (n as u32);
    registry.entries.push(
        FunctionSourceInfo {
            code_start,
            qualified_name: known_text(qualified_name),
            source_file: known_text(source_file),
            line,
            column,
            source_snippet,
        },
    );
    assert(registry.entries@.drop_last() =~= before);
    registry.ids.insert(func_id, index);
}

/// Among the first `n` entries, the one with the largest code address that is not above `ip`, the
/// last one of several; -1 where there is none.
pub open spec fn nearest(entries: Seq<FunctionSourceInfo>, ip: usize, n: int) -> int
    decreases n,
{
    if n <= 0 {
        -1
    } else {
        let r = nearest(entries, ip, n - 1);
        let start = entries[n - 1].code_start;
        if start <= ip && (r < 0 || start >= entries[r].code_start) {
            n - 1
        } else {
            r
        }
    }
}

/// The function that is looked up for an address starts at or before it, and no other function
/// starts between the two.
pub proof fn law_lookup_is_nearest(entries: Seq<FunctionSourceInfo>, ip: usize, n: int)
    requires
        0 <= n <= entries.len(),
    ensures
        -1 <= nearest(entries, ip, n) < n,
        nearest(entries, ip, n) >= 0 ==> entries[nearest(entries, ip, n)].code_start <= ip,
        forall|j: int|
            0 <= j < n && (#[trigger] entries[j]).code_start <= ip ==> nearest(entries, ip, n) >= 0
                && entries[j].code_start <= entries[nearest(entries, ip, n)].code_start,
    decreases n,
{
    if n > 0 {
        law_lookup_is_nearest(entries, ip, n - 1);
    }
}

/// The registered function that an instruction address belongs to.
pub fn lookup_function(registry: &FunctionRegistry, ip: usize) -> (found: Option<usize>)
    ensures
        match found {
            Some(i) => i < registry.entries@.len() && i == nearest(
                registry.entries@,
                ip,
                registry.entries@.len() as int,
            ),
            None => nearest(registry.entries@, ip, registry.entries@.len() as int) < 0,
        },
{
    let mut best: Option<usize> = None;
    let mut i: usize = 0;
    while i < registry.entries.len()
        invariant
            i <= registry.entries@.len(),
            match best {
                Some(b) => b < i && b == nearest(registry.entries@, ip, i as int),
                None => nearest(registry.entries@, ip, i as int) < 0,
            },
        decreases registry.entries@.len() - i,
    {
        let start: usize = registry.entries[i].code_start;
        if start <= ip {
            match best {
                Some(b) => {
                    if start >= registry.entries[b].code_start {
                        best = Some(i);
                    }
                },
                None => {
                    best = Some(i);
                },
            }
        }
        i = i + 1;
    }
    best
}

// ---------------------------------------------------------------------------
// Texts
// ---------------------------------------------------------------------------

/// Part of a path behind its last slash.
pub open spec fn base_name(path: Seq<u8>) -> Seq<u8>
    decreases path.len(),
{
    if path.len() == 0 || path.last() == 47 {
        Seq::empty()
    } else {
        base_name(path.drop_last()).push(path.last())
    }
}

/// Length of the white-space character that a text ends with; 0 where it ends with none.
pub open spec fn space_at_end(s: Seq<u8>) -> int {
    let n = s.len() as int;
    if n >= 1 && (9 <= s[n - 1] <= 13 || s[n - 1] == 32) {
        1
    } else if n >= 2 && s[n - 2] == 0xC2 && (s[n - 1] == 0x85 || s[n - 1] == 0xA0) {
        2
    } else if n >= 3 && s[n - 3] == 0xE1 && s[n - 2] == 0x9A && s[n - 1] == 0x80 {
        3
    } else if n >= 3 && s[n - 3] == 0xE2 && s[n - 2] == 0x80 && (0x80 <= s[n - 1] <= 0x8A || s[n - 1]
        == 0xA8 || s[n - 1] == 0xA9 || s[n - 1] == 0xAF) {
        3
    } else if n >= 3 && s[n - 3] == 0xE2 && s[n - 2] == 0x81 && s[n - 1] == 0x9F {
        3
    } else if n >= 3 && s[n - 3] == 0xE3 && s[n - 2] == 0x80 && s[n - 1] == 0x80 {
        3
    } else {
        0
    }
}

/// A text without the white space at its end.
pub open spec fn trimmed_end(s: Seq<u8>) -> Seq<u8>
    decreases s.len(),
{
    if space_at_end(s) > 0 {
        trimmed_end(s.take(s.len() - space_at_end(s)))
    } else {
        s
    }
}

/// `n` blanks.
pub open spec fn blanks(n: int) -> Seq<u8> {
    if n > 0 {
        Seq::new(n as nat, |i: int| 32u8)
    } else {
        Seq::empty()
    }
}

/// What stands before a line number: a word, or a colon.
pub open spec fn line_mark(worded: bool) -> Seq<u8> {
    if worded {
        text::lit(" line ")
    } else {
        seq![58u8]
    }
}

/// What stands before a column number: a word, or a colon.
pub open spec fn column_mark(worded: bool) -> Seq<u8> {
    if worded {
        text::lit(" column ")
    } else {
        seq![58u8]
    }
}

/// Where a function is, as far as it is known: `name (file line N column M)` in words, else
/// `name (file:N:M)`.
pub open spec fn place_text(e: FunctionSourceInfo, worded: bool) -> Seq<u8> {
    let head = text::lit("Called from ") + e.qualified_name@;
    if e.line > 0 {
        let place = head + text::lit(" (") + base_name(e.source_file@) + line_mark(worded)
            + text::dec_nat(e.line as nat);
        let full = if e.column > 0 {
            place + column_mark(worded) + text::dec_nat(e.column as nat)
        } else {
            place
        };
        full.push(41)
    } else {
        head
    }
}

/// The line of the source under a place, with a mark under its column.
pub open spec fn snippet_text(e: FunctionSourceInfo) -> Seq<u8> {
    if e.line > 0 && e.source_snippet@.len() > 0 {
        let number = text::dec_nat(e.line as nat);
        let shown = seq![10u8] + blanks(4 - number.len()) + number + text::lit(" | ")
            + trimmed_end(e.source_snippet@);
        if e.column > 0 {
            (shown + seq![10u8] + text::lit("     | ") + blanks(e.column - 1)).push(94)
        } else {
            shown
        }
    } else {
        Seq::empty()
    }
}

fn append_base_name(out: &mut Vec<u8>, path: &Vec<u8>)
    ensures
        final(out)@ == old(out)@ + base_name(path@),
{
    let n: usize = path.len();
    let mut i: usize = n;
    assert(path@.subrange(n as int, n as int) =~= Seq::empty());
    assert(path@.take(n as int) =~= path@);
    assert(base_name(path@) =~= base_name(path@.take(n as int)) + path@.subrange(n as int, n as int));
    while i > 0 && path[i - 1] != 47
        invariant
            i <= n == path@.len(),
            base_name(path@) == base_name(path@.take(i as int)) + path@.subrange(
                i as int,
                n as int,
            ),
        decreases i,
    {
        proof {
            assert(path@.take(i as int).drop_last() =~= path@.take(i - 1));
            assert(path@.take(i as int).last() == path@[i - 1]);
            assert(base_name(path@.take(i - 1)).push(path@[i - 1]) + path@.subrange(
                i as int,
                n as int,
            ) =~= base_name(path@.take(i - 1)) + path@.subrange(i - 1, n as int));
        }
        i = i - 1;
    }
    assert(base_name(path@.take(i as int)) =~= Seq::empty());
    let tail: Vec<u8> = text::copy_range(path.as_slice(), i, n);
    assert(base_name(path@) =~= tail@);
    text::append(out, tail.as_slice());
}

fn append_blanks(out: &mut Vec<u8>, n: usize)
    ensures
        final(out)@ == old(out)@ + blanks(n as int),
{
    let ghost before = out@;
    let mut i: usize = 0;
    assert(out@ =~= before + blanks(0));
    while i < n
        invariant
            i <= n,
            out@ == before + blanks(i as int),
        decreases n - i,
    {
        out.push(32);
        i = i + 1;
        assert(out@ =~= before + blanks(i as int));
    }
}

fn append_trimmed(out: &mut Vec<u8>, s: &Vec<u8>)
    ensures
        final(out)@ == old(out)@ + trimmed_end(s@),
{
    let mut n: usize = s.len();
    assert(s@.take(n as int) =~= s@);
    loop
        invariant_except_break
            n <= s@.len(),
            trimmed_end(s@.take(n as int)) == trimmed_end(s@),
        ensures
            n <= s@.len(),
            trimmed_end(s@) == s@.take(n as int),
        decreases n,
    {
        let k: usize = if n >= 1 && ((9 <= s[n - 1] && s[n - 1] <= 13) || s[n - 1] == 32) {
            1
        } else if n >= 2 && s[n - 2] == 0xC2 && (s[n - 1] == 0x85 || s[n - 1] == 0xA0) {
            2
        } else if n >= 3 && s[n - 3] == 0xE1 && s[n - 2] == 0x9A && s[n - 1] == 0x80 {
            3
        } else if n >= 3 && s[n - 3] == 0xE2 && s[n - 2] == 0x80 && ((0x80 <= s[n - 1] && s[n - 1]
            <= 0x8A) || s[n - 1] == 0xA8 || s[n - 1] == 0xA9 || s[n - 1] == 0xAF) {
            3
        } else if n >= 3 && s[n - 3] == 0xE2 && s[n - 2] == 0x81 && s[n - 1] == 0x9F {
            3
        } else if n >= 3 && s[n - 3] == 0xE3 && s[n - 2] == 0x80 && s[n - 1] == 0x80 {
            3
        } else {
            0
        };
        let ghost cut = s@.take(n as int);
        assert(k == space_at_end(cut));
        if k == 0 {
            break;
        }
        assert(cut.take(n - k) =~= s@.take(n - k));
        n = n - k;
    }
    let shown: Vec<u8> = text::copy_range(s.as_slice(), 0, n);
    assert(shown@ =~= s@.take(n as int));
    text::append(out, shown.as_slice());
}

fn append_mark(out: &mut Vec<u8>, word: &str, worded: bool)
    ensures
        final(out)@ == old(out)@ + (if worded {
            text::lit(word)
        } else {
            seq![58u8]
        }),
{
    if worded {
        text::append_str(out, word);
    } else {
        out.push(58);
    }
}

fn place_bytes(e: &FunctionSourceInfo, worded: bool) -> (out: Vec<u8>)
    ensures
        out@ == place_text(*e, worded),
{
    let mut out: Vec<u8> = Vec::new();
    text::append_str(&mut out, "Called from ");
    text::append(&mut out, e.qualified_name.as_slice());
    assert(out@ =~= text::lit("Called from ") + e.qualified_name@);
    if e.line > 0 {
        text::append_str(&mut out, " (");
        append_base_name(&mut out, &e.source_file);
        append_mark(&mut out, " line ", worded);
        text::append_u64(&mut out, e.line as u64);
        assert(out@ =~= text::lit("Called from ") + e.qualified_name@ + text::lit(" (")
            + base_name(e.source_file@) + line_mark(worded) + text::dec_nat(e.line as nat));
        if e.column > 0 {
            let ghost place = out@;
            append_mark(&mut out, " column ", worded);
            text::append_u64(&mut out, e.column as u64);
            assert(out@ =~= place + column_mark(worded) + text::dec_nat(e.column as nat));
        }
        out.push(41);
    }
    out
}

fn snippet_bytes(e: &FunctionSourceInfo) -> (out: Vec<u8>)
    ensures
        out@ == snippet_text(*e),
{
    let mut out: Vec<u8> = Vec::new();
    if e.line > 0 && e.source_snippet.len() > 0 {
        let number: Vec<u8> = text::decimal(e.line as i64);
        out.push(10);
        let pad: usize = if number.len() < 4 {
            4 - number.len()
        } else {
            0
        };
        append_blanks(&mut out, pad);
        text::append(&mut out, number.as_slice());
        text::append_str(&mut out, " | ");
        append_trimmed(&mut out, &e.source_snippet);
        assert(out@ =~= seq![10u8] + blanks(4 - number@.len()) + number@ + text::lit(" | ")
            + trimmed_end(e.source_snippet@));
        if e.column > 0 {
            let ghost shown = out@;
            out.push(10);
            text::append_str(&mut out, "     | ");
            append_blanks(&mut out, (e.column - 1) as usize);
            assert(out@ =~= shown + seq![10u8] + text::lit("     | ") + blanks(e.column - 1));
            out.push(94);
        }
    } else {
        assert(out@ =~= Seq::empty());
    }
    out
}

// ---------------------------------------------------------------------------
// Frames
// ---------------------------------------------------------------------------

/// A function that the compiler made up.
pub open spec fn internal(name: Seq<u8>) -> bool {
    name.len() >= 2 && name[0] == 95 && name[1] == 95
}

/// Two frames show the same function: the same entry, or where `by_name` is set the same name and
/// line.
pub open spec fn same_frame(
    entries: Seq<FunctionSourceInfo>,
    a: usize,
    b: usize,
    by_name: bool,
) -> bool {
    if by_name {
        entries[a as int].qualified_name@ == entries[b as int].qualified_name@
            && entries[a as int].line == entries[b as int].line
    } else {
        a == b
    }
}

/// A frame was shown before.
pub open spec fn shown_before(
    entries: Seq<FunctionSourceInfo>,
    shown: Seq<usize>,
    f: usize,
    by_name: bool,
) -> bool {
    exists|k: int| 0 <= k < shown.len() && same_frame(entries, #[trigger] shown[k], f, by_name)
}

/// The frames of a trace that are shown: those of registered functions that the compiler did not
/// make up, each function once.
pub open spec fn picked(
    entries: Seq<FunctionSourceInfo>,
    frames: Seq<usize>,
    by_name: bool,
) -> Seq<usize>
    decreases frames.len(),
{
    if frames.len() == 0 {
        Seq::empty()
    } else {
        let rest = picked(entries, frames.drop_last(), by_name);
        let f = frames.last();
        if f >= entries.len() || internal(entries[f as int].qualified_name@) || shown_before(
            entries,
            rest,
            f,
            by_name,
        ) {
            rest
        } else {
            rest.push(f)
        }
    }
}

fn pick(entries: &Vec<FunctionSourceInfo>, frames: &Vec<usize>, by_name: bool) -> (out: Vec<usize>)
    ensures
        out@ == picked(entries@, frames@, by_name),
        forall|i: int| 0 <= i < out@.len() ==> #[trigger] out@[i] < entries@.len(),
{
    let mut out: Vec<usize> = Vec::new();
    let mut i: usize = 0;
    assert(frames@.take(0) =~= Seq::empty());
    assert(out@ =~= picked(entries@, frames@.take(0), by_name));
    while i < frames.len()
        invariant
            i <= frames@.len(),
            out@ == picked(entries@, frames@.take(i as int), by_name),
            forall|k: int| 0 <= k < out@.len() ==> #[trigger] out@[k] < entries@.len(),
        decreases frames@.len() - i,
    {
        let f: usize = frames[i];
        proof {
            assert(frames@.take(i + 1).drop_last() =~= frames@.take(i as int));
            assert(frames@.take(i + 1).last() == f);
        }
        if f < entries.len() {
            let name: &Vec<u8> = &entries[f].qualified_name;
            let skip: bool = name.len() >= 2 && name[0] == 95 && name[1] == 95;
            if !skip && !was_shown(entries, &out, f, by_name) {
                out.push(f);
            }
        }
        i = i + 1;
    }
    assert(frames@.take(i as int) =~= frames@);
    out
}

fn was_shown(
    entries: &Vec<FunctionSourceInfo>,
    shown: &Vec<usize>,
    f: usize,
    by_name: bool,
) -> (r: bool)
    requires
        f < entries@.len(),
        forall|k: int| 0 <= k < shown@.len() ==> #[trigger] shown@[k] < entries@.len(),
    ensures
        r == shown_before(entries@, shown@, f, by_name),
{
    let mut k: usize = 0;
    while k < shown.len()
        invariant
            k <= shown@.len(),
            f < entries@.len(),
            forall|j: int| 0 <= j < shown@.len() ==> #[trigger] shown@[j] < entries@.len(),
            forall|j: int| 0 <= j < k ==> !same_frame(entries@, #[trigger] shown@[j], f, by_name),
        decreases shown@.len() - k,
    {
        let g: usize = shown[k];
        let same: bool = if by_name {
            text::equal(
                entries[g].qualified_name.as_slice(),
                entries[f].qualified_name.as_slice(),
            ) && entries[g].line == entries[f].line
        } else {
            g == f
        };
        if same {
            assert(same_frame(entries@, shown@[k as int], f, by_name));
            return true;
        }
        k = k + 1;
    }
    false
}

/// Texts of the frames of a trace: places that editors can follow with the lines of the source, or
/// places in words.
pub open spec fn frame_texts(
    entries: Seq<FunctionSourceInfo>,
    shown: Seq<usize>,
    with_source: bool,
) -> Seq<Seq<u8>> {
    shown.map_values(
        |f: usize|
            if with_source {
                place_text(entries[f as int], false) + snippet_text(entries[f as int])
            } else {
                place_text(entries[f as int], true)
            },
    )
}

fn join_frames(
    entries: &Vec<FunctionSourceInfo>,
    shown: &Vec<usize>,
    with_source: bool,
) -> (out: Vec<u8>)
    requires
        forall|k: int| 0 <= k < shown@.len() ==> #[trigger] shown@[k] < entries@.len(),
    ensures
        out@ == text::join(frame_texts(entries@, shown@, with_source), seq![10u8]),
{
    let ghost all = frame_texts(entries@, shown@, with_source);
    let mut out: Vec<u8> = Vec::new();
    let mut i: usize = 0;
    assert(all.take(0) =~= Seq::empty());
    assert(out@ =~= text::join(all.take(0), seq![10u8]));
    while i < shown.len()
        invariant
            i <= shown@.len(),
            all == frame_texts(entries@, shown@, with_source),
            forall|k: int| 0 <= k < shown@.len() ==> #[trigger] shown@[k] < entries@.len(),
            out@ == text::join(all.take(i as int), seq![10u8]),
        decreases shown@.len() - i,
    {
        let ghost before = out@;
        proof {
            assert(all.take(i + 1).drop_last() =~= all.take(i as int));
            assert(all.take(i + 1).last() == all[i as int]);
        }
        let f: usize = shown[i];
        if i > 0 {
            out.push(10);
        }
        let place: Vec<u8> = place_bytes(&entries[f], !with_source);
        text::append(&mut out, place.as_slice());
        if with_source {
            let source: Vec<u8> = snippet_bytes(&entries[f]);
            text::append(&mut out, source.as_slice());
        }
        assert(out@ =~= (if i > 0 {
            before + seq![10u8]
        } else {
            before
        }) + all[i as int]);
        i = i + 1;
        assert(out@ =~= text::join(all.take(i as int), seq![10u8]));
    }
    assert(all.take(i as int) =~= all);
    out
}

// ---------------------------------------------------------------------------
// Traces from instruction addresses
// ---------------------------------------------------------------------------

/// Entry that an instruction address belongs to; an index of no entry where there is none.
pub open spec fn frame_of(entries: Seq<FunctionSourceInfo>, ip: usize) -> usize {
    let i = nearest(entries, ip, entries.len() as int);
    if ip == 0 || i < 0 {
        usize::MAX
    } else {
        i as usize
    }
}

/// Trace of a list of instruction addresses, the innermost first. Without registered functions it
/// is `raw`, the trace in terms of machine code.
pub fn resolve_backtrace_to_source(
    registry: &FunctionRegistry,
    ips: &Vec<usize>,
    raw: &[u8],
) -> (out: Vec<u8>)
    ensures
        out@ == (if registry.entries@.len() == 0 {
            raw@
        } else {
            text::join(
                frame_texts(
                    registry.entries@,
                    picked(
                        registry.entries@,
                        ips@.map_values(|ip: usize| frame_of(registry.entries@, ip)),
                        true,
                    ),
                    false,
                ),
                seq![10u8],
            )
        }),
{
    if registry.entries.len() == 0 {
        return text::copy_all(raw);
    }
    let ghost wanted = ips@.map_values(|ip: usize| frame_of(registry.entries@, ip));
    let mut frames: Vec<usize> = Vec::new();
    let mut i: usize = 0;
    while i < ips.len()
        invariant
            i <= ips@.len(),
            wanted == ips@.map_values(|ip: usize| frame_of(registry.entries@, ip)),
            frames@ == wanted.take(i as int),
        decreases ips@.len() - i,
    {
        let ip: usize = ips[i];
        let f: usize = if ip == 0 {
            usize::MAX
        } else {
            match lookup_function(registry, ip) {
                Some(k) => k,
                None => usize::MAX,
            }
        };
        assert(f == wanted[i as int]);
        frames.push(f);
        i = i + 1;
        assert(frames@ =~= wanted.take(i as int));
    }
    assert(frames@ =~= wanted);
    let shown: Vec<usize> = pick(&registry.entries, &frames, true);
    join_frames(&registry.entries, &shown, false)
}

// ---------------------------------------------------------------------------
// The shadow stack
// ---------------------------------------------------------------------------

/// Notes that a function was called.
pub fn rayzor_push_call_frame(traces: &mut StackTraces, registry: &FunctionRegistry, func_id: u32)
    ensures
        final(traces).shadow@ == old(traces).shadow@.push(
            if registry.ids@.contains_key(func_id) {
                registry.ids@[func_id]
            } else {
                u32::MAX
            },
        ),
        final(traces).enabled == old(traces).enabled,
{
    let index: u32 = match registry.ids.get(&func_id) {
        Some(i) => *i,
        None => u32::MAX,
    };
    traces.shadow.push(index);
}

/// Notes that a function returned.
pub fn rayzor_pop_call_frame(traces: &mut StackTraces)
    ensures
        final(traces).shadow@ == (if old(traces).shadow@.len() > 0 {
            old(traces).shadow@.drop_last()
        } else {
            old(traces).shadow@
        }),
        final(traces).enabled == old(traces).enabled,
{
    let _top: Option<u32> = traces.shadow.pop();
}

/// The calls of a shadow stack that are shown, the innermost first.
pub open spec fn shown_calls(entries: Seq<FunctionSourceInfo>, shadow: Seq<u32>) -> Seq<usize> {
    picked(entries, shadow.reverse().map_values(|f: u32| f as usize), false)
}

/// Trace of a shadow stack: the innermost call first, with the lines of the source.
pub open spec fn shadow_trace(entries: Seq<FunctionSourceInfo>, shadow: Seq<u32>) -> Seq<u8> {
    text::join(frame_texts(entries, shown_calls(entries, shadow), true), seq![10u8])
}

/// Trace of the calls that are under way.
pub fn capture_shadow_stack(traces: &StackTraces, registry: &FunctionRegistry) -> (out: Vec<u8>)
    ensures
        out@ == shadow_trace(registry.entries@, traces.shadow@),
{
    let ghost wanted = traces.shadow@.reverse().map_values(|f: u32| f as usize);
    let n: usize = traces.shadow.len();
    let mut frames: Vec<usize> = Vec::new();
    let mut i: usize = 0;
    while i < n
        invariant
            i <= n == traces.shadow@.len(),
            wanted == traces.shadow@.reverse().map_values(|f: u32| f as usize),
            frames@ == wanted.take(i as int),
        decreases n - i,
    {
        let f: usize = traces.shadow[n - 1 - i] as usize;
        assert(f == wanted[i as int]);
        frames.push(f);
        i = i + 1;
        assert(frames@ =~= wanted.take(i as int));
    }
    assert(frames@ =~= wanted);
    let shown: Vec<usize> = pick(&registry.entries, &frames, false);
    join_frames(&registry.entries, &shown, true)
}

/// A call that returned leaves the trace as it was.
pub proof fn law_call_and_return(shadow: Seq<u32>, index: u32)
    ensures
        shadow.push(index).drop_last() == shadow,
{
    assert(shadow.push(index).drop_last() =~= shadow);
}

/// No function is shown twice.
pub proof fn law_frames_shown_once(
    entries: Seq<FunctionSourceInfo>,
    frames: Seq<usize>,
    by_name: bool,
    i: int,
    j: int,
)
    requires
        0 <= i < j < picked(entries, frames, by_name).len(),
    ensures
        !same_frame(
            entries,
            picked(entries, frames, by_name)[i],
            picked(entries, frames, by_name)[j],
            by_name,
        ),
    decreases frames.len(),
{
    let rest = picked(entries, frames.drop_last(), by_name);
    if j < rest.len() {
        law_frames_shown_once(entries, frames.drop_last(), by_name, i, j);
    } else {
        assert(picked(entries, frames, by_name) == rest.push(frames.last()));
        assert(picked(entries, frames, by_name)[i] == rest[i]);
    }
}

/// A registered function that the compiler did not make up.
pub open spec fn visible(entries: Seq<FunctionSourceInfo>, f: usize) -> bool {
    f < entries.len() && !internal(entries[f as int].qualified_name@)
}

/// The least position of `f` in a list of frames, or the length of the list.
spec fn first_place(frames: Seq<usize>, f: usize) -> int
    decreases frames.len(),
{
    if frames.len() == 0 {
        0
    } else {
        let n = frames.len() - 1;
        let p = first_place(frames.drop_last(), f);
        if p < n {
            p
        } else if frames.last() == f {
            n
        } else {
            n + 1
        }
    }
}

proof fn lemma_first_place(frames: Seq<usize>, f: usize)
    ensures
        0 <= first_place(frames, f) <= frames.len(),
        first_place(frames, f) < frames.len() ==> frames[first_place(frames, f)] == f,
        forall|q: int| 0 <= q < first_place(frames, f) ==> #[trigger] frames[q] != f,
    decreases frames.len(),
{
    if frames.len() > 0 {
        let rest = frames.drop_last();
        lemma_first_place(rest, f);
        assert forall|q: int| 0 <= q < first_place(frames, f) implies #[trigger] frames[q] != f by {
            if q < rest.len() {
                assert(rest[q] == frames[q]);
            }
        }
    }
}

proof fn lemma_picked(entries: Seq<FunctionSourceInfo>, frames: Seq<usize>)
    ensures
        forall|f: usize| #[trigger]
            picked(entries, frames, false).contains(f) <==> frames.contains(f) && visible(
                entries,
                f,
            ),
        forall|i: int, j: int|
            0 <= i < j < picked(entries, frames, false).len() ==> first_place(
                frames,
                #[trigger] picked(entries, frames, false)[i],
            ) < first_place(frames, #[trigger] picked(entries, frames, false)[j]),
    decreases frames.len(),
{
    if frames.len() > 0 {
        let front = frames.drop_last();
        let rest = picked(entries, front, false);
        let all = picked(entries, frames, false);
        let last = frames.last();
        lemma_picked(entries, front);
        assert forall|f: usize| #[trigger] all.contains(f) <==> frames.contains(f) && visible(
            entries,
            f,
        ) by {
            assert(rest.contains(f) <==> front.contains(f) && visible(entries, f));
            if front.contains(f) {
                let k = choose|k: int| 0 <= k < front.len() && front[k] == f;
                assert(frames[k] == f);
            }
            if frames.contains(f) && f != last {
                let k = choose|k: int| 0 <= k < frames.len() && frames[k] == f;
                assert(front[k] == f);
            }
            assert(frames[frames.len() - 1] == last);
            if shown_before(entries, rest, last, false) {
                let k = choose|k: int|
                    0 <= k < rest.len() && same_frame(entries, #[trigger] rest[k], last, false);
                assert(rest[k] == last);
            }
            if all.len() > rest.len() {
                assert(all == rest.push(last));
                assert(all[rest.len() as int] == last);
                if rest.contains(f) {
                    let k = choose|k: int| 0 <= k < rest.len() && rest[k] == f;
                    assert(all[k] == f);
                }
                if all.contains(f) && f != last {
                    let k = choose|k: int| 0 <= k < all.len() && all[k] == f;
                    assert(rest[k] == f);
                }
            } else {
                assert(all == rest);
            }
        }
        assert forall|i: int, j: int| 0 <= i < j < all.len() implies first_place(
            frames,
            #[trigger] all[i],
        ) < first_place(frames, #[trigger] all[j]) by {
            assert(rest.contains(rest[i]));
            lemma_first_place(front, rest[i]);
            let k = choose|k: int| 0 <= k < front.len() && front[k] == rest[i];
            if j < rest.len() {
                assert(rest.contains(rest[j]));
                lemma_first_place(front, rest[j]);
                let m = choose|m: int| 0 <= m < front.len() && front[m] == rest[j];
                assert(first_place(front, rest[i]) < first_place(front, rest[j]));
            } else {
                lemma_first_place(front, last);
                if first_place(front, last) < front.len() {
                    assert(front.contains(last));
                    assert(rest.contains(last));
                    let m = choose|m: int| 0 <= m < rest.len() && rest[m] == last;
                    assert(same_frame(entries, rest[m], last, false));
                }
            }
        }
    }
}

/// The most recent call of a function on a shadow stack.
pub open spec fn is_last_call(shadow: Seq<u32>, f: usize, p: int) -> bool {
    &&& 0 <= p < shadow.len()
    &&& shadow[p] == f
    &&& forall|q: int| p < q < shadow.len() ==> #[trigger] shadow[q] != f
}

/// Every visible function on the shadow stack is shown, exactly once, and no other; the one that
/// was called last comes first.
pub proof fn law_shadow_trace_frames(entries: Seq<FunctionSourceInfo>, shadow: Seq<u32>)
    ensures
        ({
            let shown = shown_calls(entries, shadow);
            &&& forall|f: u32| #[trigger]
                shown.contains(f as usize) <==> shadow.contains(f) && visible(entries, f as usize)
            &&& shown.no_duplicates()
            &&& forall|i: int, j: int, p: int, q: int|
                0 <= i < j < shown.len() && #[trigger] is_last_call(shadow, shown[i], p)
                    && #[trigger] is_last_call(shadow, shown[j], q) ==> p > q
        }),
{
    let frames = shadow.reverse().map_values(|f: u32| f as usize);
    let shown = shown_calls(entries, shadow);
    let n = shadow.len() as int;
    lemma_picked(entries, frames);
    assert forall|f: u32| #[trigger] shown.contains(f as usize) <==> shadow.contains(f) && visible(
        entries,
        f as usize,
    ) by {
        if shadow.contains(f) {
            let k = choose|k: int| 0 <= k < n && shadow[k] == f;
            assert(frames[n - 1 - k] == f as usize);
        }
        if frames.contains(f as usize) {
            let k = choose|k: int| 0 <= k < n && frames[k] == f as usize;
            assert(shadow[n - 1 - k] == f);
        }
    }
    assert forall|i: int, j: int| 0 <= i < shown.len() && 0 <= j < shown.len() && i
        != j implies shown[i] != shown[j] by {
        if i < j {
            law_frames_shown_once(entries, frames, false, i, j);
        } else {
            law_frames_shown_once(entries, frames, false, j, i);
        }
    }
    assert forall|i: int, j: int, p: int, q: int|
        0 <= i < j < shown.len() && #[trigger] is_last_call(shadow, shown[i], p)
            && #[trigger] is_last_call(shadow, shown[j], q) implies p > q by {
        lemma_last_is_first(shadow, shown[i], p);
        lemma_last_is_first(shadow, shown[j], q);
        assert(first_place(frames, shown[i]) < first_place(frames, shown[j]));
    }
}

proof fn lemma_last_is_first(shadow: Seq<u32>, f: usize, p: int)
    requires
        is_last_call(shadow, f, p),
    ensures
        first_place(shadow.reverse().map_values(|f: u32| f as usize), f) == shadow.len() - 1 - p,
{
    let frames = shadow.reverse().map_values(|f: u32| f as usize);
    let n = shadow.len() as int;
    lemma_first_place(frames, f);
    let k = first_place(frames, f);
    assert(frames[n - 1 - p] == f);
    if k < n - 1 - p {
        assert(shadow[n - 1 - k] == f);
    }
}

/// The trace is empty exactly where no visible function is on the shadow stack.
pub proof fn law_shadow_trace_empty(entries: Seq<FunctionSourceInfo>, shadow: Seq<u32>)
    ensures
        shadow_trace(entries, shadow).len() == 0 <==> forall|k: int|
            0 <= k < shadow.len() ==> !visible(entries, #[trigger] shadow[k] as usize),
{
    let frames = shadow.reverse().map_values(|f: u32| f as usize);
    let shown = shown_calls(entries, shadow);
    let texts = frame_texts(entries, shown, true);
    let n = shadow.len() as int;
    lemma_picked(entries, frames);
    if shown.len() > 0 {
        assert(shown.contains(shown[0]));
        let k = choose|k: int| 0 <= k < frames.len() && frames[k] == shown[0];
        assert(visible(entries, shadow[n - 1 - k] as usize));
        if texts.len() >= 2 {
            text::lemma_join_first(texts, seq![10u8]);
        }
        lemma_place_not_empty(entries[shown[0] as int]);
        assert(texts[0].len() > 0);
        assert(text::join(texts, seq![10u8]).len() > 0);
    } else {
        assert forall|k: int| 0 <= k < shadow.len() implies !visible(
            entries,
            #[trigger] shadow[k] as usize,
        ) by {
            assert(frames[n - 1 - k] == shadow[k] as usize);
            assert(frames.contains(shadow[k] as usize));
            assert(!shown.contains(shadow[k] as usize));
        }
    }
}

proof fn lemma_place_not_empty(e: FunctionSourceInfo)
    ensures
        place_text(e, false).len() > 0,
{
    let head = "Called from ";
    reveal_strlit("Called from ");
    if text::lit(head).len() == 0 {
        vstd::utf8::encode_utf8_decode_utf8(head@);
        assert(text::lit(head) =~= Seq::empty());
        assert(vstd::utf8::decode_utf8(Seq::<u8>::empty()) =~= Seq::<char>::empty());
    }
}

// ---------------------------------------------------------------------------
// The API of compiled code
// ---------------------------------------------------------------------------

/// A string with its terminator.
pub fn make_haxe_string(s: Vec<u8>) -> (h: HaxeString)
    requires
        s@.len() < usize::MAX,
    ensures
        h.terminated(s@),
        h.cap == s@.len() + 1,
{
    let cap: usize = s.len() + 1;
    HaxeString::ended(s, cap)
}

/// Trace of the calls that are under way; empty where traces are off.
pub fn rayzor_native_stack_trace_call_stack(
    traces: &StackTraces,
    registry: &FunctionRegistry,
) -> (out: Vec<u8>)
    ensures
        out@ == (if traces.enabled {
            shadow_trace(registry.entries@, traces.shadow@)
        } else {
            Seq::empty()
        }),
{
    if traces.enabled {
        capture_shadow_stack(traces, registry)
    } else {
        let out: Vec<u8> = Vec::new();
        assert(out@ =~= Seq::empty());
        out
    }
}

/// Items of a trace: an empty array.
pub fn rayzor_native_stack_trace_to_haxe() -> (a: HaxeArray)
    ensures
        a.wf(),
        a@ == Seq::<Seq<u8>>::empty(),
        a.elem_size == 8,
        a.cap == haxe_array::INITIAL_CAPACITY,
{
    haxe_array::haxe_array_new(8)
}

/// The name of a file is what stands behind the last slash of its path.
pub proof fn law_base_name(dir: Seq<u8>, name: Seq<u8>)
    requires
        forall|i: int| 0 <= i < name.len() ==> name[i] != 47,
    ensures
        base_name(name) == name,
        base_name(dir + seq![47u8] + name) == name,
    decreases name.len(),
{
    let path = dir + seq![47u8] + name;
    if name.len() > 0 {
        let less = name.drop_last();
        assert forall|i: int| 0 <= i < less.len() implies less[i] != 47 by {
            assert(less[i] == name[i]);
        }
        law_base_name(dir, less);
        assert(path.drop_last() =~= dir + seq![47u8] + less);
        assert(path.last() == name.last());
        assert(less.push(name.last()) =~= name);
    } else {
        assert(path.last() == 47);
        assert(name =~= Seq::empty());
    }
}

/// Each line of a text ends at a newline, without it and without a carriage return before it; what
/// stands behind the last newline is a line where it is not empty.
pub proof fn law_lines_end_at_newlines(line: Seq<u8>, rest: Seq<u8>)
    requires
        forall|i: int| 0 <= i < line.len() ==> line[i] != 10,
    ensures
        line.len() == 0 || line.last() != 13 ==> lines_of(line + seq![10u8] + rest) == seq![line]
            + lines_of(rest),
        lines_of(line + seq![13u8, 10] + rest) == seq![line] + lines_of(rest),
        line.len() > 0 ==> lines_of(line) == seq![line],
        line.len() == 0 ==> lines_of(line) == Seq::<Seq<u8>>::empty(),
{
    let nl = seq![10u8];
    let cr = line.push(13);
    lemma_no_newline(line, rest);
    text::law_split_at_first(line, nl, rest);
    lemma_lines_first(line, rest);
    assert forall|i: int| 0 <= i < cr.len() implies cr[i] != 10 by {
        if i < line.len() {
            assert(cr[i] == line[i]);
        }
    }
    lemma_no_newline(cr, rest);
    text::law_split_at_first(cr, nl, rest);
    lemma_lines_first(cr, rest);
    assert(line + seq![13u8, 10] + rest =~= cr + nl + rest);
    assert(cr.drop_last() =~= line);
    assert(seq![without_cr(line)] + lines_of(rest) == lines_of(line + nl + rest));
    assert forall|j: int| !text::occurs_at(line, nl, j) by {
        if text::occurs_at(line, nl, j) {
            assert(line.subrange(j, j + 1)[0] == line[j]);
        }
    }
    text::law_split_without_separator(line, nl);
    let one = seq![line];
    assert(one.drop_last() =~= Seq::empty());
    assert(one.drop_last().map_values(|p: Seq<u8>| without_cr(p)) =~= Seq::empty());
    if line.len() > 0 {
        assert(lines_of(line) =~= seq![line]);
    }
}

proof fn lemma_no_newline(line: Seq<u8>, rest: Seq<u8>)
    requires
        forall|i: int| 0 <= i < line.len() ==> line[i] != 10,
    ensures
        forall|j: int|
            0 <= j < line.len() ==> !text::occurs_at(line + seq![10u8] + rest, seq![10u8], j),
{
    let s = line + seq![10u8] + rest;
    assert forall|j: int| 0 <= j < line.len() implies !text::occurs_at(s, seq![10u8], j) by {
        if text::occurs_at(s, seq![10u8], j) {
            assert(s.subrange(j, j + 1)[0] == s[j]);
            assert(s[j] == line[j]);
        }
    }
}

proof fn lemma_lines_first(line: Seq<u8>, rest: Seq<u8>)
    requires
        text::pieces(line + seq![10u8] + rest, seq![10u8], 0) == seq![line] + text::pieces(
            rest,
            seq![10u8],
            0,
        ),
    ensures
        lines_of(line + seq![10u8] + rest) == seq![without_cr(line)] + lines_of(rest),
{
    text::lemma_join_pieces(rest, seq![10u8], 0);
    let tail = text::pieces(rest, seq![10u8], 0);
    let parts = seq![line] + tail;
    let f = |p: Seq<u8>| without_cr(p);
    assert(parts.drop_last() =~= seq![line] + tail.drop_last());
    assert(parts.drop_last().map_values(f) =~= seq![without_cr(line)] + tail.drop_last().map_values(
        f,
    ));
    assert(parts.last() == tail.last());
    assert(lines_of_parts(parts) =~= seq![without_cr(line)] + lines_of_parts(tail));
}

/// Lines are counted from 1; the first one also stands for 0, and behind the last there is none.
pub proof fn law_lines_are_counted_from_one(lines: Seq<Seq<u8>>, n: int)
    requires
        0 <= n,
    ensures
        1 <= n <= lines.len() ==> line_at(lines, n) == lines[n - 1],
        n > lines.len() ==> line_at(lines, n) == Seq::<u8>::empty(),
        lines.len() > 0 ==> line_at(lines, 0) == lines[0],
{
}

/// Trimming takes the white space off the end of a text and nothing else: blanks, tabs and line
/// ends go, and a text that ends with another character stays.
pub proof fn law_trimming(s: Seq<u8>, c: u8)
    ensures
        c == 32 || (9 <= c <= 13) ==> trimmed_end(s.push(c)) == trimmed_end(s),
        33 <= c < 128 ==> trimmed_end(s.push(c)) == s.push(c),
        trimmed_end(Seq::empty()) == Seq::<u8>::empty(),
{
    let t = s.push(c);
    assert(t[t.len() - 1] == c);
    if c == 32 || (9 <= c <= 13) {
        assert(t.take(t.len() - 1) =~= s);
    }
}

/// A trimmed text is a start of the text.
pub proof fn law_trimming_keeps_the_start(s: Seq<u8>)
    ensures
        trimmed_end(s).len() <= s.len(),
        trimmed_end(s) == s.take(trimmed_end(s).len() as int),
        space_at_end(trimmed_end(s)) == 0,
    decreases s.len(),
{
    if space_at_end(s) > 0 {
        let t = s.take(s.len() - space_at_end(s));
        law_trimming_keeps_the_start(t);
        assert(t.take(trimmed_end(t).len() as int) =~= s.take(trimmed_end(t).len() as int));
    } else {
        assert(s.take(s.len() as int) =~= s);
    }
}

/// A frame is shown by its function, and by its file, line and column as far as they are known: in
/// words, or with colons.
pub proof fn law_place_texts(e: FunctionSourceInfo)
    ensures
        ({
            let head = text::lit("Called from ") + e.qualified_name@;
            let file = base_name(e.source_file@);
            let line = text::dec_int(e.line as int);
            let column = text::dec_int(e.column as int);
            &&& e.line == 0 ==> place_text(e, true) == head && place_text(e, false) == head
            &&& e.line > 0 && e.column == 0 ==> {
                &&& place_text(e, true) == head + seq![32u8, 40] + file + text::lit(" line ") + line
                    + seq![41u8]
                &&& place_text(e, false) == head + seq![32u8, 40] + file + seq![58u8] + line + seq![
                    41u8,
                ]
            }
            &&& e.line > 0 && e.column > 0 ==> {
                &&& place_text(e, true) == head + seq![32u8, 40] + file + text::lit(" line ") + line
                    + text::lit(" column ") + column + seq![41u8]
                &&& place_text(e, false) == head + seq![32u8, 40] + file + seq![58u8] + line + seq![
                    58u8,
                ] + column + seq![41u8]
            }
        }),
{
    reveal_strlit(" (");
    vstd::utf8::is_ascii_chars_encode_utf8(" ("@);
    assert(text::lit(" (") =~= seq![32u8, 40]);
    let head = text::lit("Called from ") + e.qualified_name@;
    let file = base_name(e.source_file@);
    let line = text::dec_int(e.line as int);
    let column = text::dec_int(e.column as int);
    if e.line > 0 && e.column == 0 {
        assert(place_text(e, true) =~= head + seq![32u8, 40] + file + text::lit(" line ") + line
            + seq![41u8]);
        assert(place_text(e, false) =~= head + seq![32u8, 40] + file + seq![58u8] + line + seq![
            41u8,
        ]);
    }
    if e.line > 0 && e.column > 0 {
        assert(place_text(e, true) =~= head + seq![32u8, 40] + file + text::lit(" line ") + line
            + text::lit(" column ") + column + seq![41u8]);
        assert(place_text(e, false) =~= head + seq![32u8, 40] + file + seq![58u8] + line + seq![
            58u8,
        ] + column + seq![41u8]);
    }
}

/// The mark under a line of the source stands under its column: the text ends with it, and as many
/// blanks stand before it as columns.
pub proof fn law_snippet_marks_the_column(e: FunctionSourceInfo)
    requires
        e.line > 0,
        e.source_snippet@.len() > 0,
        e.column > 0,
    ensures
        ({
            let t = snippet_text(e);
            let n = t.len() as int;
            &&& n >= e.column + 1
            &&& t[0] == 10
            &&& t[n - 1] == 94
            &&& forall|i: int| n - e.column <= i < n - 1 ==> #[trigger] t[i] == 32
            &&& t[n - e.column - 1] == 32 && t[n - e.column - 2] == 124
        }),
{
    reveal_strlit("     | ");
    vstd::utf8::is_ascii_chars_encode_utf8("     | "@);
    assert(text::lit("     | ") =~= seq![32u8, 32, 32, 32, 32, 124, 32]);
    let number = text::dec_nat(e.line as nat);
    let shown = seq![10u8] + blanks(4 - number.len()) + number + text::lit(" | ") + trimmed_end(
        e.source_snippet@,
    );
    let mark = text::lit("     | ");
    assert(shown[0] == 10);
    assert(snippet_text(e) == (shown + seq![10u8] + mark + blanks(e.column - 1)).push(94));
    let k: int = shown.len() as int + 1;
    let t = snippet_text(e);
    assert(t.len() == k + 7 + (e.column - 1) + 1);
    assert(t[k + 5] == mark[5] && t[k + 6] == mark[6]);
}

/// A function that the compiler made up has a name that starts with two underscores.
pub proof fn law_internal_names(rest: Seq<u8>, name: Seq<u8>)
    ensures
        internal(seq![95u8, 95] + rest),
        name.len() < 2 || name[0] != 95 || name[1] != 95 ==> !internal(name),
{
}

/// An instruction address belongs to the function that starts last at or before it, and to the
/// newest of several that start there.
pub proof fn law_frame_is_newest_of_nearest(
    entries: Seq<FunctionSourceInfo>,
    ip: usize,
    n: int,
    j: int,
)
    requires
        0 <= n <= entries.len(),
        0 <= j < n,
        entries[j].code_start <= ip,
    ensures
        nearest(entries, ip, n) >= 0,
        entries[nearest(entries, ip, n)].code_start <= ip,
        entries[j].code_start < entries[nearest(entries, ip, n)].code_start || (
        entries[j].code_start == entries[nearest(entries, ip, n)].code_start && j <= nearest(
            entries,
            ip,
            n,
        )),
    decreases n,
{
    law_lookup_is_nearest(entries, ip, n);
    if n > 0 {
        law_lookup_is_nearest(entries, ip, n - 1);
        if j < n - 1 {
            law_frame_is_newest_of_nearest(entries, ip, n - 1, j);
        }
    }
}

/// The lines of a file are those that were read last under its path.
pub proof fn law_newest_reading_counts(files: Seq<SourceFile>, f: SourceFile, path: Seq<u8>)
    ensures
        cached(files.push(f), f.path@) == Some(text::views(f.lines@)),
        path != f.path@ ==> cached(files.push(f), path) == cached(files, path),
        cached(Seq::empty(), path) is None,
{
    assert(files.push(f).drop_last() =~= files);
}

/// A name that is missing or empty is unknown, and any other is shown as it is.
pub proof fn law_missing_names(name: Seq<u8>)
    ensures
        given_or_unknown(None) == text::lit("<unknown>"),
        given_or_unknown(Some(Seq::empty())) == text::lit("<unknown>"),
        name.len() > 0 && vstd::utf8::valid_utf8(name) ==> given_or_unknown(Some(name)) == name,
{
}

/// A frame is shown where it is one of a registered function that the compiler did not make up, and
/// was not shown before; the order of the frames is kept.
pub proof fn law_frames_are_picked(
    entries: Seq<FunctionSourceInfo>,
    frames: Seq<usize>,
    f: usize,
    by_name: bool,
)
    ensures
        ({
            let before = picked(entries, frames, by_name);
            let after = picked(entries, frames.push(f), by_name);
            let seen = exists|k: int|
                0 <= k < before.len() && if by_name {
                    entries[#[trigger] before[k] as int].qualified_name@
                        == entries[f as int].qualified_name@ && entries[before[k] as int].line
                        == entries[f as int].line
                } else {
                    before[k] == f
                };
            let name = entries[f as int].qualified_name@;
            let made_up = name.len() >= 2 && name[0] == 95 && name[1] == 95;
            &&& f < entries.len() && !made_up && !seen ==> after == before.push(f)
            &&& f >= entries.len() || made_up || seen ==> after == before
        }),
        picked(entries, Seq::empty(), by_name).len() == 0,
{
    assert(frames.push(f).drop_last() =~= frames);
    let before = picked(entries, frames, by_name);
    let seen = exists|k: int|
        0 <= k < before.len() && if by_name {
            entries[#[trigger] before[k] as int].qualified_name@ == entries[f as int].qualified_name@
                && entries[before[k] as int].line == entries[f as int].line
        } else {
            before[k] == f
        };
    assert(seen == shown_before(entries, before, f, by_name)) by {
        if seen {
            let k = choose|k: int|
                0 <= k < before.len() && if by_name {
                    entries[#[trigger] before[k] as int].qualified_name@
                        == entries[f as int].qualified_name@ && entries[before[k] as int].line
                        == entries[f as int].line
                } else {
                    before[k] == f
                };
            assert(same_frame(entries, before[k], f, by_name));
        }
        if shown_before(entries, before, f, by_name) {
            let k = choose|k: int|
                0 <= k < before.len() && same_frame(entries, #[trigger] before[k], f, by_name);
            assert(same_frame(entries, before[k], f, by_name));
        }
    }
}

/// A line of the source stands on a line of its own behind its number, which is set right in four
/// columns, and a bar; without a line number or without the line there is nothing.
pub proof fn law_snippets(e: FunctionSourceInfo, n: int)
    requires
        e.column == 0,
        n == text::dec_int(e.line as int).len(),
    ensures
        e.line == 0 || e.source_snippet@.len() == 0 ==> snippet_text(e) == Seq::<u8>::empty(),
        e.line > 0 && e.source_snippet@.len() > 0 && n <= 4 ==> snippet_text(e) == seq![10u8]
            + Seq::new((4 - n) as nat, |i: int| 32u8) + text::dec_int(e.line as int) + seq![
            32u8,
            124,
            32,
        ] + trimmed_end(e.source_snippet@),
        e.line > 0 && e.source_snippet@.len() > 0 && n > 4 ==> snippet_text(e) == seq![10u8]
            + text::dec_int(e.line as int) + seq![32u8, 124, 32] + trimmed_end(e.source_snippet@),
{
    reveal_strlit(" | ");
    vstd::utf8::is_ascii_chars_encode_utf8(" | "@);
    assert(text::lit(" | ") =~= seq![32u8, 124, 32]);
    assert(n <= 4 ==> blanks(4 - n) =~= Seq::new((4 - n) as nat, |i: int| 32u8));
    if n > 4 {
        assert(seq![10u8] + blanks(4 - n) =~= seq![10u8]);
    }
}

/// Each frame that is shown has a text of its own, in their order: its place with the line of the
/// source under it, or its place in words.
pub proof fn law_frame_texts(entries: Seq<FunctionSourceInfo>, shown: Seq<usize>, i: int)
    requires
        0 <= i < shown.len(),
    ensures
        frame_texts(entries, shown, true).len() == shown.len(),
        frame_texts(entries, shown, false).len() == shown.len(),
        frame_texts(entries, shown, true)[i] == place_text(entries[shown[i] as int], false)
            + snippet_text(entries[shown[i] as int]),
        frame_texts(entries, shown, false)[i] == place_text(entries[shown[i] as int], true),
{
}

/// Address 0 belongs to no function, and neither does one below all of them.
pub proof fn law_addresses_of_no_function(entries: Seq<FunctionSourceInfo>, ip: usize)
    requires
        entries.len() < usize::MAX,
    ensures
        frame_of(entries, 0) == usize::MAX,
        (forall|j: int| 0 <= j < entries.len() ==> (#[trigger] entries[j]).code_start > ip)
            ==> frame_of(entries, ip) == usize::MAX,
        ip > 0 && nearest(entries, ip, entries.len() as int) >= 0 ==> frame_of(entries, ip)
            == nearest(entries, ip, entries.len() as int),
{
    law_lookup_is_nearest(entries, ip, entries.len() as int);
}

} // verus!

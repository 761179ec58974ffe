//! DEFLATE compression and decompression.
//!
//! The `flate2` crate does the work: what comes of a step of one of its streams is a function of
//! the steps that it was given, which is named here and not described. What is decided here is
//! which part of the buffers a stream sees, what is reported of a step, and the size of the buffer
//! of a one-shot compression.

use crate::anon_object;
use crate::anon_object::{AnonStore, ShapeTable};
use crate::haxe_bytes;
use crate::haxe_bytes::HaxeBytes;
use crate::haxe_string;
use crate::haxe_string::HaxeString;
use crate::text;
use vstd::prelude::*;

verus! {

/// Layout number of the objects `{done: Bool, read: Int, write: Int}`.
pub const EXECUTE_RESULT_SHAPE_ID: u32 = 1001;

// ---------------------------------------------------------------------------
// The outside crate
// ---------------------------------------------------------------------------

#[verifier::external_type_specification]
#[verifier::external_body]
pub struct ExCompress(flate2::Compress);

#[verifier::external_type_specification]
#[verifier::external_body]
pub struct ExDecompress(flate2::Decompress);

/// How much of its output a compression stream writes at once.
#[derive(Clone, Copy, PartialEq, Eq, Structural, Debug)]
pub enum FlushMode {
    NoFlush,
    Sync,
    Full,
    Finish,
}

/// How much of its output a decompression stream writes at once.
#[derive(Clone, Copy, PartialEq, Eq, Structural, Debug)]
pub enum InflateMode {
    NoFlush,
    Sync,
    Finish,
}

/// A step of a stream: what it is given, its room for output, and how it flushes.
pub type Step<M> = (Seq<u8>, nat, M);

/// What comes of a step: whether the stream came to its end, the number of bytes it took, and the
/// bytes it gave.
pub type Outcome = (bool, nat, Seq<u8>);

/// What a stream did in a step: whether it came to its end, its counts of bytes taken and given
/// before and after, and the output buffer.
pub struct StepTotals {
    pub done: bool,
    pub in_before: u64,
    pub in_after: u64,
    pub out_before: u64,
    pub out_after: u64,
    pub buffer: Vec<u8>,
}

impl StepTotals {
    /// A step takes no more than it was given and gives no more than it has room for.
    pub open spec fn within(&self, given: nat, room: nat) -> bool {
        &&& self.in_before <= self.in_after <= self.in_before + given
        &&& self.out_before <= self.out_after <= self.out_before + room
        &&& self.buffer@.len() == room
    }

    /// What came of the step.
    pub open spec fn outcome(&self) -> Outcome {
        (
            self.done,
            (self.in_after - self.in_before) as nat,
            self.buffer@.take(self.out_after - self.out_before),
        )
    }
}

/// The steps that a compression stream was given so far.
pub uninterp spec fn deflate_steps(c: flate2::Compress) -> Seq<(Seq<u8>, nat, FlushMode)>;

/// The level that a compression stream was made with.
pub uninterp spec fn deflate_level(c: flate2::Compress) -> nat;

/// What comes of the last of these steps of `flate2::Compress::compress`, on a new stream with a
/// zlib header and this level.
pub uninterp spec fn deflated(
    level: nat,
    steps: Seq<(Seq<u8>, nat, FlushMode)>,
) -> (bool, nat, Seq<u8>);

/// The steps that a decompression stream was given so far.
pub uninterp spec fn inflate_steps(d: flate2::Decompress) -> Seq<(Seq<u8>, nat, InflateMode)>;

/// Whether a decompression stream expects a zlib header.
pub uninterp spec fn inflate_header(d: flate2::Decompress) -> bool;

/// What comes of the last of these steps of `flate2::Decompress::decompress`, on a new stream with
/// or without a zlib header.
pub uninterp spec fn inflated(
    header: bool,
    steps: Seq<(Seq<u8>, nat, InflateMode)>,
) -> (bool, nat, Seq<u8>);

/// What comes of compressing a whole text in one step that finishes the stream.
pub open spec fn deflated_whole(level: nat, plain: Seq<u8>, room: nat) -> Outcome {
    deflated(level, seq![(plain, room, FlushMode::Finish)])
}

/// Calls `flate2::Compress::new` with a zlib header: a stream of this level that was given
/// nothing.
#[verifier::external_body]
fn new_compress(level: u32) -> (c: flate2::Compress)
    requires
        level <= 9,
    ensures
        deflate_level(c) == level,
        deflate_steps(c) == Seq::<(Seq<u8>, nat, FlushMode)>::empty(),
{
    flate2::Compress::new(flate2::Compression::new(level), true)
}

/// Calls `flate2::Decompress::new`: a stream that was given nothing.
#[verifier::external_body]
fn new_decompress(zlib_header: bool) -> (d: flate2::Decompress)
    ensures
        inflate_header(d) == zlib_header,
        inflate_steps(d) == Seq::<(Seq<u8>, nat, InflateMode)>::empty(),
{
    flate2::Decompress::new(zlib_header)
}

/// Calls `flate2::Compress::compress` on an output buffer of `room` bytes, and reads
/// `total_in` and `total_out` before and after: what comes of the step depends on the stream's
/// level and on the steps up to this one. Both counts grow, by no more than the input and the
/// buffer have. What the bytes are is named and not described.
#[verifier::external_body]
fn deflate_step(
    stream: &mut flate2::Compress,
    input: &[u8],
    room: usize,
    flush: FlushMode,
) -> (t: StepTotals)
    ensures
        t.within(input@.len(), room as nat),
        deflate_level(*final(stream)) == deflate_level(*old(stream)),
        deflate_steps(*final(stream)) == deflate_steps(*old(stream)).push(
            (input@, room as nat, flush),
        ),
        t.outcome() == deflated(
            deflate_level(*old(stream)),
            deflate_steps(*old(stream)).push((input@, room as nat, flush)),
        ),
{
    let mut buffer = vec![0u8; room];
    let (in_before, out_before) = (stream.total_in(), stream.total_out());
    let mode = match flush {
        FlushMode::NoFlush => flate2::FlushCompress::None,
        FlushMode::Sync => flate2::FlushCompress::Sync,
        FlushMode::Full => flate2::FlushCompress::Full,
        FlushMode::Finish => flate2::FlushCompress::Finish,
    };
    let status = stream.compress(input, &mut buffer, mode);
    let done = matches!(status, Ok(flate2::Status::StreamEnd));
    let (in_after, out_after) = (stream.total_in(), stream.total_out());
    StepTotals { done, in_before, in_after, out_before, out_after, buffer }
}

/// Calls `flate2::Decompress::decompress` on an output buffer of `room` bytes, and reads
/// `total_in` and `total_out` before and after: what comes of the step depends on whether the
/// stream expects a zlib header and on the steps up to this one. Both counts grow, by no more than
/// the input and the buffer have. A new stream that expects a header and is to finish gives back
/// a text that was compressed in one step to the stream's end, where there is more room than the
/// text needs. What the bytes are otherwise is named and not described.
#[verifier::external_body]
fn inflate_step(
    stream: &mut flate2::Decompress,
    input: &[u8],
    room: usize,
    flush: InflateMode,
) -> (t: StepTotals)
    ensures
        t.within(input@.len(), room as nat),
        inflate_header(*final(stream)) == inflate_header(*old(stream)),
        inflate_steps(*final(stream)) == inflate_steps(*old(stream)).push(
            (input@, room as nat, flush),
        ),
        t.outcome() == inflated(
            inflate_header(*old(stream)),
            inflate_steps(*old(stream)).push((input@, room as nat, flush)),
        ),
        forall|level: nat, plain: Seq<u8>, size: nat|
            #![trigger deflated_whole(level, plain, size)]
            level <= 9 && deflated_whole(level, plain, size).0 && input@ == deflated_whole(
                level,
                plain,
                size,
            ).2 && inflate_header(*old(stream)) && inflate_steps(*old(stream)).len() == 0
                && flush is Finish && plain.len() < room ==> t.outcome() == (
                true,
                input@.len(),
                plain,
            ),
{
    let mut buffer = vec![0u8; room];
    let (in_before, out_before) = (stream.total_in(), stream.total_out());
    let mode = match flush {
        InflateMode::NoFlush => flate2::FlushDecompress::None,
        InflateMode::Sync => flate2::FlushDecompress::Sync,
        InflateMode::Finish => flate2::FlushDecompress::Finish,
    };
    let status = stream.decompress(input, &mut buffer, mode);
    let done = matches!(status, Ok(flate2::Status::StreamEnd));
    let (in_after, out_after) = (stream.total_in(), stream.total_out());
    StepTotals { done, in_before, in_after, out_before, out_after, buffer }
}

// ---------------------------------------------------------------------------
// Results of a step
// ---------------------------------------------------------------------------

/// What is reported of a step.
#[derive(Clone, Copy, PartialEq, Eq, Structural, Debug)]
pub struct ExecuteResult {
    pub done: bool,
    pub read: i64,
    pub write: i64,
}

/// Nothing was done.
pub open spec fn nothing_done() -> ExecuteResult {
    ExecuteResult { done: false, read: 0, write: 0 }
}

/// Whether a result reports what came of a step.
pub open spec fn reports(r: ExecuteResult, o: Outcome) -> bool {
    r.done == o.0 && r.read == o.1 && r.write == o.2.len()
}

/// The object `{done: Bool, read: Int, write: Int}`.
pub open spec fn result_object(r: ExecuteResult) -> anon_object::Obj {
    anon_object::obj_set_index(
        anon_object::obj_set_index(
            anon_object::obj_set_index(
                anon_object::new_obj(EXECUTE_RESULT_SHAPE_ID, 3),
                0,
                if r.done {
                    1
                } else {
                    0
                },
            ),
            1,
            r.read as u64,
        ),
        2,
        r.write as u64,
    )
}

/// Makes the object of a result, and its layout.
pub fn build_execute_result(
    store: &mut AnonStore,
    table: &mut ShapeTable,
    r: ExecuteResult,
) -> (handle: usize)
    requires
        old(store).wf(),
        anon_object::table_wf(old(table)@),
    ensures
        final(store).wf(),
        anon_object::table_wf(final(table)@),
        final(table)@ == anon_object::ensured(
            old(table)@,
            EXECUTE_RESULT_SHAPE_ID,
            text::lit("done:2,read:3,write:3"),
        ),
        handle != 0,
        old(store).at(handle) is None,
        final(store).at(handle) == Some(result_object(r)),
        forall|o: usize| o != handle ==> final(store).at(o) == old(store).at(o),
{
    let descriptor: HaxeString = haxe_string::haxe_string_from_bytes(
        Some("done:2,read:3,write:3".as_bytes()),
    );
    anon_object::rayzor_ensure_shape(table, EXECUTE_RESULT_SHAPE_ID, Some(&descriptor));
    let handle: usize = anon_object::rayzor_anon_new(store, EXECUTE_RESULT_SHAPE_ID, 3);
    let done: u64 = if r.done {
        1
    } else {
        0
    };
    let read: u64 = #[verifier::truncate]
    (r.read as u64);
    let write: u64 = #[verifier::truncate]
    (r.write as u64);
    anon_object::rayzor_anon_set_field_by_index(store, handle, 0, done);
    anon_object::rayzor_anon_set_field_by_index(store, handle, 1, read);
    anon_object::rayzor_anon_set_field_by_index(store, handle, 2, write);
    handle
}

/// A position that is not negative.
pub open spec fn start_of(pos: int) -> int {
    if pos > 0 {
        pos
    } else {
        0
    }
}

/// Puts what a step wrote into the target, and reports the step.
pub fn finish_step(dst: &mut HaxeBytes, dst_pos: usize, t: StepTotals) -> (r: ExecuteResult)
    requires
        old(dst).wf(),
        dst_pos <= old(dst)@.len() <= i64::MAX,
        exists|given: nat|
            given <= i64::MAX && #[trigger] t.within(given, (old(dst)@.len() - dst_pos) as nat),
    ensures
        final(dst).wf(),
        final(dst).cap == old(dst).cap,
        final(dst)@ == haxe_bytes::patched(old(dst)@, dst_pos as int, t.outcome().2),
        reports(r, t.outcome()),
{
    let written: u64 = t.out_after - t.out_before;
    let read: u64 = t.in_after - t.in_before;
    let n: usize = written as usize;
    let ghost before = dst@;
    let ghost given = t.outcome().2;
    let mut i: usize = 0;
    assert(dst@ =~= haxe_bytes::patched(before, dst_pos as int, given.take(0)));
    while i < n
        invariant
            i <= n == given.len(),
            n <= t.buffer@.len(),
            given == t.buffer@.take(n as int),
            dst_pos + n <= before.len(),
            before.len() == dst@.len(),
            dst.wf(),
            dst.cap == old(dst).cap,
            dst@ == haxe_bytes::patched(before, dst_pos as int, given.take(i as int)),
        decreases n - i,
    {
        dst.data.set(dst_pos + i, t.buffer[i]);
        i = i + 1;
        assert(dst@ =~= haxe_bytes::patched(before, dst_pos as int, given.take(i as int)));
    }
    assert(given.take(n as int) =~= given);
    ExecuteResult { done: t.done, read: read as i64, write: written as i64 }
}

// ---------------------------------------------------------------------------
// Compression
// ---------------------------------------------------------------------------

/// A compression stream and its flush mode.
pub struct CompressHandle {
    pub inner: flate2::Compress,
    pub flush: FlushMode,
}

/// Flush mode of a number: blocks are flushed as by a sync, and unknown modes do not flush.
pub open spec fn compress_mode(mode: i32) -> FlushMode {
    if mode == 1 || mode == 4 {
        FlushMode::Sync
    } else if mode == 2 {
        FlushMode::Full
    } else if mode == 3 {
        FlushMode::Finish
    } else {
        FlushMode::NoFlush
    }
}

/// Flush mode of a number.
pub fn to_flush_compress(mode: i32) -> (m: FlushMode)
    ensures
        m == compress_mode(mode),
{
    match mode {
        1 => FlushMode::Sync,
        2 => FlushMode::Full,
        3 => FlushMode::Finish,
        4 => FlushMode::Sync,
        _ => FlushMode::NoFlush,
    }
}

/// A level between 0 and 9.
pub open spec fn clamped_level(level: i32) -> u32 {
    if level < 0 {
        0
    } else if level > 9 {
        9
    } else {
        level as u32
    }
}

fn clamp_level(level: i32) -> (l: u32)
    ensures
        l == clamped_level(level),
        l <= 9,
{
    if level < 0 {
        0
    } else if level > 9 {
        9
    } else {
        level as u32
    }
}

/// A compression stream that does not flush.
pub fn rayzor_compress_new(level: i32) -> (h: CompressHandle)
    ensures
        h.flush is NoFlush,
        deflate_level(h.inner) == clamped_level(level),
        deflate_steps(h.inner).len() == 0,
{
    CompressHandle { inner: new_compress(clamp_level(level)), flush: FlushMode::NoFlush }
}

/// Sets the flush mode.
pub fn rayzor_compress_set_flush(handle: &mut CompressHandle, mode: i32)
    ensures
        final(handle).flush == compress_mode(mode),
        final(handle).inner == old(handle).inner,
{
    handle.flush = to_flush_compress(mode);
}

/// Whether there is anything to do: a source with something behind its position, and a target with
/// room behind its own.
pub open spec fn has_work(src: Option<&HaxeBytes>, src_pos: int, dst: Seq<u8>, dst_pos: int) -> bool {
    &&& src is Some
    &&& start_of(src_pos) < haxe_bytes::opt_bytes(src).len()
    &&& start_of(dst_pos) < dst.len()
}

/// The step that a stream is given: the source behind its position, and the room behind the
/// target's.
pub open spec fn step_for<M>(
    src: Option<&HaxeBytes>,
    src_pos: int,
    dst: Seq<u8>,
    dst_pos: int,
    flush: M,
) -> Step<M> {
    (
        haxe_bytes::opt_bytes(src).skip(start_of(src_pos)),
        (dst.len() - start_of(dst_pos)) as nat,
        flush,
    )
}

/// What came of a step stands in the target and is reported.
pub open spec fn step_done(
    before: Seq<u8>,
    after: Seq<u8>,
    dst_pos: int,
    o: Outcome,
    r: ExecuteResult,
) -> bool {
    &&& after == haxe_bytes::patched(before, start_of(dst_pos), o.2)
    &&& reports(r, o)
}

/// Compresses from a position of the source to a position of the target.
pub fn rayzor_compress_execute(
    handle: Option<&mut CompressHandle>,
    src: Option<&HaxeBytes>,
    src_pos: i32,
    dst: &mut HaxeBytes,
    dst_pos: i32,
) -> (r: ExecuteResult)
    requires
        src matches Some(s) ==> s@.len() <= i64::MAX,
        old(dst).wf(),
        old(dst)@.len() <= i64::MAX,
    ensures
        final(dst).wf(),
        match handle {
            Some(h) => {
                &&& (*final(h)).flush == (*h).flush
                &&& deflate_level((*final(h)).inner) == deflate_level((*h).inner)
                &&& if has_work(src, src_pos as int, old(dst)@, dst_pos as int) {
                    let step = step_for(
                        src,
                        src_pos as int,
                        old(dst)@,
                        dst_pos as int,
                        (*h).flush,
                    );
                    let steps = deflate_steps((*h).inner).push(step);
                    let o = deflated(deflate_level((*h).inner), steps);
                    &&& deflate_steps((*final(h)).inner) == steps
                    &&& step_done(old(dst)@, final(dst)@, dst_pos as int, o, r)
                    &&& o.1 <= step.0.len()
                    &&& o.2.len() <= step.1
                } else {
                    &&& *final(h) == *h
                    &&& final(dst)@ == old(dst)@
                    &&& r == nothing_done()
                }
            },
            None => final(dst)@ == old(dst)@ && r == nothing_done(),
        },
{
    let (h, s): (&mut CompressHandle, &HaxeBytes) = match (handle, src) {
        (Some(h), Some(s)) => (h, s),
        _ => {
            return ExecuteResult { done: false, read: 0, write: 0 };
        },
    };
    let from: usize = if src_pos > 0 {
        src_pos as usize
    } else {
        0
    };
    let to: usize = if dst_pos > 0 {
        dst_pos as usize
    } else {
        0
    };
    if from >= s.data.len() || to >= dst.data.len() {
        return ExecuteResult { done: false, read: 0, write: 0 };
    }
    let input: Vec<u8> = text::copy_range(s.data.as_slice(), from, s.data.len());
    let flush: FlushMode = h.flush;
    let t: StepTotals = deflate_step(
        &mut h.inner,
        input.as_slice(),
        dst.data.len() - to,
        flush,
    );
    assert(t.within(input@.len(), (dst@.len() - to) as nat));
    finish_step(dst, to, t)
}

/// Size of the first buffer of a one-shot compression.
pub open spec fn first_room(len: int) -> int {
    len + len / 100 + 64
}

/// Bytes of a one-shot compression: in the first buffer, or where the stream does not end in it in
/// one of twice the size.
pub open spec fn compressed(input: Seq<u8>, level: nat) -> Seq<u8> {
    let room = first_room(input.len() as int) as nat;
    let first = deflated_whole(level, input, room);
    if first.0 {
        first.2
    } else {
        deflated_whole(level, input, 2 * room).2
    }
}

/// What was written to a buffer, as bytes.
pub fn written_bytes(buffer: &Vec<u8>, written: usize) -> (b: HaxeBytes)
    requires
        written <= buffer@.len(),
    ensures
        b.wf(),
        b@ == buffer@.take(written as int),
        b.cap == haxe_bytes::new_cap(written as nat),
{
    let data: Vec<u8> = text::copy_range(buffer.as_slice(), 0, written);
    assert(data@ =~= buffer@.take(written as int));
    let cap: usize = if written < haxe_bytes::MINIMUM_CAPACITY {
        haxe_bytes::MINIMUM_CAPACITY
    } else {
        written
    };
    HaxeBytes { data, cap }
}

fn deflate_whole(input: &[u8], level: u32, room: usize) -> (t: StepTotals)
    requires
        level <= 9,
    ensures
        t.within(input@.len(), room as nat),
        t.outcome() == deflated_whole(level as nat, input@, room as nat),
{
    let mut stream: flate2::Compress = new_compress(level);
    proof {
        let step: Step<FlushMode> = (input@, room as nat, FlushMode::Finish);
        assert(Seq::<Step<FlushMode>>::empty().push(step) =~= seq![step]);
    }
    deflate_step(&mut stream, input, room, FlushMode::Finish)
}

/// Compresses a whole buffer; none for null.
pub fn rayzor_compress_run(src: Option<&HaxeBytes>, level: i32) -> (out: Option<HaxeBytes>)
    requires
        src matches Some(s) ==> 2 * first_room(s@.len() as int) <= usize::MAX,
    ensures
        match src {
            None => out is None,
            Some(s) => {
                &&& out is Some
                &&& out->Some_0.wf()
                &&& out->Some_0@ == compressed(s@, clamped_level(level) as nat)
            },
        },
{
    match src {
        None => None,
        Some(s) => {
            let l: u32 = clamp_level(level);
            let n: usize = s.data.len();
            let room: usize = n + n / 100 + 64;
            let first: StepTotals = deflate_whole(s.data.as_slice(), l, room);
            let t: StepTotals = if first.done {
                first
            } else {
                deflate_whole(s.data.as_slice(), l, room * 2)
            };
            let written: usize = (t.out_after - t.out_before) as usize;
            Some(written_bytes(&t.buffer, written))
        },
    }
}

// ---------------------------------------------------------------------------
// Decompression
// ---------------------------------------------------------------------------

/// A decompression stream and its flush mode.
pub struct UncompressHandle {
    pub inner: flate2::Decompress,
    pub flush: InflateMode,
}

/// Flush mode of a number: a full flush is a finish, and unknown modes do not flush.
pub open spec fn decompress_mode(mode: i32) -> InflateMode {
    if mode == 1 {
        InflateMode::Sync
    } else if mode == 2 || mode == 3 {
        InflateMode::Finish
    } else {
        InflateMode::NoFlush
    }
}

/// Flush mode of a number.
pub fn to_flush_decompress(mode: i32) -> (m: InflateMode)
    ensures
        m == decompress_mode(mode),
{
    match mode {
        1 => InflateMode::Sync,
        2 => InflateMode::Finish,
        3 => InflateMode::Finish,
        _ => InflateMode::NoFlush,
    }
}

/// Whether a stream has a zlib header, by its window bits: where they are positive.
pub fn zlib_header(window_bits: i32) -> (z: bool)
    ensures
        z == (window_bits > 0),
{
    window_bits > 0
}

/// A decompression stream that does not flush.
pub fn rayzor_uncompress_new(window_bits: i32) -> (h: UncompressHandle)
    ensures
        h.flush is NoFlush,
        inflate_header(h.inner) == (window_bits > 0),
        inflate_steps(h.inner).len() == 0,
{
    UncompressHandle { inner: new_decompress(zlib_header(window_bits)), flush: InflateMode::NoFlush }
}

/// Sets the flush mode.
pub fn rayzor_uncompress_set_flush(handle: &mut UncompressHandle, mode: i32)
    ensures
        final(handle).flush == decompress_mode(mode),
        final(handle).inner == old(handle).inner,
{
    handle.flush = to_flush_decompress(mode);
}

/// Decompresses from a position of the source to a position of the target.
pub fn rayzor_uncompress_execute(
    handle: Option<&mut UncompressHandle>,
    src: Option<&HaxeBytes>,
    src_pos: i32,
    dst: &mut HaxeBytes,
    dst_pos: i32,
) -> (r: ExecuteResult)
    requires
        src matches Some(s) ==> s@.len() <= i64::MAX,
        old(dst).wf(),
        old(dst)@.len() <= i64::MAX,
    ensures
        final(dst).wf(),
        match handle {
            Some(h) => {
                &&& (*final(h)).flush == (*h).flush
                &&& inflate_header((*final(h)).inner) == inflate_header((*h).inner)
                &&& if has_work(src, src_pos as int, old(dst)@, dst_pos as int) {
                    let step = step_for(
                        src,
                        src_pos as int,
                        old(dst)@,
                        dst_pos as int,
                        (*h).flush,
                    );
                    let steps = inflate_steps((*h).inner).push(step);
                    let o = inflated(inflate_header((*h).inner), steps);
                    &&& inflate_steps((*final(h)).inner) == steps
                    &&& step_done(old(dst)@, final(dst)@, dst_pos as int, o, r)
                    &&& o.1 <= step.0.len()
                    &&& o.2.len() <= step.1
                } else {
                    &&& *final(h) == *h
                    &&& final(dst)@ == old(dst)@
                    &&& r == nothing_done()
                }
            },
            None => final(dst)@ == old(dst)@ && r == nothing_done(),
        },
        handle matches Some(h) ==> forall|level: nat, plain: Seq<u8>, size: nat|
            #![trigger deflated_whole(level, plain, size)]
            level <= 9 && deflated_whole(level, plain, size).0 && has_work(
                src,
                src_pos as int,
                old(dst)@,
                dst_pos as int,
            ) && haxe_bytes::opt_bytes(src).skip(start_of(src_pos as int)) == deflated_whole(
                level,
                plain,
                size,
            ).2 && inflate_header((*h).inner) && inflate_steps((*h).inner).len() == 0
                && (*h).flush is Finish && plain.len() < old(dst)@.len() - start_of(dst_pos as int)
                ==> step_done(
                old(dst)@,
                final(dst)@,
                dst_pos as int,
                (true, (haxe_bytes::opt_bytes(src).len() - start_of(src_pos as int)) as nat, plain),
                r,
            ),
{
    let (h, s): (&mut UncompressHandle, &HaxeBytes) = match (handle, src) {
        (Some(h), Some(s)) => (h, s),
        _ => {
            return ExecuteResult { done: false, read: 0, write: 0 };
        },
    };
    let from: usize = if src_pos > 0 {
        src_pos as usize
    } else {
        0
    };
    let to: usize = if dst_pos > 0 {
        dst_pos as usize
    } else {
        0
    };
    if from >= s.data.len() || to >= dst.data.len() {
        return ExecuteResult { done: false, read: 0, write: 0 };
    }
    let input: Vec<u8> = text::copy_range(s.data.as_slice(), from, s.data.len());
    let flush: InflateMode = h.flush;
    let t: StepTotals = inflate_step(
        &mut h.inner,
        input.as_slice(),
        dst.data.len() - to,
        flush,
    );
    assert(t.within(input@.len(), (dst@.len() - to) as nat));
    finish_step(dst, to, t)
}

/// The numbers of the flush modes: 0 none, 1 sync, 2 full, 3 finish and 4 block, of which the last
/// counts as a sync; decompression has no full flush and finishes for it. Other numbers do not flush.
pub proof fn law_flush_modes(mode: i32)
    ensures
        compress_mode(0) is NoFlush && decompress_mode(0) is NoFlush,
        compress_mode(1) is Sync && decompress_mode(1) is Sync,
        compress_mode(2) is Full && decompress_mode(2) is Finish,
        compress_mode(3) is Finish && decompress_mode(3) is Finish,
        compress_mode(4) is Sync && decompress_mode(4) is NoFlush,
        mode < 0 || mode > 4 ==> compress_mode(mode) is NoFlush && decompress_mode(mode) is NoFlush,
{
}

/// Levels reach from 0 to 9, and others count as the nearest of them.
pub proof fn law_levels(level: i32)
    ensures
        clamped_level(level) == vstd::math::max(0, vstd::math::min(level as int, 9)),
{
}

/// A step is given all of the source behind its position and has all of the target behind its own
/// as room; there is nothing to do where either is empty.
pub proof fn law_steps_take_what_is_left<M>(
    src: &HaxeBytes,
    src_pos: int,
    dst: Seq<u8>,
    dst_pos: int,
    flush: M,
    i: int,
)
    requires
        0 <= src_pos,
        0 <= dst_pos,
    ensures
        has_work(Some(src), src_pos, dst, dst_pos) <==> src_pos < src@.len() && dst_pos < dst.len(),
        !has_work(None, src_pos, dst, dst_pos),
        src_pos < src@.len() && dst_pos < dst.len() ==> {
            let step = step_for(Some(src), src_pos, dst, dst_pos, flush);
            &&& step.0.len() == src@.len() - src_pos
            &&& 0 <= i < step.0.len() ==> step.0[i] == src@[src_pos + i]
            &&& step.1 == dst.len() - dst_pos
            &&& step.2 == flush
        },
        step_for(Some(src), -src_pos, dst, -dst_pos, flush) == step_for(Some(src), 0, dst, 0, flush),
{
}

/// What came of a step stands in the target from its position on, and the rest of it is as it was.
pub proof fn law_step_writes_its_output(
    before: Seq<u8>,
    after: Seq<u8>,
    pos: int,
    o: Outcome,
    r: ExecuteResult,
    i: int,
)
    requires
        step_done(before, after, pos, o, r),
        0 <= pos,
        pos + o.2.len() <= before.len(),
        0 <= i < before.len(),
    ensures
        after.len() == before.len(),
        pos <= i < pos + o.2.len() ==> after[i] == o.2[i - pos],
        i < pos || i >= pos + o.2.len() ==> after[i] == before[i],
        r.done == o.0,
        r.read == o.1,
        r.write == o.2.len(),
{
}

/// The first buffer of a one-shot compression has room for a hundredth more than the input and for
/// 64 bytes.
pub proof fn law_first_room(len: int)
    requires
        0 <= len,
    ensures
        100 * (first_room(len) - len - 64) <= len < 100 * (first_room(len) - len - 63),
{
}

/// The object that reports a step has three fields: whether it is done as 0 or 1, what was read and
/// what was written.
pub proof fn law_result_objects(r: ExecuteResult)
    requires
        r.read >= 0,
        r.write >= 0,
    ensures
        anon_object::obj_get_index(result_object(r), 0) == if r.done {
            1int
        } else {
            0
        },
        anon_object::obj_get_index(result_object(r), 1) == r.read,
        anon_object::obj_get_index(result_object(r), 2) == r.write,
        result_object(r).fields is Inline,
        result_object(r).fields->Inline_0.len() == 3,
        result_object(r).shape_id == 1001,
{
}

/// A one-shot compression that does not end in its first buffer is done again in one of twice the
/// size.
pub proof fn law_compression_grows_once(input: Seq<u8>, level: nat)
    ensures
        ({
            let room = (input.len() + input.len() / 100 + 64) as nat;
            let first = deflated(level, seq![(input, room, FlushMode::Finish)]);
            let second = deflated(level, seq![(input, 2 * room, FlushMode::Finish)]);
            &&& first.0 ==> compressed(input, level) == first.2
            &&& !first.0 ==> compressed(input, level) == second.2
        }),
{
}

} // verus!

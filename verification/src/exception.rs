//! Exceptions of compiled code.
//!
//! A thread keeps a stack of handlers. Throwing an exception notes it and continues at the
//! innermost handler; without a handler the program ends with a report.

use crate::anon_object;
use crate::anon_object::{TYPE_BOOL, TYPE_FLOAT, TYPE_INT, TYPE_STRING};
use crate::haxe_string::HaxeString;
use crate::native_stack_trace;
use crate::native_stack_trace::{FunctionRegistry, StackTraces};
use crate::text;
use vstd::prelude::*;

verus! {

/// Type number of an exception of which no type is known.
pub const TYPE_DYNAMIC: u32 = 5;

/// Type numbers of thrown class instances start here.
pub const TYPE_USER_START: u32 = 1000;

/// Addresses below this are no strings.
pub const LOWEST_STRING_ADDRESS: u64 = 0x10000;

/// Exception state of a thread.
pub struct ExceptionState {
    /// Number of handlers; the innermost is the last.
    pub handlers: usize,
    pub current_exception: i64,
    pub current_exception_type_id: u32,
    pub current_stack_trace: Vec<u8>,
    /// Messages of exceptions that the runtime threw itself; such an exception's value is the
    /// position of its message, from 1.
    pub messages: Vec<HaxeString>,
}

/// Where execution goes on after an exception was thrown.
#[derive(Clone, Copy, PartialEq, Eq, Structural, Debug)]
pub enum ThrowStep {
    /// At this handler.
    Jump(usize),
    /// Nowhere: it is reported and the program ends.
    Uncaught,
}

impl ExceptionState {
    /// No handler and no exception.
    pub fn new() -> (s: ExceptionState)
        ensures
            s.handlers == 0,
            s.current_exception == 0,
            s.current_exception_type_id == TYPE_DYNAMIC,
            s.current_stack_trace@ == Seq::<u8>::empty(),
            s.messages@.len() == 0,
    {
        let s = ExceptionState {
            handlers: 0,
            current_exception: 0,
            current_exception_type_id: TYPE_DYNAMIC,
            current_stack_trace: Vec::new(),
            messages: Vec::new(),
        };
        assert(s.current_stack_trace@ =~= Seq::empty());
        s
    }

    /// The handler stack stays; what changes is the exception.
    pub open spec fn same_handlers(&self, other: &ExceptionState) -> bool {
        self.handlers == other.handlers
    }
}

/// How many handlers there are after a protected block was entered.
pub open spec fn entered(handlers: int) -> int {
    handlers + 1
}

/// How many handlers there are after a protected block was left.
pub open spec fn left(handlers: int) -> int {
    if handlers > 0 {
        handlers - 1
    } else {
        0
    }
}

/// Adds a handler; its number.
pub fn rayzor_exception_push_handler(state: &mut ExceptionState) -> (handler: usize)
    requires
        old(state).handlers < usize::MAX,
    ensures
        handler == old(state).handlers,
        final(state).handlers == entered(old(state).handlers as int),
        final(state).current_exception == old(state).current_exception,
        final(state).current_exception_type_id == old(state).current_exception_type_id,
        final(state).current_stack_trace@ == old(state).current_stack_trace@,
        final(state).messages@ == old(state).messages@,
{
    let handler: usize = state.handlers;
    state.handlers = handler + 1;
    handler
}

/// Removes the innermost handler, if there is one.
pub fn rayzor_exception_pop_handler(state: &mut ExceptionState)
    ensures
        final(state).handlers == left(old(state).handlers as int),
        final(state).current_exception == old(state).current_exception,
        final(state).current_exception_type_id == old(state).current_exception_type_id,
        final(state).current_stack_trace@ == old(state).current_stack_trace@,
        final(state).messages@ == old(state).messages@,
{
    if state.handlers > 0 {
        state.handlers = state.handlers - 1;
    }
}

/// What is noted of a thrown exception.
pub open spec fn thrown(
    state: ExceptionState,
    value: i64,
    type_id: u32,
    traces: StackTraces,
    registry: FunctionRegistry,
) -> bool {
    &&& state.current_exception == value
    &&& state.current_exception_type_id == type_id
    &&& state.current_stack_trace@ == if traces.enabled {
        native_stack_trace::shadow_trace(registry.entries@, traces.shadow@)
    } else {
        Seq::empty()
    }
}

/// Where execution goes on: at the innermost handler.
pub open spec fn throw_step(handlers: int) -> ThrowStep {
    if handlers > 0 {
        ThrowStep::Jump((handlers - 1) as usize)
    } else {
        ThrowStep::Uncaught
    }
}

/// Throws an exception of which no type is known.
pub fn rayzor_throw(
    state: &mut ExceptionState,
    exception_value: i64,
    traces: &StackTraces,
    registry: &FunctionRegistry,
) -> (step: ThrowStep)
    ensures
        thrown(*final(state), exception_value, TYPE_DYNAMIC, *traces, *registry),
        final(state).same_handlers(old(state)),
        final(state).messages@ == old(state).messages@,
        step == throw_step(old(state).handlers as int),
{
    rayzor_throw_typed(state, exception_value, TYPE_DYNAMIC, traces, registry)
}

/// Throws an exception.
pub fn rayzor_throw_typed(
    state: &mut ExceptionState,
    exception_value: i64,
    type_id: u32,
    traces: &StackTraces,
    registry: &FunctionRegistry,
) -> (step: ThrowStep)
    ensures
        thrown(*final(state), exception_value, type_id, *traces, *registry),
        final(state).same_handlers(old(state)),
        final(state).messages@ == old(state).messages@,
        step == throw_step(old(state).handlers as int),
{
    state.current_exception = exception_value;
    state.current_exception_type_id = type_id;
    state.current_stack_trace =
    native_stack_trace::rayzor_native_stack_trace_call_stack(traces, registry);
    if state.handlers > 0 {
        ThrowStep::Jump(state.handlers - 1)
    } else {
        ThrowStep::Uncaught
    }
}

/// Throws an exception that is a message of the runtime.
pub fn throw_with_message(
    state: &mut ExceptionState,
    msg: Vec<u8>,
    traces: &StackTraces,
    registry: &FunctionRegistry,
) -> (step: ThrowStep)
    requires
        msg@.len() < usize::MAX,
        old(state).messages@.len() < i64::MAX,
    ensures
        final(state).messages@.len() == old(state).messages@.len() + 1,
        final(state).messages@.drop_last() == old(state).messages@,
        final(state).messages@.last()@ == msg@,
        thrown(
            *final(state),
            (old(state).messages@.len() + 1) as i64,
            TYPE_STRING,
            *traces,
            *registry,
        ),
        final(state).same_handlers(old(state)),
        step == throw_step(old(state).handlers as int),
{
    let ghost before = state.messages@;
    state.messages.push(native_stack_trace::make_haxe_string(msg));
    assert(state.messages@.drop_last() =~= before);
    let value: i64 = state.messages.len() as i64;
    rayzor_throw_typed(state, value, TYPE_STRING, traces, registry)
}

/// Value of the exception that was thrown last.
pub fn rayzor_get_exception(state: &ExceptionState) -> (value: i64)
    ensures
        value == state.current_exception,
{
    state.current_exception
}

/// Type number of the exception that was thrown last.
pub fn rayzor_get_exception_type_id(state: &ExceptionState) -> (type_id: u32)
    ensures
        type_id == state.current_exception_type_id,
{
    state.current_exception_type_id
}

/// Trace of the exception that was thrown last.
pub fn get_exception_stack_trace(state: &ExceptionState) -> (trace: Vec<u8>)
    ensures
        trace@ == state.current_stack_trace@,
{
    text::copy_all(state.current_stack_trace.as_slice())
}

/// Trace of the exception that was thrown last, as a string.
pub fn rayzor_native_stack_trace_exception_stack(state: &ExceptionState) -> (s: HaxeString)
    requires
        state.current_stack_trace@.len() < usize::MAX,
    ensures
        s.terminated(state.current_stack_trace@),
        s.cap == state.current_stack_trace@.len() + 1,
{
    native_stack_trace::make_haxe_string(get_exception_stack_trace(state))
}

// ---------------------------------------------------------------------------
// Reports
// ---------------------------------------------------------------------------

/// Number of the type itself for the number that it is thrown under.
pub open spec fn normalized(type_id: u32) -> u32 {
    if type_id >= TYPE_USER_START {
        (type_id - TYPE_USER_START) as u32
    } else {
        type_id
    }
}

/// Number of the type itself for the number that it is thrown under.
pub fn normalize_thrown_type_id(type_id: u32) -> (raw: u32)
    ensures
        raw == normalized(type_id),
{
    if type_id >= TYPE_USER_START {
        type_id - TYPE_USER_START
    } else {
        type_id
    }
}

/// Text of a string; none for null.
pub open spec fn string_text(s: Option<&HaxeString>) -> Option<Seq<u8>> {
    match s {
        Some(h) => Some(anon_object::lossy_bytes(h@)),
        None => None,
    }
}

/// Text of a string; none for null.
pub fn read_haxe_string(s: Option<&HaxeString>) -> (out: Option<Vec<u8>>)
    ensures
        match out {
            Some(v) => string_text(s) == Some(v@),
            None => string_text(s) is None,
        },
{
    match s {
        Some(h) => Some(anon_object::utf8_lossy(h.bytes())),
        None => None,
    }
}

/// First position of a name in a list from position `i` on; -1 where it is not there.
pub open spec fn position_of(names: Seq<Seq<u8>>, name: Seq<u8>, i: int) -> int
    decreases names.len() - i,
{
    if i < 0 || i >= names.len() {
        -1
    } else if names[i] == name {
        i
    } else {
        position_of(names, name, i + 1)
    }
}

/// Word of an object that holds its `message`, by the names of the class's fields: behind the
/// header word, which may or may not be listed as a field.
pub open spec fn message_slot_spec(fields: Seq<Seq<u8>>) -> Option<int> {
    let i = position_of(fields, text::lit("message"), 0);
    if i < 0 {
        None
    } else if fields[0] == text::lit("__type_id") {
        Some(i)
    } else {
        Some(i + 1)
    }
}

/// Word of an object that holds its `message`.
pub fn message_slot(fields: &Vec<Vec<u8>>) -> (slot: Option<usize>)
    requires
        fields@.len() < usize::MAX,
    ensures
        match slot {
            Some(i) => message_slot_spec(text::views(fields@)) == Some(i as int),
            None => message_slot_spec(text::views(fields@)) is None,
        },
{
    let ghost names = text::views(fields@);
    let mut i: usize = 0;
    while i < fields.len()
        invariant
            i <= fields@.len() < usize::MAX,
            names == text::views(fields@),
            position_of(names, text::lit("message"), 0) == position_of(
                names,
                text::lit("message"),
                i as int,
            ),
        decreases fields@.len() - i,
    {
        if text::equal(fields[i].as_slice(), "message".as_bytes()) {
            if text::equal(fields[0].as_slice(), "__type_id".as_bytes()) {
                return Some(i);
            }
            return Some(i + 1);
        }
        i = i + 1;
    }
    None
}

/// Whether an object looks like an exception: its header word is the type, and its next word can
/// be the address of a string.
pub fn looks_like_exception(
    exception_value: i64,
    raw_type_id: u32,
    header_word: i64,
    message_word: u64,
) -> (r: bool)
    ensures
        r == (exception_value != 0 && header_word as u32 == raw_type_id && message_word
            >= LOWEST_STRING_ADDRESS),
{
    let header: u32 = #[verifier::truncate]
    (header_word as u32);
    exception_value != 0 && header == raw_type_id && message_word >= LOWEST_STRING_ADDRESS
}

/// Report of an exception's message.
pub open spec fn quoted_message(msg: Seq<u8>) -> Seq<u8> {
    text::lit("Exception: \"") + msg + seq![34u8]
}

/// Text of an uncaught exception. For an instance of a class it is its message, found by the
/// class or by the layout of exceptions; for a string the string, boxed or not; for a number or a
/// truth value its text; for anything else its value.
pub open spec fn uncaught_text(
    value: i64,
    type_id: u32,
    class_message: Option<Seq<u8>>,
    slot_message: Option<Seq<u8>>,
    boxed: Option<Seq<u8>>,
    plain: Option<Seq<u8>>,
    float_text: Seq<u8>,
) -> Seq<u8> {
    let raw = normalized(type_id);
    if type_id >= TYPE_USER_START && value != 0 && class_message is Some {
        quoted_message(class_message->Some_0)
    } else if type_id >= TYPE_USER_START && value != 0 && slot_message is Some {
        quoted_message(slot_message->Some_0)
    } else if raw == TYPE_STRING && value != 0 && boxed is Some {
        boxed->Some_0
    } else if raw == TYPE_STRING && value != 0 && plain is Some {
        plain->Some_0
    } else if raw == TYPE_BOOL {
        if value != 0 {
            text::lit("true")
        } else {
            text::lit("false")
        }
    } else if raw == TYPE_FLOAT {
        float_text
    } else {
        text::dec_int(value as int)
    }
}

fn quote_message(msg: &Vec<u8>) -> (out: Vec<u8>)
    ensures
        out@ == quoted_message(msg@),
{
    let mut out: Vec<u8> = Vec::new();
    text::append_str(&mut out, "Exception: \"");
    text::append(&mut out, msg.as_slice());
    out.push(34);
    assert(out@ =~= quoted_message(msg@));
    out
}

/// Text of an uncaught exception. The strings are what was found at the exception's value: the
/// `message` by its class, the message by the layout of exceptions, the string that it boxes, and
/// the string that it is; `float_text` is the value as a floating-point number.
pub fn format_uncaught_exception(
    exception_value: i64,
    thrown_type_id: u32,
    class_message: Option<&HaxeString>,
    slot_message: Option<&HaxeString>,
    boxed: Option<&HaxeString>,
    plain: Option<&HaxeString>,
    float_text: &[u8],
) -> (out: Vec<u8>)
    ensures
        out@ == uncaught_text(
            exception_value,
            thrown_type_id,
            string_text(class_message),
            string_text(slot_message),
            string_text(boxed),
            string_text(plain),
            float_text@,
        ),
{
    let raw: u32 = normalize_thrown_type_id(thrown_type_id);
    if thrown_type_id >= TYPE_USER_START && exception_value != 0 {
        match read_haxe_string(class_message) {
            Some(msg) => {
                return quote_message(&msg);
            },
            None => {},
        }
        match read_haxe_string(slot_message) {
            Some(msg) => {
                return quote_message(&msg);
            },
            None => {},
        }
    }
    if raw == TYPE_STRING && exception_value != 0 {
        match read_haxe_string(boxed) {
            Some(msg) => {
                return msg;
            },
            None => {},
        }
        match read_haxe_string(plain) {
            Some(msg) => {
                return msg;
            },
            None => {},
        }
    }
    if raw == TYPE_INT {
        return text::decimal(exception_value);
    }
    if raw == TYPE_BOOL {
        return if exception_value != 0 {
            text::copy_all("true".as_bytes())
        } else {
            text::copy_all("false".as_bytes())
        };
    }
    if raw == TYPE_FLOAT {
        return text::copy_all(float_text);
    }
    text::decimal(exception_value)
}

/// What is printed for an uncaught exception: its text, and its trace where there is one.
pub fn uncaught_report(state: &ExceptionState, formatted: &[u8]) -> (out: Vec<u8>)
    ensures
        out@ == text::lit("Uncaught exception: ") + formatted@ + seq![10u8] + if
            state.current_stack_trace@.len() > 0 {
            state.current_stack_trace@.push(10)
        } else {
            Seq::empty()
        },
{
    let mut out: Vec<u8> = Vec::new();
    text::append_str(&mut out, "Uncaught exception: ");
    text::append(&mut out, formatted);
    out.push(10);
    let ghost head = out@;
    assert(head =~= text::lit("Uncaught exception: ") + formatted@ + seq![10u8]);
    if state.current_stack_trace.len() > 0 {
        text::append(&mut out, state.current_stack_trace.as_slice());
        out.push(10);
        assert(out@ =~= head + state.current_stack_trace@.push(10));
    } else {
        assert(out@ =~= head + Seq::<u8>::empty());
    }
    out
}

/// Whether a handler for one type takes an exception of another: where the two are the same, and
/// where both are classes and the thrown one descends from the other. `descends` answers that for
/// the numbers of the classes themselves.
pub fn rayzor_exception_type_matches<F: Fn(i64, i64) -> bool>(
    actual_type_id: i32,
    expected_type_id: i32,
    descends: F,
) -> (r: i32)
    requires
        forall|a: i64, b: i64| call_requires(descends, (a, b)),
    ensures
        r == 0 || r == 1,
        actual_type_id == expected_type_id ==> r == 1,
        actual_type_id != expected_type_id && (actual_type_id < TYPE_USER_START || expected_type_id
            < TYPE_USER_START) ==> r == 0,
        actual_type_id != expected_type_id && actual_type_id >= TYPE_USER_START && expected_type_id
            >= TYPE_USER_START ==> call_ensures(
            descends,
            ((actual_type_id - 1000) as i64, (expected_type_id - 1000) as i64),
            r == 1,
        ),
{
    if actual_type_id == expected_type_id {
        return 1;
    }
    if actual_type_id < 1000 || expected_type_id < 1000 {
        return 0;
    }
    let actual: i64 = (actual_type_id - 1000) as i64;
    let expected: i64 = (expected_type_id - 1000) as i64;
    if descends(actual, expected) {
        1
    } else {
        0
    }
}

/// Entering and leaving a protected block leaves the handlers as they were. An exception inside
/// it goes to its handler, and one behind it goes where it would have gone before the block.
pub proof fn law_handlers_nest(handlers: int)
    requires
        0 <= handlers < usize::MAX,
    ensures
        left(entered(handlers)) == handlers,
        throw_step(entered(handlers)) == ThrowStep::Jump(handlers as usize),
        throw_step(left(entered(handlers))) == throw_step(handlers),
        throw_step(0) is Uncaught,
        left(0) == 0,
{
}

/// Types of the program are thrown under numbers from 1000 on.
pub proof fn law_type_numbers(n: u32)
    ensures
        n < 1000 ==> normalized(n) == n,
        n >= 1000 ==> normalized(n) == n - 1000,
{
}

/// A thrown exception goes to the handler that was entered last, and to none where there is none.
pub proof fn law_innermost_handler_catches(handlers: int)
    requires
        0 <= handlers < usize::MAX,
    ensures
        throw_step(entered(handlers)) == ThrowStep::Jump(handlers as usize),
        throw_step(0) == ThrowStep::Uncaught,
        left(entered(handlers)) == handlers,
        left(0) == 0,
{
}

/// A message stands in the word of the field `message`, counted from the first field; there is a
/// word for the header before them unless it is listed as the first field.
pub proof fn law_message_word(fields: Seq<Seq<u8>>, k: int)
    requires
        0 <= k < fields.len(),
        fields[k] == text::lit("message"),
        forall|j: int| 0 <= j < k ==> fields[j] != text::lit("message"),
    ensures
        fields[0] == text::lit("__type_id") ==> message_slot_spec(fields) == Some(k),
        fields[0] != text::lit("__type_id") ==> message_slot_spec(fields) == Some(k + 1),
{
    lemma_position(fields, text::lit("message"), 0, k);
}

proof fn lemma_position(names: Seq<Seq<u8>>, name: Seq<u8>, i: int, k: int)
    requires
        0 <= i <= k < names.len(),
        names[k] == name,
        forall|j: int| i <= j < k ==> names[j] != name,
    ensures
        position_of(names, name, i) == k,
    decreases k - i,
{
    if i < k {
        lemma_position(names, name, i + 1, k);
    }
}

/// What is reported of an uncaught exception: the message of an instance in quotes, a string as it
/// is, a truth value by its name, and an integer in decimal.
pub proof fn law_uncaught_texts(
    value: i64,
    n: u32,
    message: Seq<u8>,
    other: Option<Seq<u8>>,
    boxed: Option<Seq<u8>>,
    plain: Option<Seq<u8>>,
    float_text: Seq<u8>,
)
    ensures
        n >= 1000 && value != 0 ==> uncaught_text(
            value,
            n,
            Some(message),
            other,
            boxed,
            plain,
            float_text,
        ) == text::lit("Exception: \"") + message + seq![34u8],
        n >= 1000 && value != 0 ==> uncaught_text(
            value,
            n,
            None,
            Some(message),
            boxed,
            plain,
            float_text,
        ) == text::lit("Exception: \"") + message + seq![34u8],
        value != 0 ==> uncaught_text(value, 5, other, other, Some(message), plain, float_text)
            == message,
        value != 0 ==> uncaught_text(value, 5, other, other, None, Some(message), float_text)
            == message,
        uncaught_text(0, 2, other, other, boxed, plain, float_text) == seq![
            102u8,
            97,
            108,
            115,
            101,
        ],
        value != 0 ==> uncaught_text(value, 2, other, other, boxed, plain, float_text) == seq![
            116u8,
            114,
            117,
            101,
        ],
        uncaught_text(value, 3, other, other, boxed, plain, float_text) == text::dec_int(
            value as int,
        ),
        uncaught_text(value, 4, other, other, boxed, plain, float_text) == float_text,
{
    crate::json::lemma_literals();
}

} // verus!

//! Reports of runtime panics, which become exceptions of compiled code.

use crate::text;
use vstd::prelude::*;

verus! {

/// Text of a panic: its message where it has one, and the trace where there is one.
pub open spec fn panic_text(message: Option<Seq<u8>>, trace: Seq<u8>) -> Seq<u8> {
    let head = text::lit("Runtime panic: ") + match message {
        Some(m) => m,
        None => text::lit("unknown panic"),
    };
    if trace.len() == 0 {
        head
    } else {
        head + seq![10u8] + trace
    }
}

/// Text of a panic.
pub fn panic_report(message: Option<&[u8]>, trace: &[u8]) -> (out: Vec<u8>)
    ensures
        out@ == panic_text(
            match message {
                Some(m) => Some(m@),
                None => None,
            },
            trace@,
        ),
{
    let mut out: Vec<u8> = Vec::new();
    text::append_str(&mut out, "Runtime panic: ");
    match message {
        Some(m) => text::append(&mut out, m),
        None => text::append_str(&mut out, "unknown panic"),
    }
    let ghost head = out@;
    assert(head =~= text::lit("Runtime panic: ") + match message {
        Some(m) => m@,
        None => text::lit("unknown panic"),
    });
    if trace.len() > 0 {
        out.push(10);
        text::append(&mut out, trace);
        assert(out@ =~= head + seq![10u8] + trace@);
    }
    out
}

/// What a guarded call comes to: the result where the call returned, else the text of its panic.
pub fn guarded_outcome<R>(outcome: Result<R, Option<Vec<u8>>>, trace: &[u8]) -> (r: Result<
    R,
    Vec<u8>,
>)
    ensures
        match outcome {
            Ok(v) => r == Ok::<R, Vec<u8>>(v),
            Err(message) => r is Err && r->Err_0@ == panic_text(
                match message {
                    Some(m) => Some(m@),
                    None => None,
                },
                trace@,
            ),
        },
{
    match outcome {
        Ok(v) => Ok(v),
        Err(message) => match message {
            Some(m) => Err(panic_report(Some(m.as_slice()), trace)),
            None => Err(panic_report(None, trace)),
        },
    }
}

/// A panic is reported with its message, and with the trace on lines of its own where there is one.
pub proof fn law_panic_texts(message: Seq<u8>, trace: Seq<u8>)
    ensures
        panic_text(Some(message), Seq::empty()) == text::lit("Runtime panic: ") + message,
        panic_text(None, Seq::empty()) == text::lit("Runtime panic: ") + text::lit("unknown panic"),
        trace.len() > 0 ==> panic_text(Some(message), trace) == panic_text(
            Some(message),
            Seq::empty(),
        ) + seq![10u8] + trace,
        trace.len() > 0 ==> panic_text(None, trace) == panic_text(None, Seq::empty()) + seq![10u8]
            + trace,
{
}

} // verus!

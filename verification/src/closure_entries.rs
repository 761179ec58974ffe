//! Alternate entry points of closures, and methods by name.
//!
//! A closure is a record of code and environment. Callers that do not know its types look up, by
//! its code, an entry whose arguments and result are all 64-bit slots, or all dynamic values.

use crate::anon_object;
use crate::anon_object::BoxedValue;
use crate::floats;
use crate::haxe_string::HaxeString;
use crate::text;
use std::collections::HashMap;
use vstd::prelude::*;

verus! {

broadcast use vstd::std_specs::hash::group_hash_axioms;

/// Entries of a closure; 0 where there is none.
#[derive(Clone, Copy)]
pub struct Entries {
    pub slot: usize,
    pub dynamic: usize,
}

/// Entries by the code of closures.
pub struct ClosureEntries {
    pub map: HashMap<usize, Entries>,
}

/// A method that is bound to its receiver by its environment.
pub struct MethodEntry {
    pub type_id: u32,
    pub name: Vec<u8>,
    pub code: usize,
}

/// Registered methods; of several with the same class and name the last one counts.
pub struct Methods {
    pub list: Vec<MethodEntry>,
}

/// A closure: its code and its environment.
#[derive(Clone, Copy, PartialEq, Eq, Structural, Debug)]
pub struct ClosureRecord {
    pub code: usize,
    pub env: usize,
}

/// Code of a closure; 0 for a null closure.
pub open spec fn record_code(r: Option<ClosureRecord>) -> usize {
    match r {
        Some(c) => c.code,
        None => 0,
    }
}

fn code_of(r: Option<ClosureRecord>) -> (code: usize)
    ensures
        code == record_code(r),
{
    match r {
        Some(c) => c.code,
        None => 0,
    }
}

/// Entries of a closure by its code.
pub open spec fn entries_of(map: Map<usize, Entries>, code: usize) -> Entries {
    if map.contains_key(code) {
        map[code]
    } else {
        Entries { slot: 0, dynamic: 0 }
    }
}

/// The entries after some of a closure were registered: 0 leaves an entry as it is, and a closure
/// without code is not registered.
pub open spec fn registered(
    map: Map<usize, Entries>,
    code: usize,
    slot: usize,
    dynamic: usize,
) -> Map<usize, Entries> {
    if code == 0 {
        map
    } else {
        let was = entries_of(map, code);
        map.insert(
            code,
            Entries {
                slot: if slot != 0 {
                    slot
                } else {
                    was.slot
                },
                dynamic: if dynamic != 0 {
                    dynamic
                } else {
                    was.dynamic
                },
            },
        )
    }
}

impl ClosureEntries {
    /// Nothing is registered.
    pub fn new() -> (e: ClosureEntries)
        ensures
            e.map@ == Map::<usize, Entries>::empty(),
    {
        ClosureEntries { map: HashMap::new() }
    }

    fn lookup(&self, code: usize) -> (e: Entries)
        ensures
            e == entries_of(self.map@, code),
    {
        match self.map.get(&code) {
            Some(e) => *e,
            None => Entries { slot: 0, dynamic: 0 },
        }
    }

    /// Registers entries of a closure; a null closure in their place leaves an entry as it is.
    pub fn haxe_closure_register_entries(
        &mut self,
        target: Option<ClosureRecord>,
        slot: Option<ClosureRecord>,
        dynamic: Option<ClosureRecord>,
    )
        ensures
            final(self).map@ == registered(
                old(self).map@,
                record_code(target),
                record_code(slot),
                record_code(dynamic),
            ),
    {
        let code: usize = code_of(target);
        let slot_code: usize = code_of(slot);
        let dynamic_code: usize = code_of(dynamic);
        if code == 0 {
            return;
        }
        let mut entry: Entries = self.lookup(code);
        if slot_code != 0 {
            entry.slot = slot_code;
        }
        if dynamic_code != 0 {
            entry.dynamic = dynamic_code;
        }
        self.map.insert(code, entry);
    }

    /// The entry with slots, or the code itself where there is none.
    pub fn closure_slot_code(&self, code: usize) -> (r: usize)
        ensures
            r == (if entries_of(self.map@, code).slot == 0 {
                code
            } else {
                entries_of(self.map@, code).slot
            }),
    {
        let slot: usize = self.lookup(code).slot;
        if slot == 0 {
            code
        } else {
            slot
        }
    }

    /// The closure with its dynamic entry for code, or itself where there is none.
    pub fn haxe_closure_dynamic_view(&self, closure: Option<ClosureRecord>) -> (r: Option<
        ClosureRecord,
    >)
        ensures
            match closure {
                None => r is None,
                Some(c) => {
                    let entry = entries_of(self.map@, c.code).dynamic;
                    r == Some(
                        ClosureRecord {
                            code: if entry == 0 {
                                c.code
                            } else {
                                entry
                            },
                            env: c.env,
                        },
                    )
                },
            },
    {
        match closure {
            None => None,
            Some(c) => {
                let entry: usize = self.lookup(c.code).dynamic;
                if entry == 0 {
                    Some(c)
                } else {
                    Some(ClosureRecord { code: entry, env: c.env })
                }
            },
        }
    }
}

/// Entries that are registered separately are both found, and those of other closures stay.
pub proof fn law_entries_accumulate(
    map: Map<usize, Entries>,
    code: usize,
    slot: usize,
    dynamic: usize,
    other: usize,
)
    requires
        code != 0,
        slot != 0,
        dynamic != 0,
    ensures
        entries_of(registered(registered(map, code, slot, 0), code, 0, dynamic), code) == (Entries {
            slot,
            dynamic,
        }),
        other != code ==> entries_of(registered(map, code, slot, dynamic), other) == entries_of(
            map,
            other,
        ),
{
}

// ---------------------------------------------------------------------------
// Methods
// ---------------------------------------------------------------------------

/// Code of a method by its class and name; 0 where it is not registered.
pub open spec fn method_in(list: Seq<MethodEntry>, type_id: u32, name: Seq<u8>) -> usize
    decreases list.len(),
{
    if list.len() == 0 {
        0
    } else if list.last().type_id == type_id && list.last().name@ == name {
        list.last().code
    } else {
        method_in(list.drop_last(), type_id, name)
    }
}

impl Methods {
    /// No method is registered with code 0.
    pub open spec fn wf(&self) -> bool {
        forall|i: int| 0 <= i < self.list@.len() ==> (#[trigger] self.list@[i]).code != 0
    }

    /// No methods.
    pub fn new() -> (m: Methods)
        ensures
            m.wf(),
            m.list@.len() == 0,
    {
        Methods { list: Vec::new() }
    }

    /// Registers a method; nothing happens for a null closure, a null name, and a null string as
    /// its name.
    pub fn haxe_register_method(
        &mut self,
        type_id: i64,
        name: Option<&HaxeString>,
        record: Option<ClosureRecord>,
    )
        requires
            old(self).wf(),
        ensures
            final(self).wf(),
            ({
                let given = record_code(record) != 0 && name is Some && name->Some_0.data is Some;
                forall|t: u32, n: Seq<u8>| #[trigger]
                    method_in(final(self).list@, t, n) == (if given && t == type_id as u32 && n
                        == anon_object::lossy_bytes(name->Some_0@) {
                        record_code(record)
                    } else {
                        method_in(old(self).list@, t, n)
                    })
            }),
    {
        let code: usize = code_of(record);
        if code == 0 {
            return;
        }
        match name {
            None => {},
            Some(h) => match &h.data {
                None => {},
                Some(_) => {
                    let id: u32 = #[verifier::truncate]
                    (type_id as u32);
                    let ghost before = self.list@;
                    let text_name: Vec<u8> = anon_object::utf8_lossy(h.bytes());
                    self.list.push(MethodEntry { type_id: id, name: text_name, code });
                    assert(self.list@.drop_last() =~= before);
                },
            },
        }
    }

    /// Code of a method by its class and name.
    pub fn method_code(&self, type_id: u32, name: &[u8]) -> (code: Option<usize>)
        requires
            self.wf(),
        ensures
            match code {
                Some(c) => c != 0 && c == method_in(self.list@, type_id, name@),
                None => method_in(self.list@, type_id, name@) == 0,
            },
    {
        let mut i: usize = self.list.len();
        assert(self.list@.take(i as int) =~= self.list@);
        while i > 0
            invariant
                i <= self.list@.len(),
                self.wf(),
                method_in(self.list@, type_id, name@) == method_in(
                    self.list@.take(i as int),
                    type_id,
                    name@,
                ),
            decreases i,
        {
            assert(self.list@.take(i as int).drop_last() =~= self.list@.take(i - 1));
            assert(self.list@.take(i as int).last() == self.list@[i - 1]);
            let m: &MethodEntry = &self.list[i - 1];
            if m.type_id == type_id && text::equal(m.name.as_slice(), name) {
                return Some(m.code);
            }
            i = i - 1;
        }
        None
    }
}

/// A method bound to a receiver: its closure, and the word that its environment holds.
pub fn bound_method_record(code: usize, env: usize, receiver: usize) -> (r: (
    ClosureRecord,
    usize,
))
    ensures
        r.0 == (ClosureRecord { code, env }),
        r.1 == receiver,
{
    (ClosureRecord { code, env }, receiver)
}

// ---------------------------------------------------------------------------
// Dynamic values
// ---------------------------------------------------------------------------

/// A dynamic value as a slot: an integer or truth value as itself, a floating-point number by its
/// bits, anything else by its address; what is not boxed passes through.
pub fn haxe_dynamic_to_slot(ptr: u64, value: Option<BoxedValue>) -> (slot: i64)
    ensures
        slot == (if ptr == 0 {
            0i64
        } else {
            match value {
                None => ptr as i64,
                Some(BoxedValue::Null) => 0i64,
                Some(BoxedValue::Int(i)) => i,
                Some(BoxedValue::Bool(b)) => if b {
                    1i64
                } else {
                    0i64
                },
                Some(BoxedValue::FloatBits(b)) => b as i64,
                Some(BoxedValue::Reference(_, addr)) => addr as i64,
            }
        }),
{
    if ptr == 0 {
        return 0;
    }
    match value {
        None => #[verifier::truncate]
        (ptr as i64),
        Some(BoxedValue::Null) => 0,
        Some(BoxedValue::Int(i)) => i,
        Some(BoxedValue::Bool(b)) => if b {
            1
        } else {
            0
        },
        Some(BoxedValue::FloatBits(b)) => #[verifier::truncate]
        (b as i64),
        Some(BoxedValue::Reference(_, addr)) => #[verifier::truncate]
        (addr as i64),
    }
}

/// A dynamic value as the bits of a floating-point number: an integer or truth value as the
/// nearest one; 0 for anything that is no number.
pub fn haxe_dynamic_to_f64(ptr: u64, value: Option<BoxedValue>) -> (bits: u64)
    ensures
        bits == (if ptr == 0 {
            0
        } else {
            match value {
                Some(BoxedValue::FloatBits(b)) => b as int,
                Some(BoxedValue::Int(i)) => floats::int_bits(i as int),
                Some(BoxedValue::Bool(b)) => floats::int_bits(
                    if b {
                        1
                    } else {
                        0
                    },
                ),
                _ => 0,
            }
        }),
{
    if ptr == 0 {
        return 0;
    }
    match value {
        Some(BoxedValue::FloatBits(b)) => b,
        Some(BoxedValue::Int(i)) => floats::from_int(i),
        Some(BoxedValue::Bool(b)) => floats::from_int(
            if b {
                1
            } else {
                0
            },
        ),
        _ => 0,
    }
}

/// A method is called by the code that was registered last for its class and name: a registration
/// counts at once for its own class and name, and for no other.
pub proof fn law_newest_method_counts(list: Seq<MethodEntry>, e: MethodEntry, type_id: u32, name: Seq<u8>)
    ensures
        method_in(list.push(e), e.type_id, e.name@) == e.code,
        type_id != e.type_id || name != e.name@ ==> method_in(list.push(e), type_id, name)
            == method_in(list, type_id, name),
        method_in(Seq::empty(), type_id, name) == 0,
{
    assert(list.push(e).drop_last() =~= list);
}

/// A registration sets the entries that it names and keeps the others, of this closure and of all
/// other ones.
pub proof fn law_registration_sets_entries(
    map: Map<usize, Entries>,
    code: usize,
    slot: usize,
    dynamic: usize,
    other: usize,
)
    requires
        code != 0,
        other != code,
    ensures
        ({
            let after = registered(map, code, slot, dynamic);
            &&& slot != 0 ==> entries_of(after, code).slot == slot
            &&& slot == 0 ==> entries_of(after, code).slot == entries_of(map, code).slot
            &&& dynamic != 0 ==> entries_of(after, code).dynamic == dynamic
            &&& dynamic == 0 ==> entries_of(after, code).dynamic == entries_of(map, code).dynamic
            &&& entries_of(after, other) == entries_of(map, other)
        }),
        registered(map, 0, slot, dynamic) == map,
        entries_of(Map::empty(), code) == (Entries { slot: 0, dynamic: 0 }),
{
}

} // verus!

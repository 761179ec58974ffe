//! Reflection: fields of anonymous objects by name, comparison of dynamic values, and the type of
//! a value.

use crate::anon_object;
use crate::anon_object::{
    AnonStore, BoxedValue, DynamicWord, ShapeTable, TYPE_ANON_OBJECT, TYPE_BOOL, TYPE_FLOAT,
    TYPE_INT, TYPE_NULL, TYPE_STRING,
};
use crate::floats;
use crate::haxe_string::HaxeString;
use crate::text;
use vstd::prelude::*;

verus! {

/// Type tag of functions.
pub const TYPE_FUNCTION: u32 = 8;

/// Type tags of user-defined types start here.
pub const TYPE_USER_START: u32 = 1000;

pub const TVALUETYPE_TNULL: i32 = 0;

pub const TVALUETYPE_TINT: i32 = 1;

pub const TVALUETYPE_TFLOAT: i32 = 2;

pub const TVALUETYPE_TBOOL: i32 = 3;

pub const TVALUETYPE_TOBJECT: i32 = 4;

pub const TVALUETYPE_TFUNCTION: i32 = 5;

pub const TVALUETYPE_TCLASS: i32 = 6;

pub const TVALUETYPE_TENUM: i32 = 7;

pub const TVALUETYPE_TUNKNOWN: i32 = 8;

/// Values up to this are no addresses.
pub const HIGHEST_SMALL_VALUE: i64 = 0x1000;

/// What a dynamic value holds.
pub enum Payload {
    Nothing,
    Int(i64),
    /// A floating-point number by its bits.
    Float(u64),
    Bool(bool),
    Text(HaxeString),
    /// Anything else, by its address.
    Address(u64),
}

/// A value with its type tag.
pub struct DynamicValue {
    pub type_id: u32,
    pub payload: Payload,
}

impl DynamicValue {
    /// The payload is what the type tag says.
    pub open spec fn wf(&self) -> bool {
        &&& self.type_id == TYPE_INT ==> self.payload is Int
        &&& self.type_id == TYPE_FLOAT ==> self.payload is Float
        &&& self.type_id == TYPE_BOOL ==> self.payload is Bool
        &&& self.type_id == TYPE_STRING ==> self.payload is Text
    }
}

// ---------------------------------------------------------------------------
// Registered types
// ---------------------------------------------------------------------------

/// A registered type.
pub struct TypeEntry {
    pub type_id: u32,
    pub name: Vec<u8>,
    pub is_enum: bool,
    pub is_class: bool,
}

/// A registered type in the abstract.
pub ghost struct TypeFacts {
    pub type_id: u32,
    pub name: Seq<u8>,
    pub is_enum: bool,
    pub is_class: bool,
}

impl View for TypeEntry {
    type V = TypeFacts;

    open spec fn view(&self) -> TypeFacts {
        TypeFacts {
            type_id: self.type_id,
            name: self.name@,
            is_enum: self.is_enum,
            is_class: self.is_class,
        }
    }
}

/// Registered types; of several with the same tag the last one counts.
pub struct TypeRegistry {
    pub entries: Vec<TypeEntry>,
}

impl View for TypeRegistry {
    type V = Seq<TypeFacts>;

    open spec fn view(&self) -> Seq<TypeFacts> {
        self.entries@.map_values(|e: TypeEntry| e@)
    }
}

/// Position of the entry of a type tag; -1 where there is none.
pub open spec fn type_index(types: Seq<TypeFacts>, type_id: u32) -> int
    decreases types.len(),
{
    if types.len() == 0 {
        -1
    } else if types.last().type_id == type_id {
        types.len() - 1
    } else {
        type_index(types.drop_last(), type_id)
    }
}

/// What is registered of a type tag.
pub open spec fn type_info(types: Seq<TypeFacts>, type_id: u32) -> Option<TypeFacts> {
    let i = type_index(types, type_id);
    if i < 0 {
        None
    } else {
        Some(types[i])
    }
}

proof fn lemma_type_index(types: Seq<TypeFacts>, type_id: u32)
    ensures
        -1 <= type_index(types, type_id) < types.len(),
    decreases types.len(),
{
    if types.len() > 0 {
        lemma_type_index(types.drop_last(), type_id);
    }
}

/// The types with a primitive type, added unless its tag is registered.
pub open spec fn with_primitive(types: Seq<TypeFacts>, type_id: u32, name: Seq<u8>) -> Seq<
    TypeFacts,
> {
    if type_index(types, type_id) >= 0 {
        types
    } else {
        types.push(TypeFacts { type_id, name, is_enum: false, is_class: false })
    }
}

/// The types with all primitive types.
pub open spec fn with_primitives(types: Seq<TypeFacts>) -> Seq<TypeFacts> {
    with_primitive(
        with_primitive(
            with_primitive(
                with_primitive(types, TYPE_BOOL, text::lit("Bool")),
                TYPE_INT,
                text::lit("Int"),
            ),
            TYPE_FLOAT,
            text::lit("Float"),
        ),
        TYPE_STRING,
        text::lit("String"),
    )
}

impl TypeRegistry {
    /// No types.
    pub fn new() -> (r: TypeRegistry)
        ensures
            r@ == Seq::<TypeFacts>::empty(),
    {
        let r = TypeRegistry { entries: Vec::new() };
        assert(r@ =~= Seq::empty());
        r
    }

    /// Registers a type.
    pub fn register_type(&mut self, entry: TypeEntry)
        ensures
            final(self)@ == old(self)@.push(entry@),
    {
        let ghost before = self@;
        self.entries.push(entry);
        assert(self@ =~= before.push(entry@));
    }

    /// The entry of a type tag.
    pub fn get_type_info(&self, type_id: u32) -> (found: Option<&TypeEntry>)
        ensures
            match found {
                Some(e) => type_info(self@, type_id) == Some(e@),
                None => type_info(self@, type_id) is None,
            },
    {
        let mut i: usize = self.entries.len();
        assert(self@.take(i as int) =~= self@);
        while i > 0
            invariant
                i <= self.entries@.len(),
                type_index(self@, type_id) == type_index(self@.take(i as int), type_id),
            decreases i,
        {
            assert(self@.take(i as int).drop_last() =~= self@.take(i - 1));
            assert(self@.take(i as int).last() == self.entries@[i - 1]@);
            if self.entries[i - 1].type_id == type_id {
                return Some(&self.entries[i - 1]);
            }
            i = i - 1;
        }
        None
    }

    fn ensure_primitive(&mut self, type_id: u32, name: &str)
        ensures
            final(self)@ == with_primitive(old(self)@, type_id, text::lit(name)),
    {
        proof {
            lemma_type_index(self@, type_id);
        }
        if self.get_type_info(type_id).is_none() {
            let entry = TypeEntry {
                type_id,
                name: text::copy_all(name.as_bytes()),
                is_enum: false,
                is_class: false,
            };
            self.register_type(entry);
        }
    }
}

/// Registers the primitive types that are not registered yet.
pub fn init_rtti(registry: &mut TypeRegistry)
    ensures
        final(registry)@ == with_primitives(old(registry)@),
{
    registry.ensure_primitive(TYPE_BOOL, "Bool");
    registry.ensure_primitive(TYPE_INT, "Int");
    registry.ensure_primitive(TYPE_FLOAT, "Float");
    registry.ensure_primitive(TYPE_STRING, "String");
}

proof fn lemma_primitive_kept(types: Seq<TypeFacts>, type_id: u32, name: Seq<u8>, t: u32)
    ensures
        type_index(types, t) >= 0 ==> type_index(with_primitive(types, type_id, name), t) >= 0,
        type_index(with_primitive(types, type_id, name), type_id) >= 0,
{
    let after = with_primitive(types, type_id, name);
    if type_index(types, type_id) < 0 {
        assert(after.drop_last() =~= types);
    }
}

/// Registering the primitive types once more changes nothing.
pub proof fn law_init_rtti_once(types: Seq<TypeFacts>)
    ensures
        with_primitives(with_primitives(types)) == with_primitives(types),
{
    let a = with_primitive(types, TYPE_BOOL, text::lit("Bool"));
    let b = with_primitive(a, TYPE_INT, text::lit("Int"));
    let c = with_primitive(b, TYPE_FLOAT, text::lit("Float"));
    let d = with_primitive(c, TYPE_STRING, text::lit("String"));
    lemma_primitive_kept(types, TYPE_BOOL, text::lit("Bool"), TYPE_BOOL);
    lemma_primitive_kept(a, TYPE_INT, text::lit("Int"), TYPE_BOOL);
    lemma_primitive_kept(b, TYPE_FLOAT, text::lit("Float"), TYPE_BOOL);
    lemma_primitive_kept(c, TYPE_STRING, text::lit("String"), TYPE_BOOL);
    lemma_primitive_kept(b, TYPE_FLOAT, text::lit("Float"), TYPE_INT);
    lemma_primitive_kept(c, TYPE_STRING, text::lit("String"), TYPE_INT);
    lemma_primitive_kept(c, TYPE_STRING, text::lit("String"), TYPE_FLOAT);
}

// ---------------------------------------------------------------------------
// Fields by name
// ---------------------------------------------------------------------------

/// The name that a string stands for; none for a null or empty string.
pub open spec fn field_name(field: Option<&HaxeString>) -> Option<Seq<u8>> {
    match field {
        Some(h) => if h@.len() == 0 {
            None
        } else {
            Some(h@)
        },
        None => None,
    }
}

fn extract_field_name<'a>(field: Option<&'a HaxeString>) -> (name: Option<&'a [u8]>)
    ensures
        match name {
            Some(n) => field_name(field) == Some(n@),
            None => field_name(field) is None,
        },
{
    match field {
        Some(h) => {
            let b: &[u8] = h.bytes();
            if b.len() == 0 {
                None
            } else {
                Some(b)
            }
        },
        None => None,
    }
}

/// Whether an object has a field of that name.
pub fn haxe_reflect_has_field(
    store: &AnonStore,
    table: &ShapeTable,
    obj: usize,
    field: Option<&HaxeString>,
) -> (r: bool)
    requires
        store.wf(),
    ensures
        r == (match (store.at(obj), field_name(field)) {
            (Some(o), Some(n)) => anon_object::obj_has(table@, o, n),
            _ => false,
        }),
{
    anon_object::rayzor_anon_has_field(store, table, obj, extract_field_name(field))
}

/// The field of that name; none where there is none.
pub fn haxe_reflect_field(
    store: &AnonStore,
    table: &ShapeTable,
    obj: usize,
    field: Option<&HaxeString>,
) -> (v: Option<BoxedValue>)
    requires
        store.wf(),
        anon_object::table_wf(table@),
        store.at(obj) matches Some(o) ==> (field_name(field) matches Some(n)
            ==> anon_object::readable(table@, o, n)),
    ensures
        v == (match (store.at(obj), field_name(field)) {
            (Some(o), Some(n)) => match anon_object::obj_get(table@, o, n) {
                Some(f) => Some(anon_object::boxed(f.0, f.1)),
                None => None,
            },
            _ => None,
        }),
{
    anon_object::rayzor_anon_get_field(store, table, obj, extract_field_name(field))
}

/// Sets the field of that name.
pub fn haxe_reflect_set_field(
    store: &mut AnonStore,
    table: &ShapeTable,
    obj: usize,
    field: Option<&HaxeString>,
    value: Option<DynamicWord>,
)
    requires
        old(store).wf(),
        anon_object::table_wf(table@),
        old(store).at(obj) matches Some(o) ==> (field_name(field) matches Some(n)
            ==> anon_object::settable(table@, o, anon_object::lossy_bytes(n))),
    ensures
        final(store).wf(),
        final(store).at(obj) == (match (old(store).at(obj), field_name(field)) {
            (Some(o), Some(n)) => Some(
                anon_object::obj_set(
                    table@,
                    o,
                    anon_object::lossy_bytes(n),
                    anon_object::stored(value),
                ),
            ),
            _ => old(store).at(obj),
        }),
        forall|o: usize| o != obj ==> final(store).at(o) == old(store).at(o),
{
    anon_object::rayzor_anon_set_field(store, table, obj, extract_field_name(field), value);
}

/// Deletes the field of that name; whether it was there.
pub fn haxe_reflect_delete_field(
    store: &mut AnonStore,
    table: &ShapeTable,
    obj: usize,
    field: Option<&HaxeString>,
) -> (found: bool)
    requires
        old(store).wf(),
        anon_object::table_wf(table@),
        old(store).at(obj) matches Some(o) ==> (field_name(field) matches Some(n)
            ==> anon_object::deletable(table@, o, anon_object::lossy_bytes(n))),
    ensures
        final(store).wf(),
        match (old(store).at(obj), field_name(field)) {
            (Some(o), Some(n)) => {
                &&& found == anon_object::obj_has(table@, o, anon_object::lossy_bytes(n))
                &&& final(store).at(obj) == Some(
                    anon_object::obj_delete(table@, o, anon_object::lossy_bytes(n)),
                )
            },
            _ => !found && final(store).at(obj) == old(store).at(obj),
        },
        forall|o: usize| o != obj ==> final(store).at(o) == old(store).at(o),
{
    anon_object::rayzor_anon_delete_field(store, table, obj, extract_field_name(field))
}

// ---------------------------------------------------------------------------
// Kinds of values
// ---------------------------------------------------------------------------

/// Whether a value is an anonymous object or an instance of a class.
pub fn haxe_reflect_is_object(v: Option<&DynamicValue>) -> (r: bool)
    ensures
        r == (v matches Some(d) && (d.type_id == TYPE_ANON_OBJECT || d.type_id >= TYPE_USER_START)),
{
    match v {
        None => false,
        Some(d) => {
            if d.type_id == TYPE_FUNCTION {
                return false;
            }
            d.type_id == TYPE_ANON_OBJECT || d.type_id >= TYPE_USER_START
        },
    }
}

/// Whether a value is a function.
pub fn haxe_reflect_is_function(v: Option<&DynamicValue>) -> (r: bool)
    ensures
        r == (v matches Some(d) && d.type_id == TYPE_FUNCTION),
{
    match v {
        None => false,
        Some(d) => d.type_id == TYPE_FUNCTION,
    }
}

/// Whether a value is one of a registered enumeration.
pub fn haxe_reflect_is_enum_value(v: Option<&DynamicValue>, registry: &TypeRegistry) -> (r: bool)
    ensures
        r == (v matches Some(d) && type_info(registry@, d.type_id) matches Some(t) && t.is_enum),
{
    match v {
        None => false,
        Some(d) => match registry.get_type_info(d.type_id) {
            Some(t) => t.is_enum,
            None => false,
        },
    }
}

// ---------------------------------------------------------------------------
// Comparison
// ---------------------------------------------------------------------------

/// -1, 0 or 1 as the first integer is smaller than, equal to or greater than the second.
pub open spec fn int_order(a: int, b: int) -> int {
    if a < b {
        -1
    } else if a > b {
        1
    } else {
        0
    }
}

/// A truth value as a number.
pub open spec fn bit(b: bool) -> int {
    if b {
        1
    } else {
        0
    }
}

/// Order of two values: numbers by their value, strings by their bytes, truth values with false
/// first; null comes before everything, and values that cannot be compared count as equal.
pub open spec fn value_order(a: Option<&DynamicValue>, b: Option<&DynamicValue>) -> int {
    match (a, b) {
        (None, None) => 0,
        (None, Some(_)) => -1,
        (Some(_), None) => 1,
        (Some(x), Some(y)) => match (x.payload, y.payload) {
            (Payload::Int(i), Payload::Int(j)) if x.type_id == TYPE_INT && y.type_id == TYPE_INT =>
                int_order(i as int, j as int),
            (Payload::Float(i), Payload::Float(j)) if x.type_id == TYPE_FLOAT && y.type_id
                == TYPE_FLOAT => floats::order(i, j),
            (Payload::Int(i), Payload::Float(j)) if x.type_id == TYPE_INT && y.type_id
                == TYPE_FLOAT => floats::order(floats::int_bits(i as int) as u64, j),
            (Payload::Float(i), Payload::Int(j)) if x.type_id == TYPE_FLOAT && y.type_id
                == TYPE_INT => floats::order(i, floats::int_bits(j as int) as u64),
            (Payload::Text(s), Payload::Text(t)) if x.type_id == TYPE_STRING && y.type_id
                == TYPE_STRING => text::lex_order(s@, t@),
            (Payload::Bool(p), Payload::Bool(q)) if x.type_id == TYPE_BOOL && y.type_id
                == TYPE_BOOL => bit(p) - bit(q),
            _ => 0,
        },
    }
}

fn order_ints(a: i64, b: i64) -> (r: i64)
    ensures
        r == int_order(a as int, b as int),
{
    if a < b {
        -1
    } else if a > b {
        1
    } else {
        0
    }
}

fn order_bits(a: bool, b: bool) -> (r: i64)
    ensures
        r == bit(a) - bit(b),
{
    if a == b {
        0
    } else if a {
        1
    } else {
        -1
    }
}

/// Compares two values.
pub fn haxe_reflect_compare(a: Option<&DynamicValue>, b: Option<&DynamicValue>) -> (r: i64)
    requires
        a matches Some(x) ==> x.wf(),
        b matches Some(y) ==> y.wf(),
    ensures
        r == value_order(a, b),
{
    match (a, b) {
        (None, None) => 0,
        (None, Some(_)) => -1,
        (Some(_), None) => 1,
        (Some(x), Some(y)) => {
            let both_int: bool = x.type_id == TYPE_INT && y.type_id == TYPE_INT;
            let both_float: bool = x.type_id == TYPE_FLOAT && y.type_id == TYPE_FLOAT;
            let int_float: bool = x.type_id == TYPE_INT && y.type_id == TYPE_FLOAT;
            let float_int: bool = x.type_id == TYPE_FLOAT && y.type_id == TYPE_INT;
            let both_text: bool = x.type_id == TYPE_STRING && y.type_id == TYPE_STRING;
            let both_bool: bool = x.type_id == TYPE_BOOL && y.type_id == TYPE_BOOL;
            match (&x.payload, &y.payload) {
                (Payload::Int(i), Payload::Int(j)) if both_int => order_ints(*i, *j),
                (Payload::Float(i), Payload::Float(j)) if both_float => floats::float_order(
                    *i,
                    *j,
                ) as i64,
                (Payload::Int(i), Payload::Float(j)) if int_float => floats::float_order(
                    floats::from_int(*i),
                    *j,
                ) as i64,
                (Payload::Float(i), Payload::Int(j)) if float_int => floats::float_order(
                    *i,
                    floats::from_int(*j),
                ) as i64,
                (Payload::Text(s), Payload::Text(t)) if both_text => text::order(
                    s.bytes(),
                    t.bytes(),
                ) as i64,
                (Payload::Bool(p), Payload::Bool(q)) if both_bool => order_bits(*p, *q),
                _ => 0,
            }
        },
    }
}

/// Order of two words by the type that they are of: 2 for truth values, 4 for floating-point
/// numbers by their bits, 5 for strings, of which 0 is null; everything else is an integer.
pub open spec fn typed_order(
    a: i64,
    b: i64,
    type_tag: i32,
    text_a: Seq<u8>,
    text_b: Seq<u8>,
) -> int {
    if type_tag == 2 {
        bit(a != 0) - bit(b != 0)
    } else if type_tag == 4 {
        floats::order(a as u64, b as u64)
    } else if type_tag == 5 {
        if a == 0 && b == 0 {
            0
        } else if a == 0 {
            -1
        } else if b == 0 {
            1
        } else {
            text::lex_order(text_a, text_b)
        }
    } else {
        int_order(a as int, b as int)
    }
}

/// Compares two words by the type that they are of; `text_a` and `text_b` are the strings at the
/// two addresses where they are strings.
pub fn haxe_reflect_compare_typed(
    a: i64,
    b: i64,
    type_tag: i32,
    text_a: &[u8],
    text_b: &[u8],
) -> (r: i64)
    ensures
        r == typed_order(a, b, type_tag, text_a@, text_b@),
{
    match type_tag {
        2 => order_bits(a != 0, b != 0),
        4 => {
            let x: u64 = #[verifier::truncate]
            (a as u64);
            let y: u64 = #[verifier::truncate]
            (b as u64);
            floats::float_order(x, y) as i64
        },
        5 => {
            if a == 0 && b == 0 {
                return 0;
            }
            if a == 0 {
                return -1;
            }
            if b == 0 {
                return 1;
            }
            text::order(text_a, text_b) as i64
        },
        _ => order_ints(a, b),
    }
}

/// Strings compare by the first place where they do not agree: the one that ends there, or has the
/// smaller byte there, comes first. They are equal where they agree to their ends.
pub proof fn law_strings_compare_by_their_bytes(
    x: &DynamicValue,
    y: &DynamicValue,
    s: HaxeString,
    t: HaxeString,
    k: int,
)
    requires
        x.type_id == 5,
        y.type_id == 5,
        x.payload == Payload::Text(s),
        y.payload == Payload::Text(t),
        0 <= k <= s@.len(),
        k <= t@.len(),
        forall|j: int| 0 <= j < k ==> s@[j] == t@[j],
    ensures
        k == s@.len() && k == t@.len() ==> value_order(Some(x), Some(y)) == 0,
        k == s@.len() && k < t@.len() ==> value_order(Some(x), Some(y)) == -1,
        k < s@.len() && k == t@.len() ==> value_order(Some(x), Some(y)) == 1,
        k < s@.len() && k < t@.len() && s@[k] < t@[k] ==> value_order(Some(x), Some(y)) == -1,
        k < s@.len() && k < t@.len() && s@[k] > t@[k] ==> value_order(Some(x), Some(y)) == 1,
        value_order(Some(x), Some(y)) == crate::haxe_string::compare_spec(Some(&s), Some(&t)),
{
    text::law_first_difference_decides(s@, t@, k);
}

/// Integers compare by their value, truth values with false before true, and null comes before
/// everything else.
pub proof fn law_plain_values_compare(
    x: &DynamicValue,
    y: &DynamicValue,
    i: i64,
    j: i64,
    p: bool,
    q: bool,
)
    ensures
        x.type_id == 3 && y.type_id == 3 && x.payload == Payload::Int(i) && y.payload
            == Payload::Int(j) ==> {
            &&& i < j ==> value_order(Some(x), Some(y)) == -1
            &&& i == j ==> value_order(Some(x), Some(y)) == 0
            &&& i > j ==> value_order(Some(x), Some(y)) == 1
        },
        x.type_id == 2 && y.type_id == 2 && x.payload == Payload::Bool(p) && y.payload
            == Payload::Bool(q) ==> {
            &&& !p && q ==> value_order(Some(x), Some(y)) == -1
            &&& p == q ==> value_order(Some(x), Some(y)) == 0
            &&& p && !q ==> value_order(Some(x), Some(y)) == 1
        },
        value_order(None, Some(y)) == -1,
        value_order(Some(x), None) == 1,
        value_order(None, None) == 0,
{
}

/// Numbers compare by their value, whether they are held as integers or as floating-point numbers:
/// an integer of at most 53 bits compares as itself, and one that is no number is equal to all.
pub proof fn law_numbers_compare_by_value(
    x: &DynamicValue,
    y: &DynamicValue,
    i: i64,
    j: int,
    bits: u64,
)
    requires
        -0x20_0000_0000_0000 < i < 0x20_0000_0000_0000,
        -0x20_0000_0000_0000 < j < 0x20_0000_0000_0000,
        x.type_id == 3,
        x.payload == Payload::Int(i),
        y.type_id == 4,
        y.payload == Payload::Float(bits),
    ensures
        bits == floats::int_bits(j) ==> {
            &&& i < j ==> value_order(Some(x), Some(y)) == -1 && value_order(Some(y), Some(x)) == 1
            &&& i == j ==> value_order(Some(x), Some(y)) == 0 && value_order(Some(y), Some(x)) == 0
            &&& i > j ==> value_order(Some(x), Some(y)) == 1 && value_order(Some(y), Some(x)) == -1
        },
        floats::is_nan(bits) ==> value_order(Some(x), Some(y)) == 0 && value_order(
            Some(y),
            Some(x),
        ) == 0,
{
    floats::law_integers_keep_their_order(i as int, j);
    floats::law_order_antisymmetric(floats::int_bits(i as int) as u64, bits);
}

/// Words compare like the values that they are: strings by the first place where they do not
/// agree with null before all, truth values with false before true, and integers, which every tag
/// but those for the others stands for, by their value.
pub proof fn law_words_compare(a: i64, b: i64, tag: i32, s: Seq<u8>, t: Seq<u8>, k: int)
    requires
        0 <= k <= s.len(),
        k <= t.len(),
        forall|j: int| 0 <= j < k ==> s[j] == t[j],
    ensures
        a != 0 && b != 0 ==> {
            &&& k == s.len() && k == t.len() ==> typed_order(a, b, 5, s, t) == 0
            &&& k == s.len() && k < t.len() ==> typed_order(a, b, 5, s, t) == -1
            &&& k < s.len() && k == t.len() ==> typed_order(a, b, 5, s, t) == 1
            &&& k < s.len() && k < t.len() && s[k] < t[k] ==> typed_order(a, b, 5, s, t) == -1
            &&& k < s.len() && k < t.len() && s[k] > t[k] ==> typed_order(a, b, 5, s, t) == 1
        },
        b != 0 ==> typed_order(0, b, 5, s, t) == -1,
        a != 0 ==> typed_order(a, 0, 5, s, t) == 1,
        typed_order(0, 0, 5, s, t) == 0,
        a == 0 && b != 0 ==> typed_order(a, b, 2, s, t) == -1,
        a != 0 && b == 0 ==> typed_order(a, b, 2, s, t) == 1,
        (a == 0) == (b == 0) ==> typed_order(a, b, 2, s, t) == 0,
        typed_order(a, b, 4, s, t) == floats::order(a as u64, b as u64),
        tag != 2 && tag != 4 && tag != 5 ==> {
            &&& a < b ==> typed_order(a, b, tag, s, t) == -1
            &&& a == b ==> typed_order(a, b, tag, s, t) == 0
            &&& a > b ==> typed_order(a, b, tag, s, t) == 1
        },
{
    text::law_first_difference_decides(s, t, k);
}

/// Comparing two values the other way round turns the answer round.
pub proof fn law_compare_antisymmetric(a: Option<&DynamicValue>, b: Option<&DynamicValue>)
    ensures
        value_order(a, b) == -value_order(b, a),
{
    if let (Some(x), Some(y)) = (a, b) {
        match (x.payload, y.payload) {
            (Payload::Text(s), Payload::Text(t)) => {
                text::lemma_lex_order_antisymmetric(s@, t@);
            },
            (Payload::Float(i), Payload::Float(j)) => {
                floats::law_order_antisymmetric(i, j);
            },
            _ => {},
        }
    }
}

/// A value is equal to itself.
pub proof fn law_compare_reflexive(a: Option<&DynamicValue>)
    ensures
        value_order(a, a) == 0,
{
    law_compare_antisymmetric(a, a);
}

// ---------------------------------------------------------------------------
// Type of a value
// ---------------------------------------------------------------------------

/// Which kind of type a value has. A string is an instance of a class, and so is a value of a
/// user-defined type that is not registered.
pub open spec fn value_type(v: Option<&DynamicValue>, types: Seq<TypeFacts>) -> i32 {
    match v {
        None => TVALUETYPE_TNULL,
        Some(d) => if d.type_id == TYPE_NULL {
            TVALUETYPE_TNULL
        } else if d.type_id == TYPE_INT {
            TVALUETYPE_TINT
        } else if d.type_id == TYPE_FLOAT {
            TVALUETYPE_TFLOAT
        } else if d.type_id == TYPE_BOOL {
            TVALUETYPE_TBOOL
        } else if d.type_id == TYPE_FUNCTION {
            TVALUETYPE_TFUNCTION
        } else if d.type_id == TYPE_ANON_OBJECT {
            TVALUETYPE_TOBJECT
        } else if d.type_id == TYPE_STRING {
            TVALUETYPE_TCLASS
        } else {
            let info = type_info(types, d.type_id);
            if info matches Some(t) && t.is_enum {
                TVALUETYPE_TENUM
            } else if info matches Some(t) && t.is_class {
                TVALUETYPE_TCLASS
            } else if d.type_id >= TYPE_USER_START {
                TVALUETYPE_TCLASS
            } else {
                TVALUETYPE_TUNKNOWN
            }
        },
    }
}

/// Which kind of type a value has.
pub fn haxe_type_typeof(v: Option<&DynamicValue>, registry: &TypeRegistry) -> (tag: i32)
    ensures
        tag == value_type(v, registry@),
{
    let d: &DynamicValue = match v {
        None => {
            return TVALUETYPE_TNULL;
        },
        Some(d) => d,
    };
    if d.type_id == TYPE_NULL {
        return TVALUETYPE_TNULL;
    }
    if d.type_id == TYPE_INT {
        return TVALUETYPE_TINT;
    }
    if d.type_id == TYPE_FLOAT {
        return TVALUETYPE_TFLOAT;
    }
    if d.type_id == TYPE_BOOL {
        return TVALUETYPE_TBOOL;
    }
    if d.type_id == TYPE_FUNCTION {
        return TVALUETYPE_TFUNCTION;
    }
    if d.type_id == TYPE_ANON_OBJECT {
        return TVALUETYPE_TOBJECT;
    }
    if d.type_id == TYPE_STRING {
        return TVALUETYPE_TCLASS;
    }
    match registry.get_type_info(d.type_id) {
        Some(t) => {
            if t.is_enum {
                return TVALUETYPE_TENUM;
            }
            if t.is_class {
                return TVALUETYPE_TCLASS;
            }
        },
        None => {},
    }
    if d.type_id >= TYPE_USER_START {
        return TVALUETYPE_TCLASS;
    }
    TVALUETYPE_TUNKNOWN
}

/// A value of the enumeration of types: its constructor, and for classes and enumerations the
/// type tag.
#[derive(Clone, Copy, PartialEq, Eq, Structural, Debug)]
pub struct ValueType {
    pub tag: i32,
    pub payload: i64,
}

/// The type of a value, as a value of the enumeration of types.
pub fn haxe_type_typeof_value(v: Option<&DynamicValue>, registry: &TypeRegistry) -> (t: ValueType)
    ensures
        t.tag == value_type(v, registry@),
        t.payload == (if t.tag == TVALUETYPE_TCLASS || t.tag == TVALUETYPE_TENUM {
            v->Some_0.type_id as int
        } else {
            0
        }),
{
    let tag: i32 = haxe_type_typeof(v, registry);
    let type_id: i64 = match v {
        None => -1,
        Some(d) => d.type_id as i64,
    };
    if tag == TVALUETYPE_TCLASS || tag == TVALUETYPE_TENUM {
        ValueType { tag, payload: type_id }
    } else {
        ValueType { tag, payload: 0 }
    }
}

/// Text of a constructor with a type: its name where it is registered, else its tag; a negative
/// tag is not shown.
pub open spec fn named_type_text(head: Seq<u8>, payload: i64, types: Seq<TypeFacts>) -> Seq<u8> {
    if payload >= 0 {
        head + seq![40u8] + (match type_info(types, payload as u32) {
            Some(t) => t.name,
            None => text::dec_int(payload as int),
        }) + seq![41u8]
    } else {
        head
    }
}

/// Text of a value of the enumeration of types.
pub open spec fn value_type_text(tag: i32, payload: i64, types: Seq<TypeFacts>) -> Seq<u8> {
    if tag == TVALUETYPE_TNULL {
        text::lit("TNull")
    } else if tag == TVALUETYPE_TINT {
        text::lit("TInt")
    } else if tag == TVALUETYPE_TFLOAT {
        text::lit("TFloat")
    } else if tag == TVALUETYPE_TBOOL {
        text::lit("TBool")
    } else if tag == TVALUETYPE_TOBJECT {
        text::lit("TObject")
    } else if tag == TVALUETYPE_TFUNCTION {
        text::lit("TFunction")
    } else if tag == TVALUETYPE_TCLASS {
        named_type_text(text::lit("TClass"), payload, types)
    } else if tag == TVALUETYPE_TENUM {
        named_type_text(text::lit("TEnum"), payload, types)
    } else if tag == TVALUETYPE_TUNKNOWN {
        text::lit("TUnknown(") + text::dec_int(payload as int) + seq![41u8]
    } else {
        text::lit("<ValueType:") + text::dec_int(tag as int) + seq![62u8]
    }
}

fn named_type(head: &str, payload: i64, registry: &TypeRegistry) -> (out: Vec<u8>)
    ensures
        out@ == named_type_text(text::lit(head), payload, registry@),
{
    let mut out: Vec<u8> = Vec::new();
    text::append_str(&mut out, head);
    assert(out@ =~= text::lit(head));
    if payload >= 0 {
        out.push(40);
        let type_id: u32 = #[verifier::truncate]
        (payload as u32);
        match registry.get_type_info(type_id) {
            Some(t) => text::append(&mut out, t.name.as_slice()),
            None => text::append_i64(&mut out, payload),
        }
        out.push(41);
        assert(out@ =~= named_type_text(text::lit(head), payload, registry@));
    }
    out
}

fn value_type_bytes(tag: i32, payload: i64, registry: &TypeRegistry) -> (out: Vec<u8>)
    ensures
        out@ == value_type_text(tag, payload, registry@),
{
    if tag == TVALUETYPE_TNULL {
        text::copy_all("TNull".as_bytes())
    } else if tag == TVALUETYPE_TINT {
        text::copy_all("TInt".as_bytes())
    } else if tag == TVALUETYPE_TFLOAT {
        text::copy_all("TFloat".as_bytes())
    } else if tag == TVALUETYPE_TBOOL {
        text::copy_all("TBool".as_bytes())
    } else if tag == TVALUETYPE_TOBJECT {
        text::copy_all("TObject".as_bytes())
    } else if tag == TVALUETYPE_TFUNCTION {
        text::copy_all("TFunction".as_bytes())
    } else if tag == TVALUETYPE_TCLASS {
        named_type("TClass", payload, registry)
    } else if tag == TVALUETYPE_TENUM {
        named_type("TEnum", payload, registry)
    } else if tag == TVALUETYPE_TUNKNOWN {
        let mut out: Vec<u8> = Vec::new();
        text::append_str(&mut out, "TUnknown(");
        text::append_i64(&mut out, payload);
        out.push(41);
        assert(out@ =~= text::lit("TUnknown(") + text::dec_int(payload as int) + seq![41u8]);
        out
    } else {
        let mut out: Vec<u8> = Vec::new();
        text::append_str(&mut out, "<ValueType:");
        text::append_i64(&mut out, tag as i64);
        out.push(62);
        assert(out@ =~= text::lit("<ValueType:") + text::dec_int(tag as int) + seq![62u8]);
        out
    }
}

/// Text of a value of the enumeration of types, given by its word: a small word is the
/// constructor itself, 0 the null value, and any other the address of `at`.
pub fn haxe_trace_value_type(value: i64, at: ValueType, registry: &TypeRegistry) -> (out: Vec<u8>)
    ensures
        out@ == (if value == 0 {
            text::lit("TNull")
        } else if value > HIGHEST_SMALL_VALUE {
            value_type_text(at.tag, at.payload, registry@)
        } else {
            value_type_text(value as i32, 0, registry@)
        }),
{
    if value == 0 {
        return text::copy_all("TNull".as_bytes());
    }
    if value > HIGHEST_SMALL_VALUE {
        value_type_bytes(at.tag, at.payload, registry)
    } else {
        let tag: i32 = #[verifier::truncate]
        (value as i32);
        value_type_bytes(tag, 0, registry)
    }
}

/// Names of the fields of an object; none for null.
pub fn haxe_reflect_fields(store: &AnonStore, table: &ShapeTable, obj: usize) -> (names: Option<
    Vec<HaxeString>,
>)
    requires
        store.wf(),
    ensures
        names is Some <==> store.at(obj) is Some,
        names is Some ==> crate::haxe_string::all_views(names->Some_0@) == anon_object::obj_names(
            table@,
            store.at(obj)->Some_0,
        ),
        names is Some ==> crate::haxe_string::all_buffered(names->Some_0@),
        names is Some && store.at(obj)->Some_0.fields is Named ==> forall|i: int, j: int|
            0 <= i < j < names->Some_0@.len() ==> crate::text::lex_order(
                (#[trigger] names->Some_0@[i])@,
                (#[trigger] names->Some_0@[j])@,
            ) < 0,
{
    anon_object::rayzor_anon_fields(store, table, obj)
}

/// A new object with the fields of another; null for null.
pub fn haxe_reflect_copy(store: &mut AnonStore, obj: usize) -> (handle: usize)
    requires
        old(store).wf(),
    ensures
        final(store).wf(),
        old(store).at(obj) is None ==> handle == 0 && *final(store) == *old(store),
        old(store).at(obj) is Some ==> {
            &&& handle != 0
            &&& old(store).at(handle) is None
            &&& final(store).at(handle) == old(store).at(obj)
            &&& !final(store).shares(obj, handle)
            &&& forall|o: usize| o != handle ==> final(store).at(o) == old(store).at(o)
        },
{
    anon_object::rayzor_anon_copy(store, obj)
}

/// What is known of a type tag is what was registered for it last.
pub proof fn law_newest_type_counts(types: Seq<TypeFacts>, t: TypeFacts, other: u32)
    ensures
        type_info(types.push(t), t.type_id) == Some(t),
        other != t.type_id ==> type_info(types.push(t), other) == type_info(types, other),
        type_info(Seq::empty(), other) is None,
{
    assert(types.push(t).drop_last() =~= types);
    assert(types.push(t).last() == t);
    lemma_type_index_bound(types, other);
    if other != t.type_id && type_index(types, other) >= 0 {
        assert(types.push(t)[type_index(types, other)] == types[type_index(types, other)]);
    }
}

proof fn lemma_type_index_bound(types: Seq<TypeFacts>, type_id: u32)
    ensures
        -1 <= type_index(types, type_id) < types.len(),
    decreases types.len(),
{
    if types.len() > 0 {
        lemma_type_index_bound(types.drop_last(), type_id);
    }
}

/// The kinds of values, by their tags: null 0, integers 1, floating-point numbers 2, truth values 3,
/// anonymous objects 4, functions 5, strings and instances of classes 6, values of enumerations 7,
/// and 8 for what is not known.
pub proof fn law_kinds_of_values(v: &DynamicValue, types: Seq<TypeFacts>)
    ensures
        value_type(None, types) == 0,
        v.type_id == 1 ==> value_type(Some(v), types) == 0,
        v.type_id == 3 ==> value_type(Some(v), types) == 1,
        v.type_id == 4 ==> value_type(Some(v), types) == 2,
        v.type_id == 2 ==> value_type(Some(v), types) == 3,
        v.type_id == 6 ==> value_type(Some(v), types) == 4,
        v.type_id == 8 ==> value_type(Some(v), types) == 5,
        v.type_id == 5 ==> value_type(Some(v), types) == 6,
        v.type_id > 8 ==> {
            let info = type_info(types, v.type_id);
            &&& (info matches Some(t) && t.is_enum) ==> value_type(Some(v), types) == 7
            &&& (info matches Some(t) && !t.is_enum && t.is_class) ==> value_type(Some(v), types) == 6
            &&& info is None && v.type_id >= 1000 ==> value_type(Some(v), types) == 6
            &&& info is None && v.type_id < 1000 ==> value_type(Some(v), types) == 8
        },
{
}

/// The texts of the kinds of values; a class and an enumeration are shown with the name of their
/// type, or with its tag where it is not registered.
pub proof fn law_kind_texts(payload: i64, types: Seq<TypeFacts>, tag: i32)
    ensures
        value_type_text(0, payload, types) == text::lit("TNull"),
        value_type_text(1, payload, types) == text::lit("TInt"),
        value_type_text(2, payload, types) == text::lit("TFloat"),
        value_type_text(3, payload, types) == text::lit("TBool"),
        value_type_text(4, payload, types) == text::lit("TObject"),
        value_type_text(5, payload, types) == text::lit("TFunction"),
        payload < 0 ==> value_type_text(6, payload, types) == text::lit("TClass"),
        payload < 0 ==> value_type_text(7, payload, types) == text::lit("TEnum"),
        0 <= payload <= u32::MAX ==> {
            let name = match type_info(types, payload as u32) {
                Some(t) => t.name,
                None => text::dec_int(payload as int),
            };
            &&& value_type_text(6, payload, types) == text::lit("TClass") + seq![40u8] + name + seq![
                41u8,
            ]
            &&& value_type_text(7, payload, types) == text::lit("TEnum") + seq![40u8] + name + seq![
                41u8,
            ]
        },
        value_type_text(8, payload, types) == text::lit("TUnknown(") + text::dec_int(payload as int)
            + seq![41u8],
        tag < 0 || tag > 8 ==> value_type_text(tag, payload, types) == text::lit("<ValueType:")
            + text::dec_int(tag as int) + seq![62u8],
{
}

/// The primitive types are registered under their tags, each with its name, unless something is
/// registered there.
pub proof fn law_primitives_are_registered(types: Seq<TypeFacts>)
    ensures
        ({
            let all = with_primitives(types);
            &&& type_info(types, 2) is None ==> type_info(all, 2) == Some(
                TypeFacts { type_id: 2, name: text::lit("Bool"), is_enum: false, is_class: false },
            )
            &&& type_info(types, 3) is None ==> type_info(all, 3) == Some(
                TypeFacts { type_id: 3, name: text::lit("Int"), is_enum: false, is_class: false },
            )
            &&& type_info(types, 4) is None ==> type_info(all, 4) == Some(
                TypeFacts { type_id: 4, name: text::lit("Float"), is_enum: false, is_class: false },
            )
            &&& type_info(types, 5) is None ==> type_info(all, 5) == Some(
                TypeFacts { type_id: 5, name: text::lit("String"), is_enum: false, is_class: false },
            )
            &&& forall|id: u32| #[trigger]
                type_info(types, id) is Some ==> type_info(all, id) == type_info(types, id)
        }),
{
    let a = with_primitive(types, 2, text::lit("Bool"));
    let b = with_primitive(a, 3, text::lit("Int"));
    let c = with_primitive(b, 4, text::lit("Float"));
    let d = with_primitive(c, 5, text::lit("String"));
    lemma_with_primitive(types, 2, text::lit("Bool"));
    lemma_with_primitive(a, 3, text::lit("Int"));
    lemma_with_primitive(b, 4, text::lit("Float"));
    lemma_with_primitive(c, 5, text::lit("String"));
    assert(d == with_primitives(types));
}

proof fn lemma_with_primitive(types: Seq<TypeFacts>, type_id: u32, name: Seq<u8>)
    ensures
        type_info(types, type_id) is None ==> type_info(
            with_primitive(types, type_id, name),
            type_id,
        ) == Some(TypeFacts { type_id, name, is_enum: false, is_class: false }),
        type_info(types, type_id) is Some ==> with_primitive(types, type_id, name) == types,
        forall|id: u32|
            id != type_id ==> #[trigger] type_info(with_primitive(types, type_id, name), id)
                == type_info(types, id),
{
    let t = TypeFacts { type_id, name, is_enum: false, is_class: false };
    lemma_type_index_bound(types, type_id);
    if type_index(types, type_id) < 0 {
        law_newest_type_counts(types, t, type_id);
        assert forall|id: u32| id != type_id implies #[trigger] type_info(
            with_primitive(types, type_id, name),
            id,
        ) == type_info(types, id) by {
            law_newest_type_counts(types, t, id);
        }
    }
}

} // verus!

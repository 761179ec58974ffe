//! Anonymous objects: a table of field layouts, and objects that several handles share until one
//! of them is written through.
//!
//! An object stores its fields either by position, as its layout says, or by name. Handles are
//! positive numbers; 0 is the null handle.

use crate::field_map::{self, FieldMap};
use crate::haxe_string::{self, HaxeString};
use crate::text;
use vstd::prelude::*;

verus! {

/// Type tag of the null value.
pub const TYPE_NULL: u32 = 1;

/// Type tag of booleans.
pub const TYPE_BOOL: u32 = 2;

/// Type tag of integers.
pub const TYPE_INT: u32 = 3;

/// Type tag of floating-point numbers.
pub const TYPE_FLOAT: u32 = 4;

/// Type tag of strings.
pub const TYPE_STRING: u32 = 5;

/// Type tag of anonymous objects.
pub const TYPE_ANON_OBJECT: u32 = 6;

/// Layout number of an object that stores its fields by name.
pub const DYNAMIC_SHAPE: u32 = u32::MAX;

/// The text that `String::from_utf8_lossy` makes of ill-formed UTF-8, as bytes again.
pub uninterp spec fn replaced_bytes(b: Seq<u8>) -> Seq<u8>;

/// Well-formed UTF-8 as it is, anything else with its ill-formed parts replaced.
pub open spec fn lossy_bytes(b: Seq<u8>) -> Seq<u8> {
    if vstd::utf8::valid_utf8(b) {
        b
    } else {
        replaced_bytes(b)
    }
}

/// Calls `String::from_utf8_lossy`: well-formed UTF-8 is kept, every ill-formed part becomes a
/// replacement character, so that the result is well-formed.
#[verifier::external_body]
pub(crate) fn utf8_lossy(bytes: &[u8]) -> (out: Vec<u8>)
    ensures
        out@ == (if vstd::utf8::valid_utf8(bytes@) {
            bytes@
        } else {
            replaced_bytes(bytes@)
        }),
        vstd::utf8::valid_utf8(out@),
{
    String::from_utf8_lossy(bytes).into_owned().into_bytes()
}

// ---------------------------------------------------------------------------
// Layouts
// ---------------------------------------------------------------------------

/// The names and type tags of the fields of a layout, by position.
pub struct ShapeDescriptor {
    pub field_names: Vec<Vec<u8>>,
    pub field_types: Vec<u32>,
}

/// A layout in the abstract.
pub ghost struct Shape {
    pub names: Seq<Seq<u8>>,
    pub types: Seq<u32>,
}

impl View for ShapeDescriptor {
    type V = Shape;

    open spec fn view(&self) -> Shape {
        Shape { names: text::views(self.field_names@), types: self.field_types@ }
    }
}

impl ShapeDescriptor {
    fn empty() -> (s: ShapeDescriptor)
        ensures
            s@ == (Shape { names: Seq::empty(), types: Seq::empty() }),
    {
        let s = ShapeDescriptor { field_names: Vec::new(), field_types: Vec::new() };
        assert(s@.names =~= Seq::empty());
        s
    }

    fn duplicate(&self) -> (s: ShapeDescriptor)
        ensures
            s@ == self@,
    {
        let mut field_names: Vec<Vec<u8>> = Vec::new();
        let mut i: usize = 0;
        while i < self.field_names.len()
            invariant
                i <= self.field_names@.len(),
                field_names@.len() == i,
                forall|j: int| 0 <= j < i ==> (#[trigger] field_names@[j])@ == self.field_names@[j]@,
            decreases self.field_names@.len() - i,
        {
            field_names.push(text::copy_all(self.field_names[i].as_slice()));
            i = i + 1;
        }
        let mut field_types: Vec<u32> = Vec::new();
        let mut k: usize = 0;
        while k < self.field_types.len()
            invariant
                k <= self.field_types@.len(),
                field_types@ == self.field_types@.take(k as int),
            decreases self.field_types@.len() - k,
        {
            field_types.push(self.field_types[k]);
            k = k + 1;
            assert(field_types@ =~= self.field_types@.take(k as int));
        }
        let s = ShapeDescriptor { field_names, field_types };
        assert(s@.names =~= self@.names);
        assert(s@.types =~= self@.types);
        s
    }
}

/// The table of all layouts; absent until first needed.
pub struct ShapeTable {
    pub table: Option<Vec<ShapeDescriptor>>,
}

/// Views of a list of layouts.
pub open spec fn shape_views(shapes: Seq<ShapeDescriptor>) -> Seq<Shape> {
    shapes.map_values(|s: ShapeDescriptor| s@)
}

impl View for ShapeTable {
    type V = Seq<Shape>;

    open spec fn view(&self) -> Seq<Shape> {
        match self.table {
            Some(t) => shape_views(t@),
            None => Seq::empty(),
        }
    }
}

/// Every layout has one type tag for each name.
pub open spec fn table_wf(t: Seq<Shape>) -> bool {
    forall|i: int| 0 <= i < t.len() ==> (#[trigger] t[i]).names.len() == t[i].types.len()
}

/// The layout of number `id`.
pub open spec fn shape_at(t: Seq<Shape>, id: u32) -> Option<Shape> {
    if (id as int) < t.len() {
        Some(t[id as int])
    } else {
        None
    }
}

/// Creates the table where it is absent.
pub fn ensure_shape_table(table: &mut ShapeTable)
    ensures
        final(table).table is Some,
        final(table)@ == old(table)@,
{
    if table.table.is_none() {
        table.table = Some(Vec::new());
        assert(table@ =~= old(table)@);
    }
}

/// The lossy text of each name.
pub open spec fn lossy_names(names: Seq<Vec<u8>>) -> Seq<Seq<u8>> {
    names.map_values(|n: Vec<u8>| lossy_bytes(n@))
}

/// Adds a layout and returns its number.
pub fn rayzor_register_shape(
    table: &mut ShapeTable,
    names: &Vec<Vec<u8>>,
    types: &Vec<u32>,
) -> (id: u32)
    requires
        names@.len() == types@.len(),
        table_wf(old(table)@),
    ensures
        id == old(table)@.len() as u32,
        final(table)@ == old(table)@.push(Shape { names: lossy_names(names@), types: types@ }),
        table_wf(final(table)@),
{
    ensure_shape_table(table);
    let mut field_names: Vec<Vec<u8>> = Vec::new();
    let mut field_types: Vec<u32> = Vec::new();
    let mut i: usize = 0;
    while i < names.len()
        invariant
            i <= names@.len(),
            names@.len() == types@.len(),
            field_names@.len() == i,
            forall|j: int| 0 <= j < i ==> (#[trigger] field_names@[j])@ == lossy_bytes(names@[j]@),
            field_types@ == types@.take(i as int),
        decreases names@.len() - i,
    {
        field_names.push(utf8_lossy(names[i].as_slice()));
        field_types.push(types[i]);
        i = i + 1;
        assert(field_types@ =~= types@.take(i as int));
    }
    let shape = ShapeDescriptor { field_names, field_types };
    assert(shape@.names =~= lossy_names(names@));
    assert(shape@.types =~= types@);
    let ghost before = table@;
    match &mut table.table {
        Some(t) => {
            let id: u32 = #[verifier::truncate]
            (t.len() as u32);
            t.push(shape);
            assert(shape_views(t@) =~= before.push(shape@));
            id
        },
        None => 0,
    }
}

/// `s` without a leading plus sign.
pub open spec fn strip_plus(s: Seq<u8>) -> Seq<u8> {
    if s.len() > 0 && s[0] == 43 {
        s.skip(1)
    } else {
        s
    }
}

/// Every byte of `d` is a decimal digit.
pub open spec fn all_digits(d: Seq<u8>) -> bool {
    forall|i: int| 0 <= i < d.len() ==> text::is_digit(#[trigger] d[i])
}

/// Value of a decimal `u32` with an optional plus sign; 0 for anything else.
pub open spec fn u32_or_zero(s: Seq<u8>) -> u32 {
    let d = strip_plus(s);
    if d.len() > 0 && all_digits(d) && text::dec_value(d) <= u32::MAX {
        text::dec_value(d) as u32
    } else {
        0
    }
}

proof fn lemma_dec_value_grows(d: Seq<u8>, k: int)
    requires
        0 <= k <= d.len(),
        all_digits(d),
    ensures
        text::dec_value(d.take(k)) <= text::dec_value(d),
    decreases d.len() - k,
{
    if k == d.len() {
        assert(d.take(k) =~= d);
    } else {
        lemma_dec_value_grows(d, k + 1);
        assert(d.take(k + 1).drop_last() =~= d.take(k));
    }
}

fn parse_u32_or_zero(s: &[u8]) -> (r: u32)
    ensures
        r == u32_or_zero(s@),
{
    let start: usize = if s.len() > 0 && s[0] == 43 {
        1
    } else {
        0
    };
    let ghost d = strip_plus(s@);
    if start >= s.len() {
        return 0;
    }
    let mut value: u32 = 0;
    let mut i: usize = start;
    while i < s.len()
        invariant
            start <= i <= s@.len(),
            start <= 1,
            d == strip_plus(s@),
            start == 1 <==> s@.len() > 0 && s@[0] == 43,
            forall|j: int| 0 <= j < i - start ==> text::is_digit(#[trigger] d[j]),
            value == text::dec_value(d.take(i - start)),
            d.len() == s@.len() - start,
        decreases s@.len() - i,
    {
        let b: u8 = s[i];
        assert(d[i - start] == b);
        if b < 48 || b > 57 {
            return 0;
        }
        let wide: u64 = (value as u64) * 10 + ((b - 48) as u64);
        assert(d.take(i - start + 1).drop_last() =~= d.take(i - start));
        if wide > 0xFFFF_FFFF {
            proof {
                if all_digits(d) {
                    lemma_dec_value_grows(d, i - start + 1);
                }
            }
            return 0;
        }
        value = wide as u32;
        i = i + 1;
    }
    assert(d.take(i - start) =~= d);
    value
}

/// The name before the first colon of a field description.
pub open spec fn field_name(part: Seq<u8>) -> Seq<u8> {
    let i = text::find_from(part, seq![58u8], 0);
    if i < 0 {
        part
    } else {
        part.subrange(0, i)
    }
}

/// The type tag after the first colon of a field description.
pub open spec fn field_type(part: Seq<u8>) -> u32 {
    let i = text::find_from(part, seq![58u8], 0);
    if i < 0 {
        0
    } else {
        u32_or_zero(part.subrange(i + 1, part.len() as int))
    }
}

/// The layout that field descriptions give, leaving out empty ones.
pub open spec fn shape_of_parts(parts: Seq<Seq<u8>>) -> Shape
    decreases parts.len(),
{
    if parts.len() == 0 {
        Shape { names: Seq::empty(), types: Seq::empty() }
    } else {
        let rest = shape_of_parts(parts.drop_last());
        if parts.last().len() == 0 {
            rest
        } else {
            Shape {
                names: rest.names.push(field_name(parts.last())),
                types: rest.types.push(field_type(parts.last())),
            }
        }
    }
}

/// The layout that a description `name:type,name:type,..` gives.
pub open spec fn shape_of(descriptor: Seq<u8>) -> Shape {
    shape_of_parts(text::pieces(descriptor, seq![44u8], 0))
}

/// A described layout has one type tag for each name.
pub proof fn lemma_shape_of_parts(parts: Seq<Seq<u8>>)
    ensures
        shape_of_parts(parts).names.len() == shape_of_parts(parts).types.len(),
    decreases parts.len(),
{
    if parts.len() > 0 {
        lemma_shape_of_parts(parts.drop_last());
    }
}

fn parse_descriptor(descriptor: &[u8]) -> (shape: ShapeDescriptor)
    ensures
        shape@ == shape_of(descriptor@),
{
    let comma: &[u8] = &[44];
    let colon: &[u8] = &[58];
    assert(comma@ =~= seq![44u8]);
    assert(colon@ =~= seq![58u8]);
    let parts: Vec<Vec<u8>> = text::split(descriptor, comma);
    let ghost all = text::views(parts@);
    let mut field_names: Vec<Vec<u8>> = Vec::new();
    let mut field_types: Vec<u32> = Vec::new();
    let mut i: usize = 0;
    assert(text::views(field_names@) =~= shape_of_parts(all.take(0)).names);
    assert(field_types@ =~= shape_of_parts(all.take(0)).types);
    while i < parts.len()
        invariant
            i <= parts@.len(),
            all == text::views(parts@),
            colon@ == seq![58u8],
            text::views(field_names@) == shape_of_parts(all.take(i as int)).names,
            field_types@ == shape_of_parts(all.take(i as int)).types,
        decreases parts@.len() - i,
    {
        let ghost names_before = field_names@;
        let part: &[u8] = parts[i].as_slice();
        assert(all.take(i + 1).drop_last() =~= all.take(i as int));
        assert(all.take(i + 1).last() == part@);
        proof {
            text::lemma_find_from(part@, colon@, 0);
        }
        if part.len() > 0 {
            match text::find(part, colon, 0) {
                Some(c) => {
                    field_names.push(text::copy_range(part, 0, c));
                    let tail: Vec<u8> = text::copy_range(part, c + 1, part.len());
                    field_types.push(parse_u32_or_zero(tail.as_slice()));
                },
                None => {
                    field_names.push(text::copy_all(part));
                    field_types.push(0);
                },
            }
            assert(text::views(field_names@) =~= text::views(names_before).push(
                field_name(part@),
            ));
        }
        i = i + 1;
    }
    assert(all.take(i as int) =~= all);
    ShapeDescriptor { field_names, field_types }
}

/// The table once layout `id` has been described: a layout that has fields stays, and a missing
/// or empty description changes nothing; otherwise the table grows by empty layouts as far as
/// needed.
pub open spec fn ensured(t: Seq<Shape>, id: u32, descriptor: Seq<u8>) -> Seq<Shape> {
    if (id as int) < t.len() && t[id as int].names.len() > 0 {
        t
    } else if descriptor.len() == 0 {
        t
    } else if (id as int) < t.len() {
        t.update(id as int, shape_of(descriptor))
    } else {
        Seq::new(
            (id + 1) as nat,
            |i: int|
                if i < t.len() {
                    t[i]
                } else if i == id {
                    shape_of(descriptor)
                } else {
                    Shape { names: Seq::empty(), types: Seq::empty() }
                },
        )
    }
}

/// Makes sure that a layout stands under `shape_id`.
pub fn rayzor_ensure_shape(table: &mut ShapeTable, shape_id: u32, descriptor: Option<&HaxeString>)
    requires
        table_wf(old(table)@),
    ensures
        final(table)@ == ensured(old(table)@, shape_id, haxe_string::opt_view(descriptor)),
        table_wf(final(table)@),
{
    ensure_shape_table(table);
    let ghost before = table@;
    let id: usize = shape_id as usize;
    match &table.table {
        Some(t) => {
            if id < t.len() {
                assert(before[id as int] == t@[id as int]@);
                assert(before[id as int].names.len() == t@[id as int].field_names@.len());
                if t[id].field_names.len() > 0 {
                    return;
                }
            }
        },
        None => {},
    }
    let desc: &[u8] = match descriptor {
        Some(h) => h.bytes(),
        None => {
            return;
        },
    };
    if desc.len() == 0 {
        return;
    }
    let shape: ShapeDescriptor = parse_descriptor(desc);
    proof {
        lemma_shape_of_parts(text::pieces(desc@, seq![44u8], 0));
    }
    match &mut table.table {
        Some(t) => {
            while t.len() <= id
                invariant
                    shape_views(t@).len() >= before.len(),
                    t@.len() <= id || t@.len() == before.len() || t@.len() == id + 1,
                    forall|i: int| 0 <= i < before.len() ==> (#[trigger] t@[i])@ == before[i],
                    forall|i: int|
                        before.len() <= i < t@.len() ==> (#[trigger] t@[i])@ == (Shape {
                            names: Seq::empty(),
                            types: Seq::empty(),
                        }),
                decreases id + 1 - t@.len(),
            {
                t.push(ShapeDescriptor::empty());
            }
            t.set(id, shape);
            assert(shape_views(t@) =~= ensured(before, shape_id, desc@));
        },
        None => {},
    }
}

/// Describing a layout a second time changes nothing.
pub proof fn law_ensure_shape_idempotent(t: Seq<Shape>, id: u32, d1: Seq<u8>, d2: Seq<u8>)
    requires
        shape_of(d1).names.len() > 0,
        d1.len() > 0,
    ensures
        ensured(ensured(t, id, d1), id, d2) == ensured(t, id, d1),
{
}

/// Describing one layout leaves every other layout that was there.
pub proof fn law_ensure_shape_keeps_others(t: Seq<Shape>, id: u32, d: Seq<u8>, other: u32)
    requires
        other != id,
        shape_at(t, other) is Some,
    ensures
        shape_at(ensured(t, id, d), other) == shape_at(t, other),
{
}

/// A copy of the layout of number `shape_id`.
pub fn get_shape(table: &ShapeTable, shape_id: u32) -> (s: Option<ShapeDescriptor>)
    ensures
        match s {
            Some(s) => shape_at(table@, shape_id) == Some(s@),
            None => shape_at(table@, shape_id) is None,
        },
{
    match &table.table {
        Some(t) => {
            if (shape_id as usize) < t.len() {
                Some(t[shape_id as usize].duplicate())
            } else {
                None
            }
        },
        None => None,
    }
}

// ---------------------------------------------------------------------------
// Objects
// ---------------------------------------------------------------------------

/// Fields of an object, by position or by name.
pub enum AnonData {
    Inline(Vec<u64>),
    Named(FieldMap<(u32, u64)>),
}

/// An anonymous object.
pub struct AnonObject {
    pub shape_id: u32,
    pub data: AnonData,
}

/// Fields of an object in the abstract.
pub ghost enum Fields {
    Inline(Seq<u64>),
    Named(Seq<(Seq<u8>, (u32, u64))>),
}

/// An object in the abstract.
pub ghost struct Obj {
    pub shape_id: u32,
    pub fields: Fields,
}

impl View for AnonObject {
    type V = Obj;

    open spec fn view(&self) -> Obj {
        Obj {
            shape_id: self.shape_id,
            fields: match self.data {
                AnonData::Inline(v) => Fields::Inline(v@),
                AnonData::Named(m) => Fields::Named(m.seq()),
            },
        }
    }
}

/// The names of an object that stores its fields by name are in order.
pub open spec fn obj_wf(o: Obj) -> bool {
    o.fields matches Fields::Named(s) ==> field_map::sorted(s)
}

impl AnonObject {
    fn duplicate(&self) -> (o: AnonObject)
        ensures
            o@ == self@,
    {
        match &self.data {
            AnonData::Inline(v) => {
                let mut w: Vec<u64> = Vec::new();
                let mut i: usize = 0;
                while i < v.len()
                    invariant
                        i <= v@.len(),
                        w@ == v@.take(i as int),
                    decreases v@.len() - i,
                {
                    w.push(v[i]);
                    i = i + 1;
                    assert(w@ =~= v@.take(i as int));
                }
                assert(w@ =~= v@);
                AnonObject { shape_id: self.shape_id, data: AnonData::Inline(w) }
            },
            AnonData::Named(m) => AnonObject {
                shape_id: self.shape_id,
                data: AnonData::Named(m.duplicate()),
            },
        }
    }
}

/// A new object: by name for the dynamic layout, else `field_count` zeros.
pub open spec fn new_obj(shape_id: u32, field_count: u32) -> Obj {
    Obj {
        shape_id,
        fields: if shape_id == DYNAMIC_SHAPE {
            Fields::Named(Seq::empty())
        } else {
            Fields::Inline(Seq::new(field_count as nat, |i: int| 0u64))
        },
    }
}

fn new_object(shape_id: u32, field_count: u32) -> (o: AnonObject)
    ensures
        o@ == new_obj(shape_id, field_count),
        obj_wf(o@),
{
    if shape_id == DYNAMIC_SHAPE {
        AnonObject { shape_id, data: AnonData::Named(FieldMap::new()) }
    } else {
        let mut v: Vec<u64> = Vec::new();
        let mut i: u32 = 0;
        while i < field_count
            invariant
                i <= field_count,
                v@.len() == i,
                forall|j: int| 0 <= j < i ==> v@[j] == 0,
            decreases field_count - i,
        {
            v.push(0);
            i = i + 1;
        }
        assert(v@ =~= Seq::new(field_count as nat, |i: int| 0u64));
        AnonObject { shape_id, data: AnonData::Inline(v) }
    }
}

/// Position of a name in a list of names, or its length.
pub open spec fn name_index(names: Seq<Seq<u8>>, name: Seq<u8>) -> int
    decreases names.len(),
{
    if names.len() == 0 || names[0] == name {
        0
    } else {
        1 + name_index(names.drop_first(), name)
    }
}

/// The name stands at its index, and nowhere before it.
pub proof fn lemma_name_index(names: Seq<Seq<u8>>, name: Seq<u8>)
    ensures
        0 <= name_index(names, name) <= names.len(),
        name_index(names, name) < names.len() ==> names[name_index(names, name)] == name,
        forall|i: int| 0 <= i < name_index(names, name) ==> names[i] != name,
    decreases names.len(),
{
    if names.len() > 0 && names[0] != name {
        lemma_name_index(names.drop_first(), name);
        assert forall|i: int| 0 <= i < name_index(names, name) implies names[i] != name by {
            if i > 0 {
                assert(names[i] == names.drop_first()[i - 1]);
            }
        }
    }
}

/// `name_index` is the only such position.
pub proof fn lemma_name_index_at(names: Seq<Seq<u8>>, name: Seq<u8>, i: int)
    requires
        0 <= i < names.len(),
        names[i] == name,
        forall|j: int| 0 <= j < i ==> names[j] != name,
    ensures
        name_index(names, name) == i,
{
    lemma_name_index(names, name);
    if name_index(names, name) < i {
        assert(names[name_index(names, name)] == name);
    }
}

impl ShapeDescriptor {
    fn position(&self, name: &[u8]) -> (p: Option<usize>)
        ensures
            match p {
                Some(i) => i < self@.names.len() && name_index(self@.names, name@) == i,
                None => name_index(self@.names, name@) == self@.names.len(),
            },
    {
        let mut i: usize = 0;
        while i < self.field_names.len()
            invariant
                i <= self.field_names@.len(),
                forall|j: int| 0 <= j < i ==> self@.names[j] != name@,
            decreases self.field_names@.len() - i,
        {
            assert(self@.names[i as int] == self.field_names@[i as int]@);
            if text::equal(self.field_names[i].as_slice(), name) {
                proof {
                    lemma_name_index_at(self@.names, name@, i as int);
                }
                return Some(i);
            }
            i = i + 1;
        }
        proof {
            lemma_name_index(self@.names, name@);
        }
        None
    }
}

/// A dynamic value as it is handed to an object: its type tag and its word, if it has one.
#[derive(Clone, Copy)]
pub struct DynamicWord {
    pub type_id: u32,
    pub word: Option<u64>,
}

/// What is stored for a dynamic value; a null one is stored as the null tag and 0.
pub open spec fn stored(value: Option<DynamicWord>) -> (u32, u64) {
    match value {
        None => (TYPE_NULL, 0),
        Some(d) => (
            d.type_id,
            match d.word {
                Some(w) => w,
                None => 0,
            },
        ),
    }
}

fn stored_word(value: Option<DynamicWord>) -> (r: (u32, u64))
    ensures
        r == stored(value),
{
    match value {
        None => (TYPE_NULL, 0),
        Some(d) => match d.word {
            Some(w) => (d.type_id, w),
            None => (d.type_id, 0),
        },
    }
}

/// A field value as it is handed back.
#[derive(Clone, Copy)]
pub enum BoxedValue {
    Null,
    Bool(bool),
    Int(i64),
    FloatBits(u64),
    Reference(u32, u64),
}

/// The value that a type tag and a word stand for.
pub open spec fn boxed(type_id: u32, value: u64) -> BoxedValue {
    if type_id == TYPE_INT {
        BoxedValue::Int(value as i64)
    } else if type_id == TYPE_FLOAT {
        BoxedValue::FloatBits(value)
    } else if type_id == TYPE_BOOL {
        BoxedValue::Bool(value != 0)
    } else if type_id == TYPE_NULL {
        BoxedValue::Null
    } else {
        BoxedValue::Reference(type_id, value)
    }
}

/// Boxes a word by its type tag.
pub fn box_value_as_dynamic(type_id: u32, value: u64) -> (b: BoxedValue)
    ensures
        b == boxed(type_id, value),
{
    if type_id == TYPE_INT {
        BoxedValue::Int(#[verifier::truncate] (value as i64))
    } else if type_id == TYPE_FLOAT {
        BoxedValue::FloatBits(value)
    } else if type_id == TYPE_BOOL {
        BoxedValue::Bool(value != 0)
    } else if type_id == TYPE_NULL {
        BoxedValue::Null
    } else {
        BoxedValue::Reference(type_id, value)
    }
}

/// The object has a field of that name.
pub open spec fn obj_has(t: Seq<Shape>, o: Obj, name: Seq<u8>) -> bool {
    match o.fields {
        Fields::Inline(_) => match shape_at(t, o.shape_id) {
            Some(s) => name_index(s.names, name) < s.names.len(),
            None => false,
        },
        Fields::Named(m) => field_map::has(m, name),
    }
}

/// Type tag and word of the field of that name.
pub open spec fn obj_get(t: Seq<Shape>, o: Obj, name: Seq<u8>) -> Option<(u32, u64)> {
    match o.fields {
        Fields::Inline(v) => match shape_at(t, o.shape_id) {
            Some(s) => {
                let i = name_index(s.names, name);
                if i < s.names.len() {
                    Some((s.types[i], v[i]))
                } else {
                    None
                }
            },
            None => None,
        },
        Fields::Named(m) => field_map::lookup(m, name),
    }
}

/// The field of that name is there if the layout of an object by position names it.
pub open spec fn readable(t: Seq<Shape>, o: Obj, name: Seq<u8>) -> bool {
    o.fields matches Fields::Inline(v) ==> (shape_at(t, o.shape_id) matches Some(s) ==> (
    name_index(s.names, name) < s.names.len() ==> name_index(s.names, name) < v.len()))
}

/// What setting the field of that name reads is there: the field itself, or where the layout does
/// not name it all the fields that it names.
pub open spec fn settable(t: Seq<Shape>, o: Obj, name: Seq<u8>) -> bool {
    o.fields matches Fields::Inline(v) ==> (shape_at(t, o.shape_id) matches Some(s) ==> if name_index(
        s.names,
        name,
    ) < s.names.len() {
        name_index(s.names, name) < v.len()
    } else {
        s.names.len() <= v.len()
    })
}

/// All fields that a layout names are there, except for one name.
pub open spec fn all_but(s: Shape, v: Seq<u64>, skip: Option<Seq<u8>>) -> bool {
    forall|i: int| 0 <= i < s.names.len() && skip != Some(#[trigger] s.names[i]) ==> i < v.len()
}

/// What deleting the field of that name reads is there: all the other fields that the layout
/// names.
pub open spec fn deletable(t: Seq<Shape>, o: Obj, name: Seq<u8>) -> bool {
    o.fields matches Fields::Inline(v) ==> (shape_at(t, o.shape_id) matches Some(s) ==> all_but(
        s,
        v,
        Some(name),
    ))
}

/// The fields of an object by position under their names, from the first `n` positions; `skip`
/// is left out.
pub open spec fn named_fields(s: Shape, v: Seq<u64>, n: int, skip: Option<Seq<u8>>) -> Seq<
    (Seq<u8>, (u32, u64)),
>
    decreases n,
{
    if n <= 0 {
        Seq::empty()
    } else {
        let rest = named_fields(s, v, n - 1, skip);
        if skip == Some(s.names[n - 1]) {
            rest
        } else {
            field_map::put(rest, s.names[n - 1], (s.types[n - 1], v[n - 1]))
        }
    }
}

/// The named form is in order.
pub proof fn lemma_named_sorted(s: Shape, v: Seq<u64>, n: int, skip: Option<Seq<u8>>)
    ensures
        field_map::sorted(named_fields(s, v, n, skip)),
    decreases n,
{
    if n > 0 {
        lemma_named_sorted(s, v, n - 1, skip);
        field_map::lemma_put_sorted(
            named_fields(s, v, n - 1, skip),
            s.names[n - 1],
            (s.types[n - 1], v[n - 1]),
        );
    }
}

fn promote(shape: &ShapeDescriptor, fields: &Vec<u64>, skip: Option<&[u8]>) -> (m: FieldMap<
    (u32, u64),
>)
    requires
        all_but(
            shape@,
            fields@,
            match skip {
                Some(k) => Some(k@),
                None => None,
            },
        ),
        shape@.names.len() == shape@.types.len(),
    ensures
        m.wf(),
        m.seq() == named_fields(
            shape@,
            fields@,
            shape@.names.len() as int,
            match skip {
                Some(k) => Some(k@),
                None => None,
            },
        ),
{
    let mut m: FieldMap<(u32, u64)> = FieldMap::new();
    let mut i: usize = 0;
    let ghost skipped: Option<Seq<u8>> = match skip {
        Some(k) => Some(k@),
        None => None,
    };
    while i < shape.field_names.len()
        invariant
            i <= shape@.names.len(),
            shape@.names.len() == shape.field_names@.len(),
            all_but(shape@, fields@, skipped),
            shape@.names.len() == shape@.types.len(),
            skipped == (match skip {
                Some(k) => Some(k@),
                None => None,
            }),
            m.wf(),
            m.seq() == named_fields(shape@, fields@, i as int, skipped),
        decreases shape@.names.len() - i,
    {
        assert(shape@.names[i as int] == shape.field_names@[i as int]@);
        let omit: bool = match skip {
            Some(k) => text::equal(k, shape.field_names[i].as_slice()),
            None => false,
        };
        if !omit {
            m.insert(
                text::copy_all(shape.field_names[i].as_slice()),
                (shape.field_types[i], fields[i]),
            );
        }
        i = i + 1;
    }
    m
}

/// The object once a field has been set. A name that the layout of an object by position does
/// not have turns it into an object by name.
pub open spec fn obj_set(t: Seq<Shape>, o: Obj, name: Seq<u8>, value: (u32, u64)) -> Obj {
    match o.fields {
        Fields::Inline(v) => match shape_at(t, o.shape_id) {
            Some(s) => {
                let i = name_index(s.names, name);
                if i < s.names.len() {
                    Obj { shape_id: o.shape_id, fields: Fields::Inline(v.update(i, value.1)) }
                } else {
                    Obj {
                        shape_id: DYNAMIC_SHAPE,
                        fields: Fields::Named(
                            field_map::put(
                                named_fields(s, v, s.names.len() as int, None),
                                name,
                                value,
                            ),
                        ),
                    }
                }
            },
            None => Obj {
                shape_id: DYNAMIC_SHAPE,
                fields: Fields::Named(field_map::put(Seq::empty(), name, value)),
            },
        },
        Fields::Named(m) => Obj {
            shape_id: o.shape_id,
            fields: Fields::Named(field_map::put(m, name, value)),
        },
    }
}

/// The object once a field has been deleted. An object by position with a known layout becomes
/// one by name; with an unknown layout it stays.
pub open spec fn obj_delete(t: Seq<Shape>, o: Obj, name: Seq<u8>) -> Obj {
    match o.fields {
        Fields::Inline(v) => match shape_at(t, o.shape_id) {
            Some(s) => Obj {
                shape_id: DYNAMIC_SHAPE,
                fields: Fields::Named(named_fields(s, v, s.names.len() as int, Some(name))),
            },
            None => o,
        },
        Fields::Named(m) => Obj {
            shape_id: o.shape_id,
            fields: Fields::Named(field_map::del(m, name)),
        },
    }
}

/// The names of the fields: in layout order, or in increasing order.
pub open spec fn obj_names(t: Seq<Shape>, o: Obj) -> Seq<Seq<u8>> {
    match o.fields {
        Fields::Inline(_) => match shape_at(t, o.shape_id) {
            Some(s) => s.names,
            None => Seq::empty(),
        },
        Fields::Named(m) => m.map_values(|e: (Seq<u8>, (u32, u64))| e.0),
    }
}

/// The object once the field at a position has been set; nothing happens outside the positions
/// or on an object by name.
pub open spec fn obj_set_index(o: Obj, index: int, value: u64) -> Obj {
    match o.fields {
        Fields::Inline(v) => if 0 <= index < v.len() {
            Obj { shape_id: o.shape_id, fields: Fields::Inline(v.update(index, value)) }
        } else {
            o
        },
        Fields::Named(_) => o,
    }
}

/// The field at a position; 0 outside the positions or on an object by name.
pub open spec fn obj_get_index(o: Obj, index: int) -> u64 {
    match o.fields {
        Fields::Inline(v) => if 0 <= index < v.len() {
            v[index]
        } else {
            0
        },
        Fields::Named(_) => 0,
    }
}

fn set_field_of(table: &ShapeTable, o: &mut AnonObject, name: Vec<u8>, value: (u32, u64))
    requires
        table_wf(table@),
        obj_wf(old(o)@),
        settable(table@, old(o)@, name@),
    ensures
        final(o)@ == obj_set(table@, old(o)@, name@, value),
        obj_wf(final(o)@),
{
    let shape: Option<ShapeDescriptor> = get_shape(table, o.shape_id);
    let ghost before = o@;
    let mut promoted: Option<FieldMap<(u32, u64)>> = None;
    match &mut o.data {
        AnonData::Inline(fields) => match &shape {
            Some(s) => match s.position(name.as_slice()) {
                Some(i) => {
                    fields.set(i, value.1);
                    return;
                },
                None => {
                    promoted = Some(promote(s, fields, None));
                },
            },
            None => {
                promoted = Some(FieldMap::new());
            },
        },
        AnonData::Named(m) => {
            proof {
                field_map::lemma_put_sorted(m.seq(), name@, value);
            }
            m.insert(name, value);
            return;
        },
    }
    match promoted {
        Some(mut m) => {
            m.insert(name, value);
            o.shape_id = DYNAMIC_SHAPE;
            o.data = AnonData::Named(m);
        },
        None => {},
    }
}

fn delete_field_of(table: &ShapeTable, o: &mut AnonObject, name: &[u8]) -> (found: bool)
    requires
        table_wf(table@),
        obj_wf(old(o)@),
        deletable(table@, old(o)@, name@),
    ensures
        final(o)@ == obj_delete(table@, old(o)@, name@),
        obj_wf(final(o)@),
        found == obj_has(table@, old(o)@, name@),
{
    let shape: Option<ShapeDescriptor> = get_shape(table, o.shape_id);
    let mut promoted: Option<(FieldMap<(u32, u64)>, bool)> = None;
    match &mut o.data {
        AnonData::Inline(fields) => match &shape {
            Some(s) => {
                let found: bool = s.position(name).is_some();
                promoted = Some((promote(s, fields, Some(name)), found));
            },
            None => {
                return false;
            },
        },
        AnonData::Named(m) => {
            return m.remove(name);
        },
    }
    match promoted {
        Some((m, found)) => {
            o.shape_id = DYNAMIC_SHAPE;
            o.data = AnonData::Named(m);
            found
        },
        None => false,
    }
}

fn set_index_of(o: &mut AnonObject, index: u32, value: u64)
    requires
        obj_wf(old(o)@),
    ensures
        final(o)@ == obj_set_index(old(o)@, index as int, value),
        obj_wf(final(o)@),
{
    match &mut o.data {
        AnonData::Inline(fields) => {
            if (index as usize) < fields.len() {
                fields.set(index as usize, value);
            }
        },
        AnonData::Named(_) => {},
    }
}

// ---------------------------------------------------------------------------
// Laws of fields
// ---------------------------------------------------------------------------

/// The last of the first `n` positions where a name stands; -1 where there is none.
pub open spec fn last_index(names: Seq<Seq<u8>>, name: Seq<u8>, n: int) -> int
    decreases n,
{
    if n <= 0 {
        -1
    } else if names[n - 1] == name {
        n - 1
    } else {
        last_index(names, name, n - 1)
    }
}

proof fn lemma_last_index(names: Seq<Seq<u8>>, name: Seq<u8>, n: int)
    requires
        0 <= n <= names.len(),
    ensures
        -1 <= last_index(names, name, n) < n,
        last_index(names, name, n) >= 0 ==> names[last_index(names, name, n)] == name,
        last_index(names, name, n) >= 0 <==> name_index(names, name) < n,
    decreases n,
{
    lemma_name_index(names, name);
    if n > 0 {
        lemma_last_index(names, name, n - 1);
        if name_index(names, name) == n - 1 {
            assert(names[n - 1] == name);
        }
    }
}

/// An object by position gives one value to a name: where its layout has the name more than once,
/// the first of these fields and the last are the same.
pub open spec fn reads_alike(t: Seq<Shape>, o: Obj, name: Seq<u8>) -> bool {
    o.fields matches Fields::Inline(v) ==> (shape_at(t, o.shape_id) matches Some(s) ==> {
        let first = name_index(s.names, name);
        let last = last_index(s.names, name, s.names.len() as int);
        first < s.names.len() ==> s.types[first] == s.types[last] && v[first] == v[last]
    })
}

/// Where the layout of an object names nothing twice, each name has one value.
pub proof fn law_distinct_names_read_alike(t: Seq<Shape>, o: Obj, name: Seq<u8>)
    requires
        shape_at(t, o.shape_id) matches Some(s) ==> s.names.no_duplicates(),
    ensures
        reads_alike(t, o, name),
{
    if let Some(s) = shape_at(t, o.shape_id) {
        lemma_name_index(s.names, name);
        lemma_last_index(s.names, name, s.names.len() as int);
    }
}

proof fn lemma_named_lookup(s: Shape, v: Seq<u64>, n: int, skip: Option<Seq<u8>>, k: Seq<u8>)
    requires
        0 <= n <= s.names.len(),
    ensures
        field_map::lookup(named_fields(s, v, n, skip), k) == (if last_index(s.names, k, n) >= 0
            && skip != Some(k) {
            Some((s.types[last_index(s.names, k, n)], v[last_index(s.names, k, n)]))
        } else {
            None
        }),
    decreases n,
{
    if n > 0 {
        let rest = named_fields(s, v, n - 1, skip);
        lemma_named_lookup(s, v, n - 1, skip, k);
        lemma_named_sorted(s, v, n - 1, skip);
        let last = s.names[n - 1];
        if skip != Some(last) {
            if last == k {
                field_map::law_put_lookup(rest, last, (s.types[n - 1], v[n - 1]));
            } else {
                field_map::law_put_lookup_other(rest, last, (s.types[n - 1], v[n - 1]), k);
            }
        }
    }
}

/// A field that was set is read back: the word is the one that was set, and so is the type tag,
/// unless the layout of an object by position fixes it.
pub proof fn law_set_get(t: Seq<Shape>, o: Obj, name: Seq<u8>, value: (u32, u64))
    requires
        table_wf(t),
        obj_wf(o),
        settable(t, o, name),
        DYNAMIC_SHAPE as int >= t.len(),
    ensures
        obj_get(t, obj_set(t, o, name, value), name) matches Some(r) && r.1 == value.1 && (r.0
            == value.0 || (o.fields is Inline && obj_has(t, o, name))),
{
    match o.fields {
        Fields::Inline(v) => {
            match shape_at(t, o.shape_id) {
                Some(s) => {
                    lemma_name_index(s.names, name);
                    lemma_named_sorted(s, v, s.names.len() as int, None);
                    field_map::law_put_lookup(
                        named_fields(s, v, s.names.len() as int, None),
                        name,
                        value,
                    );
                },
                None => {
                    field_map::law_put_lookup(Seq::<(Seq<u8>, (u32, u64))>::empty(), name, value);
                },
            }
        },
        Fields::Named(m) => {
            field_map::law_put_lookup(m, name, value);
        },
    }
}

/// Setting a field leaves the other fields, also where it turns an object by position into one
/// by name. Then a name that the layout has more than once keeps its value exactly where it has
/// only one.
pub proof fn law_set_get_other(
    t: Seq<Shape>,
    o: Obj,
    name: Seq<u8>,
    value: (u32, u64),
    other: Seq<u8>,
)
    requires
        table_wf(t),
        obj_wf(o),
        settable(t, o, name),
        readable(t, o, other),
        other != name,
    ensures
        obj_get(t, obj_set(t, o, name, value), other) == obj_get(t, o, other) <==> obj_has(t, o, name)
            || reads_alike(t, o, other),
{
    match o.fields {
        Fields::Inline(v) => {
            match shape_at(t, o.shape_id) {
                Some(s) => {
                    lemma_name_index(s.names, name);
                    lemma_name_index(s.names, other);
                    let n = s.names.len() as int;
                    lemma_last_index(s.names, other, n);
                    lemma_named_sorted(s, v, n, None);
                    lemma_named_lookup(s, v, n, None, other);
                    field_map::law_put_lookup_other(named_fields(s, v, n, None), name, value, other);
                },
                None => {
                    field_map::law_put_lookup_other(
                        Seq::<(Seq<u8>, (u32, u64))>::empty(),
                        name,
                        value,
                        other,
                    );
                },
            }
        },
        Fields::Named(m) => {
            field_map::law_put_lookup_other(m, name, value, other);
        },
    }
}

proof fn lemma_named_skipped(s: Shape, v: Seq<u64>, n: int, name: Seq<u8>)
    requires
        0 <= n <= s.names.len(),
    ensures
        !field_map::has(named_fields(s, v, n, Some(name)), name),
    decreases n,
{
    if n > 0 {
        let rest = named_fields(s, v, n - 1, Some(name));
        lemma_named_skipped(s, v, n - 1, name);
        lemma_named_sorted(s, v, n - 1, Some(name));
        let last = s.names[n - 1];
        if last != name {
            field_map::law_put_lookup_other(rest, last, (s.types[n - 1], v[n - 1]), name);
            assert(field_map::lookup(rest, name) is None);
        }
    }
}

/// A deleted field is gone.
pub proof fn law_delete_has(t: Seq<Shape>, o: Obj, name: Seq<u8>)
    requires
        table_wf(t),
        obj_wf(o),
    ensures
        !obj_has(t, obj_delete(t, o, name), name),
{
    match o.fields {
        Fields::Inline(v) => {
            if let Some(s) = shape_at(t, o.shape_id) {
                lemma_named_skipped(s, v, s.names.len() as int, name);
            }
        },
        Fields::Named(m) => {
            field_map::law_del_lookup(m, name);
        },
    }
}

/// Deleting a field leaves the other fields: each is still there, and it keeps its type and its
/// value exactly where it has only one.
pub proof fn law_delete_get_other(t: Seq<Shape>, o: Obj, name: Seq<u8>, other: Seq<u8>)
    requires
        table_wf(t),
        obj_wf(o),
        other != name,
    ensures
        obj_has(t, obj_delete(t, o, name), other) == obj_has(t, o, other),
        obj_get(t, obj_delete(t, o, name), other) == obj_get(t, o, other) <==> reads_alike(
            t,
            o,
            other,
        ),
{
    match o.fields {
        Fields::Inline(v) => {
            if let Some(s) = shape_at(t, o.shape_id) {
                lemma_name_index(s.names, other);
                lemma_last_index(s.names, other, s.names.len() as int);
                lemma_named_lookup(s, v, s.names.len() as int, Some(name), other);
            }
        },
        Fields::Named(m) => {
            field_map::law_del_lookup_other(m, name, other);
        },
    }
}

/// A field set by position is read back by position, and the others stay.
pub proof fn law_set_get_index(o: Obj, i: int, j: int, value: u64)
    ensures
        (o.fields matches Fields::Inline(v) && 0 <= i < v.len()) ==> obj_get_index(
            obj_set_index(o, i, value),
            i,
        ) == value,
        i != j ==> obj_get_index(obj_set_index(o, i, value), j) == obj_get_index(o, j),
{
}

// ---------------------------------------------------------------------------
// Handles
// ---------------------------------------------------------------------------

/// An object and the number of handles that share it.
pub struct AnonCell {
    refs: usize,
    object: AnonObject,
}

/// All anonymous objects and their handles.
pub struct AnonStore {
    handles: Vec<Option<usize>>,
    cells: Vec<AnonCell>,
}

/// A handle on cell `c`.
pub open spec fn on_cell(handle: Option<usize>, c: int) -> bool {
    handle is Some && handle->Some_0 == c
}

/// Number of handles on cell `c`.
pub closed spec fn count(handles: Seq<Option<usize>>, c: int) -> nat
    decreases handles.len(),
{
    if handles.len() == 0 {
        0
    } else {
        count(handles.drop_last(), c) + if on_cell(handles.last(), c) {
            1nat
        } else {
            0
        }
    }
}

proof fn lemma_count_push(handles: Seq<Option<usize>>, x: Option<usize>, c: int)
    ensures
        count(handles.push(x), c) == count(handles, c) + if on_cell(x, c) {
            1nat
        } else {
            0
        },
{
    assert(handles.push(x).drop_last() =~= handles);
}

proof fn lemma_count_update(handles: Seq<Option<usize>>, i: int, x: Option<usize>, c: int)
    requires
        0 <= i < handles.len(),
    ensures
        count(handles.update(i, x), c) + (if on_cell(handles[i], c) {
            1nat
        } else {
            0
        }) == count(handles, c) + if on_cell(x, c) {
            1nat
        } else {
            0
        },
    decreases handles.len(),
{
    let after = handles.update(i, x);
    if i == handles.len() - 1 {
        assert(after.drop_last() =~= handles.drop_last());
    } else {
        lemma_count_update(handles.drop_last(), i, x, c);
        assert(after.drop_last() =~= handles.drop_last().update(i, x));
    }
}

proof fn lemma_count_at_least(handles: Seq<Option<usize>>, i: int, j: int, c: int)
    requires
        0 <= i < handles.len(),
        0 <= j < handles.len(),
        on_cell(handles[i], c),
        on_cell(handles[j], c),
    ensures
        count(handles, c) >= 1,
        i != j ==> count(handles, c) >= 2,
    decreases handles.len(),
{
    let n = handles.len() - 1;
    let front = handles.drop_last();
    if i < n && j < n {
        lemma_count_at_least(front, i, j, c);
    } else if i < n {
        lemma_count_at_least(front, i, i, c);
    } else if j < n {
        lemma_count_at_least(front, j, j, c);
    }
}

proof fn lemma_count_bound(handles: Seq<Option<usize>>, c: int)
    ensures
        count(handles, c) <= handles.len(),
    decreases handles.len(),
{
    if handles.len() > 0 {
        lemma_count_bound(handles.drop_last(), c);
    }
}

impl AnonStore {
    /// Every cell counts the handles that it has.
    pub closed spec fn wf(self) -> bool {
        &&& forall|h: int|
            0 <= h < self.handles@.len() && (#[trigger] self.handles@[h]) is Some
                ==> self.handles@[h]->Some_0 < self.cells@.len()
        &&& forall|c: int|
            0 <= c < self.cells@.len() ==> (#[trigger] self.cells@[c]).refs == count(
                self.handles@,
                c,
            )
        &&& forall|c: int| 0 <= c < self.cells@.len() ==> obj_wf((#[trigger] self.cells@[c]).object@)
    }

    closed spec fn cell_of(self, handle: usize) -> Option<usize> {
        if 1 <= handle <= self.handles@.len() {
            self.handles@[handle - 1]
        } else {
            None
        }
    }

    /// The object behind a handle; none for a handle that is null, dropped or was never given.
    pub closed spec fn at(self, handle: usize) -> Option<Obj> {
        match self.cell_of(handle) {
            Some(c) => Some(self.cells@[c as int].object@),
            None => None,
        }
    }

    /// Two live handles share one object.
    pub closed spec fn shares(self, a: usize, b: usize) -> bool {
        self.cell_of(a) is Some && self.cell_of(a) == self.cell_of(b)
    }

    /// A store without objects.
    pub fn new() -> (s: AnonStore)
        ensures
            s.wf(),
            forall|h: usize| s.at(h) is None,
    {
        AnonStore { handles: Vec::new(), cells: Vec::new() }
    }

    fn resolve(&self, handle: usize) -> (c: Option<usize>)
        requires
            self.wf(),
        ensures
            c == self.cell_of(handle),
            c is Some ==> c->Some_0 < self.cells@.len() && handle >= 1,
            c is Some <==> self.at(handle) is Some,
    {
        if handle >= 1 && handle <= self.handles.len() {
            self.handles[handle - 1]
        } else {
            None
        }
    }

    fn add(&mut self, object: AnonObject) -> (handle: usize)
        requires
            old(self).wf(),
            obj_wf(object@),
        ensures
            final(self).wf(),
            handle != 0,
            old(self).at(handle) is None,
            final(self).at(handle) == Some(object@),
            forall|o: usize| o != handle ==> final(self).at(o) == old(self).at(o),
            forall|o: usize| o != handle ==> !final(self).shares(handle, o),
    {
        let c: usize = self.cells.len();
        let ghost before = *self;
        proof {
            lemma_count_absent(self.handles@, c as int);
        }
        self.handles.push(Some(c));
        self.cells.push(AnonCell { refs: 1, object });
        let handle: usize = self.handles.len();
        proof {
            assert forall|k: int| 0 <= k < self.cells@.len() implies (#[trigger] self.cells@[k]).refs
                == count(self.handles@, k) by {
                lemma_count_push(before.handles@, Some(c), k);
            }
        }
        handle
    }

    fn make_unique(&mut self, handle: usize) -> (cell: usize)
        requires
            old(self).wf(),
            old(self).at(handle) is Some,
        ensures
            final(self).wf(),
            final(self).cell_of(handle) == Some(cell),
            cell < final(self).cells@.len(),
            forall|o: usize| final(self).at(o) == old(self).at(o),
            forall|o: usize| o != handle ==> !final(self).shares(handle, o),
            forall|o: usize| o != handle ==> final(self).cell_of(o) != Some(cell),
    {
        let h: usize = handle - 1;
        let c: usize = match self.resolve(handle) {
            Some(c) => c,
            None => 0,
        };
        let ghost before = *self;
        proof {
            lemma_count_at_least(self.handles@, h as int, h as int, c as int);
        }
        if self.cells[c].refs == 1 {
            proof {
                assert forall|o: usize| o != handle implies self.cell_of(o) != Some(c) by {
                    if self.cell_of(o) == Some(c) {
                        lemma_count_at_least(self.handles@, h as int, o - 1, c as int);
                    }
                }
            }
            return c;
        }
        let copy: AnonObject = self.cells[c].object.duplicate();
        let n: usize = self.cells.len();
        proof {
            lemma_count_absent(self.handles@, n as int);
        }
        self.handles.set(h, Some(n));
        self.cells[c].refs = self.cells[c].refs - 1;
        self.cells.push(AnonCell { refs: 1, object: copy });
        proof {
            assert forall|k: int| 0 <= k < self.cells@.len() implies (#[trigger] self.cells@[k]).refs
                == count(self.handles@, k) by {
                lemma_count_update(before.handles@, h as int, Some(n), k);
            }
            assert forall|o: usize| o != handle implies self.cell_of(o) != Some(n) by {}
            assert forall|o: usize| self.at(o) == before.at(o) by {}
        }
        n
    }
}

proof fn lemma_count_absent(handles: Seq<Option<usize>>, c: int)
    requires
        forall|i: int| 0 <= i < handles.len() ==> !on_cell(#[trigger] handles[i], c),
    ensures
        count(handles, c) == 0,
    decreases handles.len(),
{
    if handles.len() > 0 {
        assert(handles.last() == handles[handles.len() - 1]);
        assert forall|i: int| 0 <= i < handles.drop_last().len() implies !on_cell(
            #[trigger] handles.drop_last()[i],
            c,
        ) by {
            assert(handles.drop_last()[i] == handles[i]);
        }
        lemma_count_absent(handles.drop_last(), c);
    }
}

/// A new object behind a new handle.
pub fn rayzor_anon_new(store: &mut AnonStore, shape_id: u32, field_count: u32) -> (handle: usize)
    requires
        old(store).wf(),
    ensures
        final(store).wf(),
        handle != 0,
        old(store).at(handle) is None,
        final(store).at(handle) == Some(new_obj(shape_id, field_count)),
        forall|o: usize| o != handle ==> final(store).at(o) == old(store).at(o),
{
    store.add(new_object(shape_id, field_count))
}

/// A second handle on the same object; null for a handle without object.
pub fn rayzor_anon_clone(store: &mut AnonStore, ptr: usize) -> (handle: usize)
    requires
        old(store).wf(),
    ensures
        final(store).wf(),
        old(store).at(ptr) is None ==> handle == 0 && *final(store) == *old(store),
        old(store).at(ptr) is Some ==> {
            &&& handle != 0
            &&& old(store).at(handle) is None
            &&& final(store).at(handle) == old(store).at(ptr)
            &&& final(store).shares(ptr, handle)
            &&& forall|o: usize| o != handle ==> final(store).at(o) == old(store).at(o)
        },
{
    let c: usize = match store.resolve(ptr) {
        Some(c) => c,
        None => {
            return 0;
        },
    };
    let ghost before = *store;
    proof {
        lemma_count_bound(store.handles@, c as int);
    }
    store.handles.push(Some(c));
    let handle: usize = store.handles.len();
    store.cells[c].refs = store.cells[c].refs + 1;
    proof {
        assert forall|k: int| 0 <= k < store.cells@.len() implies (#[trigger] store.cells@[k]).refs
            == count(store.handles@, k) by {
            lemma_count_push(before.handles@, Some(c), k);
        }
        assert forall|o: usize| o != handle implies store.at(o) == before.at(o) by {}
    }
    handle
}

/// Gives a handle back; whether its object went with it, because no other handle shared it.
pub fn rayzor_anon_drop(store: &mut AnonStore, ptr: usize) -> (freed: bool)
    requires
        old(store).wf(),
    ensures
        final(store).wf(),
        final(store).at(ptr) is None,
        forall|o: usize| o != ptr ==> final(store).at(o) == old(store).at(o),
        freed <==> old(store).at(ptr) is Some && forall|o: usize|
            o != ptr ==> !old(store).shares(ptr, o),
{
    let c: usize = match store.resolve(ptr) {
        Some(c) => c,
        None => {
            return false;
        },
    };
    let h: usize = ptr - 1;
    let total: usize = store.handles.len();
    let ghost before = *store;
    proof {
        assert(before.handles@.len() == total);
        lemma_count_at_least(store.handles@, h as int, h as int, c as int);
    }
    store.handles.set(h, None);
    let refs: usize = store.cells[c].refs - 1;
    store.cells[c].refs = refs;
    proof {
        assert forall|k: int| 0 <= k < store.cells@.len() implies (#[trigger] store.cells@[k]).refs
            == count(store.handles@, k) by {
            lemma_count_update(before.handles@, h as int, None, k);
        }
        assert forall|o: usize| o != ptr implies store.at(o) == before.at(o) by {}
        if refs == 0 {
            assert forall|o: usize| o != ptr implies !before.shares(ptr, o) by {
                if before.shares(ptr, o) {
                    lemma_count_at_least(before.handles@, h as int, o - 1, c as int);
                }
            }
        } else {
            lemma_count_present(store.handles@, c as int);
            let i = choose|i: int|
                0 <= i < store.handles@.len() && on_cell(#[trigger] store.handles@[i], c as int);
            assert(before.handles@[i] == Some(c));
            let o = (i + 1) as usize;
            assert(before.shares(ptr, o) && o != ptr);
        }
    }
    if refs == 0 {
        store.cells[c].object = new_object(DYNAMIC_SHAPE, 0);
    }
    proof {
        assert forall|o: usize| o != ptr implies store.at(o) == before.at(o) by {
            if refs == 0 && store.cell_of(o) == Some(c) {
                lemma_count_at_least(store.handles@, o - 1, o - 1, c as int);
            }
        }
    }
    refs == 0
}

proof fn lemma_count_present(handles: Seq<Option<usize>>, c: int)
    requires
        count(handles, c) > 0,
    ensures
        exists|i: int| 0 <= i < handles.len() && on_cell(#[trigger] handles[i], c),
    decreases handles.len(),
{
    if on_cell(handles.last(), c) {
        assert(on_cell(handles[handles.len() - 1], c));
    } else {
        lemma_count_present(handles.drop_last(), c);
        let i = choose|i: int|
            0 <= i < handles.drop_last().len() && on_cell(#[trigger] handles.drop_last()[i], c);
        assert(on_cell(handles[i], c));
    }
}

/// The field at a position; 0 for a handle without object.
pub fn rayzor_anon_get_field_by_index(store: &AnonStore, ptr: usize, index: u32) -> (v: u64)
    requires
        store.wf(),
    ensures
        v == (match store.at(ptr) {
            Some(o) => obj_get_index(o, index as int),
            None => 0,
        }),
{
    match store.resolve(ptr) {
        Some(c) => match &store.cells[c].object.data {
            AnonData::Inline(fields) => {
                if (index as usize) < fields.len() {
                    fields[index as usize]
                } else {
                    0
                }
            },
            AnonData::Named(_) => 0,
        },
        None => 0,
    }
}

/// Sets the field at a position. Other handles on the object keep what they had.
pub fn rayzor_anon_set_field_by_index(store: &mut AnonStore, ptr: usize, index: u32, value: u64)
    requires
        old(store).wf(),
    ensures
        final(store).wf(),
        final(store).at(ptr) == (match old(store).at(ptr) {
            Some(o) => Some(obj_set_index(o, index as int, value)),
            None => None,
        }),
        forall|o: usize| o != ptr ==> final(store).at(o) == old(store).at(o),
        old(store).at(ptr) is Some ==> forall|o: usize| o != ptr ==> !final(store).shares(ptr, o),
{
    if store.resolve(ptr).is_none() {
        return;
    }
    let ghost before = *store;
    let c: usize = store.make_unique(ptr);
    let ghost unique = *store;
    set_index_of(&mut store.cells[c].object, index, value);
    assert forall|o: usize| o != ptr implies !store.shares(ptr, o) by {
        assert(!unique.shares(ptr, o));
    }
    assert forall|o: usize| o != ptr implies store.at(o) == before.at(o) by {}
}

/// Whether the object has a field of that name; false for a handle without object.
pub fn rayzor_anon_has_field(
    store: &AnonStore,
    table: &ShapeTable,
    ptr: usize,
    name: Option<&[u8]>,
) -> (found: bool)
    requires
        store.wf(),
    ensures
        found == (match (store.at(ptr), name) {
            (Some(o), Some(k)) => obj_has(table@, o, k@),
            _ => false,
        }),
{
    match (store.resolve(ptr), name) {
        (Some(c), Some(k)) => match &store.cells[c].object.data {
            AnonData::Inline(_) => match get_shape(table, store.cells[c].object.shape_id) {
                Some(s) => s.position(k).is_some(),
                None => false,
            },
            AnonData::Named(m) => m.contains(k),
        },
        _ => false,
    }
}

/// The field of that name; none for a handle without object and for a missing field.
pub fn rayzor_anon_get_field(
    store: &AnonStore,
    table: &ShapeTable,
    ptr: usize,
    name: Option<&[u8]>,
) -> (v: Option<BoxedValue>)
    requires
        store.wf(),
        table_wf(table@),
        store.at(ptr) matches Some(o) ==> (name matches Some(k) ==> readable(table@, o, k@)),
    ensures
        v == (match (store.at(ptr), name) {
            (Some(o), Some(k)) => match obj_get(table@, o, k@) {
                Some(f) => Some(boxed(f.0, f.1)),
                None => None,
            },
            _ => None,
        }),
{
    match (store.resolve(ptr), name) {
        (Some(c), Some(k)) => match &store.cells[c].object.data {
            AnonData::Inline(fields) => match get_shape(table, store.cells[c].object.shape_id) {
                Some(s) => match s.position(k) {
                    Some(i) => Some(box_value_as_dynamic(s.field_types[i], fields[i])),
                    None => None,
                },
                None => None,
            },
            AnonData::Named(m) => match m.get(k) {
                Some(f) => Some(box_value_as_dynamic(f.0, f.1)),
                None => None,
            },
        },
        _ => None,
    }
}

/// Sets the field of that name. Other handles on the object keep what they had.
pub fn rayzor_anon_set_field(
    store: &mut AnonStore,
    table: &ShapeTable,
    ptr: usize,
    name: Option<&[u8]>,
    value: Option<DynamicWord>,
)
    requires
        old(store).wf(),
        table_wf(table@),
        old(store).at(ptr) matches Some(o) ==> (name matches Some(k) ==> settable(
            table@,
            o,
            lossy_bytes(k@),
        )),
    ensures
        final(store).wf(),
        final(store).at(ptr) == (match (old(store).at(ptr), name) {
            (Some(o), Some(k)) => Some(obj_set(table@, o, lossy_bytes(k@), stored(value))),
            _ => old(store).at(ptr),
        }),
        forall|o: usize| o != ptr ==> final(store).at(o) == old(store).at(o),
{
    match (store.resolve(ptr), name) {
        (Some(_), Some(k)) => {
            let key: Vec<u8> = utf8_lossy(k);
            let ghost before = *store;
            let c: usize = store.make_unique(ptr);
            assert(store.at(ptr) == before.at(ptr));
            set_field_of(table, &mut store.cells[c].object, key, stored_word(value));
            assert forall|o: usize| o != ptr implies store.at(o) == before.at(o) by {}
        },
        _ => {},
    }
}

/// Deletes the field of that name; whether it was there. Other handles on the object keep what
/// they had.
pub fn rayzor_anon_delete_field(
    store: &mut AnonStore,
    table: &ShapeTable,
    ptr: usize,
    name: Option<&[u8]>,
) -> (found: bool)
    requires
        old(store).wf(),
        table_wf(table@),
        old(store).at(ptr) matches Some(o) ==> (name matches Some(k) ==> deletable(
            table@,
            o,
            lossy_bytes(k@),
        )),
    ensures
        final(store).wf(),
        match (old(store).at(ptr), name) {
            (Some(o), Some(k)) => {
                &&& found == obj_has(table@, o, lossy_bytes(k@))
                &&& final(store).at(ptr) == Some(obj_delete(table@, o, lossy_bytes(k@)))
            },
            _ => !found && final(store).at(ptr) == old(store).at(ptr),
        },
        forall|o: usize| o != ptr ==> final(store).at(o) == old(store).at(o),
{
    match (store.resolve(ptr), name) {
        (Some(_), Some(k)) => {
            let key: Vec<u8> = utf8_lossy(k);
            let ghost before = *store;
            let c: usize = store.make_unique(ptr);
            assert(store.at(ptr) == before.at(ptr));
            let found: bool = delete_field_of(table, &mut store.cells[c].object, key.as_slice());
            assert forall|o: usize| o != ptr implies store.at(o) == before.at(o) by {}
            found
        },
        _ => false,
    }
}

/// The names of the fields as strings; none for a handle without object.
pub fn rayzor_anon_fields(store: &AnonStore, table: &ShapeTable, ptr: usize) -> (names: Option<
    Vec<HaxeString>,
>)
    requires
        store.wf(),
    ensures
        names is Some <==> store.at(ptr) is Some,
        names is Some ==> haxe_string::all_views(names->Some_0@) == obj_names(
            table@,
            store.at(ptr)->Some_0,
        ),
        names is Some ==> haxe_string::all_buffered(names->Some_0@),
        names is Some && store.at(ptr)->Some_0.fields is Named ==> forall|i: int, j: int|
            0 <= i < j < names->Some_0@.len() ==> text::lex_order(
                (#[trigger] names->Some_0@[i])@,
                (#[trigger] names->Some_0@[j])@,
            ) < 0,
{
    let c: usize = match store.resolve(ptr) {
        Some(c) => c,
        None => {
            return None;
        },
    };
    let mut out: Vec<HaxeString> = Vec::new();
    let ghost want = obj_names(table@, store.at(ptr)->Some_0);
    match &store.cells[c].object.data {
        AnonData::Inline(_) => {
            match get_shape(table, store.cells[c].object.shape_id) {
                Some(s) => {
                    let mut i: usize = 0;
                    while i < s.field_names.len()
                        invariant
                            i <= s.field_names@.len(),
                            out@.len() == i,
                            want == text::views(s.field_names@),
                            forall|j: int| 0 <= j < i ==> (#[trigger] out@[j])@ == want[j],
                            haxe_string::all_buffered(out@),
                        decreases s.field_names@.len() - i,
                    {
                        out.push(
                            haxe_string::haxe_string_from_bytes(
                                Some(s.field_names[i].as_slice()),
                            ),
                        );
                        i = i + 1;
                    }
                },
                None => {},
            }
        },
        AnonData::Named(m) => {
            let mut i: usize = 0;
            while i < m.len()
                invariant
                    i <= m.seq().len(),
                    out@.len() == i,
                    want == m.seq().map_values(|e: (Seq<u8>, (u32, u64))| e.0),
                    forall|j: int| 0 <= j < i ==> (#[trigger] out@[j])@ == want[j],
                    haxe_string::all_buffered(out@),
                decreases m.seq().len() - i,
            {
                out.push(haxe_string::haxe_string_from_bytes(Some(m.name(i).as_slice())));
                i = i + 1;
            }
        },
    }
    assert(haxe_string::all_views(out@) =~= want);
    proof {
        if store.at(ptr)->Some_0.fields is Named {
            law_names_increase(*store, table@, ptr);
            assert forall|i: int, j: int| 0 <= i < j < out@.len() implies text::lex_order(
                (#[trigger] out@[i])@,
                (#[trigger] out@[j])@,
            ) < 0 by {
                assert(out@[i]@ == want[i] && out@[j]@ == want[j]);
            }
        }
    }
    Some(out)
}

/// A handle on an independent copy of the object; null for a handle without object.
pub fn rayzor_anon_copy(store: &mut AnonStore, ptr: usize) -> (handle: usize)
    requires
        old(store).wf(),
    ensures
        final(store).wf(),
        old(store).at(ptr) is None ==> handle == 0 && *final(store) == *old(store),
        old(store).at(ptr) is Some ==> {
            &&& handle != 0
            &&& old(store).at(handle) is None
            &&& final(store).at(handle) == old(store).at(ptr)
            &&& !final(store).shares(ptr, handle)
            &&& forall|o: usize| o != handle ==> final(store).at(o) == old(store).at(o)
        },
{
    match store.resolve(ptr) {
        Some(c) => {
            let copy: AnonObject = store.cells[c].object.duplicate();
            let handle: usize = store.add(copy);
            assert(!store.shares(handle, ptr));
            handle
        },
        None => 0,
    }
}

// ---------------------------------------------------------------------------
// Laws of handles
// ---------------------------------------------------------------------------

/// The objects of a store are well-formed.
pub proof fn law_stored_objects(store: AnonStore, ptr: usize)
    requires
        store.wf(),
        store.at(ptr) is Some,
    ensures
        obj_wf(store.at(ptr)->Some_0),
{
    let c = store.cell_of(ptr)->Some_0;
    assert(store.handles@[ptr - 1] == Some(c));
    assert(obj_wf(store.cells@[c as int].object@));
}

/// The names of an object that stores its fields by name come in strictly increasing order, and
/// they are the names of its fields.
pub proof fn law_names_increase(store: AnonStore, t: Seq<Shape>, ptr: usize)
    requires
        store.wf(),
        store.at(ptr) matches Some(o) && o.fields is Named,
    ensures
        ({
            let names = obj_names(t, store.at(ptr)->Some_0);
            &&& forall|i: int, j: int|
                0 <= i < j < names.len() ==> text::lex_order(#[trigger] names[i], #[trigger] names[j])
                    < 0
            &&& forall|k: Seq<u8>| #[trigger]
                names.contains(k) <==> obj_has(t, store.at(ptr)->Some_0, k)
        }),
{
    law_stored_objects(store, ptr);
    let m = store.at(ptr)->Some_0.fields->Named_0;
    let names = obj_names(t, store.at(ptr)->Some_0);
    assert forall|i: int, j: int| 0 <= i < j < names.len() implies text::lex_order(
        #[trigger] names[i],
        #[trigger] names[j],
    ) < 0 by {
        assert(names[i] == m[i].0 && names[j] == m[j].0);
    }
    assert forall|k: Seq<u8>| #[trigger] names.contains(k) <==> field_map::has(m, k) by {
        field_map::lemma_has(m, k);
        if names.contains(k) {
            let i = choose|i: int| 0 <= i < names.len() && names[i] == k;
            assert(m[i].0 == k);
        }
        if field_map::has(m, k) {
            let i = choose|i: int| 0 <= i < m.len() && m[i].0 == k;
            assert(names[i] == k);
        }
    }
}

/// Deleting a field through a handle: it is gone, every other field is still there, and each
/// keeps its type and value exactly where it has only one.
pub proof fn law_delete_through_handle(
    store: AnonStore,
    t: Seq<Shape>,
    ptr: usize,
    name: Seq<u8>,
    other: Seq<u8>,
)
    requires
        store.wf(),
        table_wf(t),
        store.at(ptr) is Some,
        other != name,
    ensures
        ({
            let o = store.at(ptr)->Some_0;
            let d = obj_delete(t, o, name);
            &&& !obj_has(t, d, name)
            &&& obj_has(t, d, other) == obj_has(t, o, other)
            &&& obj_get(t, d, other) == obj_get(t, o, other) <==> reads_alike(t, o, other)
        }),
{
    law_stored_objects(store, ptr);
    let o = store.at(ptr)->Some_0;
    law_delete_has(t, o, name);
    law_delete_get_other(t, o, name, other);
}

/// Setting a field through a handle: it is read back, and every other field is as before, except
/// that a name with more than one value loses the first where the object turns into one by name.
pub proof fn law_set_through_handle(
    store: AnonStore,
    t: Seq<Shape>,
    ptr: usize,
    name: Seq<u8>,
    value: (u32, u64),
    other: Seq<u8>,
)
    requires
        store.wf(),
        table_wf(t),
        DYNAMIC_SHAPE as int >= t.len(),
        store.at(ptr) is Some,
        settable(t, store.at(ptr)->Some_0, name),
        readable(t, store.at(ptr)->Some_0, other),
        other != name,
    ensures
        ({
            let o = store.at(ptr)->Some_0;
            let d = obj_set(t, o, name, value);
            &&& obj_get(t, d, name) matches Some(r) && r.1 == value.1 && (r.0 == value.0 || (
            o.fields is Inline && obj_has(t, o, name)))
            &&& obj_get(t, d, other) == obj_get(t, o, other) <==> obj_has(t, o, name)
                || reads_alike(t, o, other)
        }),
{
    law_stored_objects(store, ptr);
    let o = store.at(ptr)->Some_0;
    law_set_get(t, o, name, value);
    law_set_get_other(t, o, name, value, other);
}

// ---------------------------------------------------------------------------
// Laws on descriptions and values
// ---------------------------------------------------------------------------

/// A field is described by its name, a colon and its type tag in decimal; without a colon it has
/// no tag, and neither has one whose tag is too large.
pub proof fn law_field_description(name: Seq<u8>, digits: Seq<u8>)
    requires
        forall|i: int| 0 <= i < name.len() ==> name[i] != 58,
        digits.len() > 0,
        forall|i: int| 0 <= i < digits.len() ==> 48 <= #[trigger] digits[i] <= 57,
    ensures
        ({
            let part = name + seq![58u8] + digits;
            let tag = digits.fold_left(0int, |v: int, c: u8| 10 * v + (c - 48));
            &&& field_name(part) == name
            &&& field_type(part) == if tag <= 0xffff_ffff {
                tag
            } else {
                0
            }
        }),
        field_name(name) == name,
        field_type(name) == 0,
{
    let colon = seq![58u8];
    let part = name + colon + digits;
    let n = name.len() as int;
    text::lemma_find_from(part, colon, 0);
    assert(part.subrange(n, n + 1) =~= colon);
    assert(text::occurs_at(part, colon, n));
    assert forall|j: int| 0 <= j < n implies !text::occurs_at(part, colon, j) by {
        if text::occurs_at(part, colon, j) {
            assert(part.subrange(j, j + 1)[0] == part[j]);
            assert(part[j] == name[j]);
        }
    }
    let i = text::find_from(part, colon, 0);
    assert(i == n);
    assert(part.subrange(0, n) =~= name);
    assert(part.subrange(n + 1, part.len() as int) =~= digits);
    text::law_decimal_value(digits);
    assert(strip_plus(digits) == digits);
    assert(all_digits(digits));
    text::lemma_find_from(name, colon, 0);
    let k = text::find_from(name, colon, 0);
    if k >= 0 {
        assert(name.subrange(k, k + 1)[0] == name[k]);
    }
}

/// A layout has a name and a tag for each description that is not empty, in their order.
pub proof fn law_layout_goes_by_parts(parts: Seq<Seq<u8>>, part: Seq<u8>)
    ensures
        ({
            let before = shape_of_parts(parts);
            let after = shape_of_parts(parts.push(part));
            &&& part.len() > 0 ==> after.names == before.names.push(field_name(part))
            &&& part.len() > 0 ==> after.types == before.types.push(field_type(part))
            &&& part.len() == 0 ==> after == before
        }),
        shape_of_parts(Seq::empty()).names.len() == 0,
        shape_of_parts(Seq::empty()).types.len() == 0,
{
    assert(parts.push(part).drop_last() =~= parts);
}

/// Descriptions are separated by commas: the layout of two texts with a comma between them has the
/// fields of the first and behind them those of the second.
pub proof fn law_descriptions_are_separated_by_commas(part: Seq<u8>, rest: Seq<u8>)
    requires
        forall|i: int| 0 <= i < part.len() ==> part[i] != 44,
    ensures
        ({
            let whole = shape_of(part + seq![44u8] + rest);
            &&& part.len() > 0 ==> whole.names == seq![field_name(part)] + shape_of(rest).names
            &&& part.len() > 0 ==> whole.types == seq![field_type(part)] + shape_of(rest).types
            &&& part.len() == 0 ==> whole.names == shape_of(rest).names && whole.types == shape_of(
                rest,
            ).types
        }),
{
    let comma = seq![44u8];
    let s = part + comma + rest;
    assert forall|j: int| 0 <= j < part.len() implies !text::occurs_at(s, comma, j) by {
        if text::occurs_at(s, comma, j) {
            assert(s.subrange(j, j + 1)[0] == s[j]);
            assert(s[j] == part[j]);
        }
    }
    text::law_split_at_first(part, comma, rest);
    lemma_layout_first(part, text::pieces(rest, comma, 0));
}

proof fn lemma_layout_first(part: Seq<u8>, parts: Seq<Seq<u8>>)
    ensures
        ({
            let whole = shape_of_parts(seq![part] + parts);
            let more = shape_of_parts(parts);
            &&& part.len() > 0 ==> whole.names == seq![field_name(part)] + more.names
            &&& part.len() > 0 ==> whole.types == seq![field_type(part)] + more.types
            &&& part.len() == 0 ==> whole.names == more.names && whole.types == more.types
        }),
    decreases parts.len(),
{
    let all = seq![part] + parts;
    if parts.len() == 0 {
        assert(all.drop_last() =~= Seq::empty());
        assert(all.last() == part);
        assert(shape_of_parts(all.drop_last()).names =~= Seq::empty());
        if part.len() > 0 {
            assert(shape_of_parts(all).names =~= seq![field_name(part)] + shape_of_parts(
                parts,
            ).names);
            assert(shape_of_parts(all).types =~= seq![field_type(part)] + shape_of_parts(
                parts,
            ).types);
        }
    } else {
        assert(all.drop_last() =~= seq![part] + parts.drop_last());
        assert(all.last() == parts.last());
        lemma_layout_first(part, parts.drop_last());
        if part.len() > 0 {
            assert(shape_of_parts(all).names =~= seq![field_name(part)] + shape_of_parts(
                parts,
            ).names);
            assert(shape_of_parts(all).types =~= seq![field_type(part)] + shape_of_parts(
                parts,
            ).types);
        }
    }
}

/// A name stands at the first position of a list that holds it.
pub proof fn law_names_are_found_first(names: Seq<Seq<u8>>, name: Seq<u8>, k: int)
    requires
        0 <= k < names.len(),
        names[k] == name,
    ensures
        0 <= name_index(names, name) <= k,
        names[name_index(names, name)] == name,
    decreases names.len(),
{
    if names[0] != name {
        let rest = names.drop_first();
        assert(rest[k - 1] == name);
        law_names_are_found_first(rest, name, k - 1);
        assert(rest[name_index(rest, name)] == names[1 + name_index(rest, name)]);
    }
}

/// The fields of an object by position are those of its layout: field `k` has name, tag and word
/// `k`, where the layout has no such name before it.
pub proof fn law_fields_by_position(t: Seq<Shape>, id: u32, v: Seq<u64>, k: int)
    requires
        id < t.len(),
        0 <= k < t[id as int].names.len(),
        forall|j: int| 0 <= j < k ==> t[id as int].names[j] != t[id as int].names[k],
    ensures
        ({
            let s = t[id as int];
            let o = Obj { shape_id: id, fields: Fields::Inline(v) };
            &&& obj_has(t, o, s.names[k])
            &&& obj_get(t, o, s.names[k]) == Some((s.types[k], v[k]))
            &&& obj_names(t, o) == s.names
            &&& 0 <= k < v.len() ==> obj_get_index(o, k) == v[k]
        }),
{
    law_names_are_found_first(t[id as int].names, t[id as int].names[k], k);
}

/// A new object has so many fields, all of them 0; one of the layout with the greatest number has
/// fields by name, and none of them yet.
pub proof fn law_new_objects_are_empty(id: u32, count: u32, i: int, t: Seq<Shape>, name: Seq<u8>)
    ensures
        id < 0xffff_ffff ==> {
            let o = new_obj(id, count);
            &&& o.fields is Inline
            &&& o.fields->Inline_0.len() == count
            &&& 0 <= i < count ==> obj_get_index(o, i) == 0
        },
        id == 0xffff_ffff ==> new_obj(id, count).fields is Named && obj_names(
            t,
            new_obj(id, count),
        ).len() == 0 && !obj_has(t, new_obj(id, count), name),
        new_obj(id, count).shape_id == id,
{
}

/// Tag 1 is null, 2 a truth value, 3 an integer and 4 a floating-point number by its bits; every
/// other tag is that of a reference.
pub proof fn law_tags(tag: u32, word: u64)
    ensures
        boxed(1, word) == BoxedValue::Null,
        boxed(2, 0) == BoxedValue::Bool(false),
        word != 0 ==> boxed(2, word) == BoxedValue::Bool(true),
        boxed(3, word) matches BoxedValue::Int(i) && i as u64 == word,
        boxed(4, word) == BoxedValue::FloatBits(word),
        tag == 0 || tag > 4 ==> boxed(tag, word) == BoxedValue::Reference(tag, word),
        stored(None) == (1u32, 0u64),
        stored(Some(DynamicWord { type_id: tag, word: Some(word) })) == (tag, word),
        stored(Some(DynamicWord { type_id: tag, word: None })) == (tag, 0u64),
{
    assert((word as i64) as u64 == word) by (bit_vector);
}

/// Where an object by position becomes one by name, a name that its layout has more than once keeps
/// the last of these fields.
pub proof fn law_last_of_repeated_names_stays(
    t: Seq<Shape>,
    id: u32,
    v: Seq<u64>,
    name: Seq<u8>,
    value: (u32, u64),
    k: int,
)
    requires
        id < t.len(),
        table_wf(t),
        0 <= k < t[id as int].names.len(),
        t[id as int].names.len() <= v.len(),
        forall|j: int| 0 <= j < t[id as int].names.len() ==> t[id as int].names[j] != name,
        forall|j: int| k < j < t[id as int].names.len() ==> t[id as int].names[j] != t[id as int].names[k],
    ensures
        ({
            let s = t[id as int];
            let o = obj_set(t, Obj { shape_id: id, fields: Fields::Inline(v) }, name, value);
            &&& o.shape_id == 0xffff_ffff
            &&& obj_get(t, o, s.names[k]) == Some((s.types[k], v[k]))
            &&& obj_get(t, o, name) == Some(value)
        }),
{
    let s = t[id as int];
    let n = s.names.len() as int;
    lemma_name_index(s.names, name);
    lemma_last_at(s.names, s.names[k], n, k);
    lemma_named_sorted(s, v, n, None);
    lemma_named_lookup(s, v, n, None, s.names[k]);
    field_map::law_put_lookup(named_fields(s, v, n, None), name, value);
    field_map::law_put_lookup_other(named_fields(s, v, n, None), name, value, s.names[k]);
}

proof fn lemma_last_at(names: Seq<Seq<u8>>, name: Seq<u8>, n: int, k: int)
    requires
        0 <= k < n <= names.len(),
        names[k] == name,
        forall|j: int| k < j < n ==> names[j] != name,
    ensures
        last_index(names, name, n) == k,
    decreases n,
{
    if k < n - 1 {
        lemma_last_at(names, name, n - 1, k);
    }
}

/// A type tag may have a plus sign before its digits, and counts as 0 with anything else among them.
pub proof fn law_type_tags(digits: Seq<u8>, k: int)
    requires
        digits.len() > 0,
    ensures
        (forall|i: int| 0 <= i < digits.len() ==> 48 <= #[trigger] digits[i] <= 57) ==> u32_or_zero(
            seq![43u8] + digits,
        ) == u32_or_zero(digits),
        0 < k < digits.len() && (digits[k] < 48 || digits[k] > 57) ==> u32_or_zero(digits) == 0,
        digits[0] != 43 && (digits[0] < 48 || digits[0] > 57) ==> u32_or_zero(digits) == 0,
        u32_or_zero(Seq::empty()) == 0,
        u32_or_zero(seq![43u8]) == 0,
{
    assert((seq![43u8] + digits).skip(1) =~= digits);
    if 0 < k < digits.len() && (digits[k] < 48 || digits[k] > 57) {
        let d = strip_plus(digits);
        if digits[0] == 43 {
            assert(d[k - 1] == digits[k]);
            assert(!text::is_digit(d[k - 1]));
        } else {
            assert(!text::is_digit(d[k]));
        }
    }
    if digits[0] != 43 && (digits[0] < 48 || digits[0] > 57) {
        assert(!text::is_digit(strip_plus(digits)[0]));
    }
}

} // verus!

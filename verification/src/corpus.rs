//! A recursive value that can reach every category of serde's data model,
//! and the record of which categories one such value exercises.
//!
//! Randomized searches over export and reconstruction build values of this
//! shape; the category record is what shows that a generator can still reach
//! all twenty-nine categories rather than leaving that to chance. Float
//! payloads are held as their IEEE-754 bit patterns: nothing here reads them.

use vstd::prelude::*;

verus! {

/// A byte array inside a newtype struct, so serde writes it as bytes.
#[derive(Debug)]
pub struct Bytes(pub Vec<u8>);

/// A struct with no fields and no braces.
#[derive(Debug)]
pub struct UnitStruct;

/// A newtype struct around a length in metres (the bit pattern of its `f64`).
#[derive(Debug)]
pub struct Meters(pub u64);

/// A tuple struct of two `i32`.
#[derive(Debug)]
pub struct Pair(pub i32, pub i32);

/// A `struct` whose two fields nest further values.
#[derive(Debug)]
pub struct Node {
    /// Left child.
    pub left: Box<Nest>,
    /// Right child.
    pub right: Box<Nest>,
}

/// A `struct` with no fields at all.
#[derive(Debug)]
pub struct Rec0 {}

/// A `struct` with exactly one field.
#[derive(Debug)]
pub struct Rec1 {
    /// The only field.
    pub only: Box<Nest>,
}

/// A `struct` with three fields, so fan-out from one atom is not always two.
#[derive(Debug)]
pub struct Rec3 {
    /// First field.
    pub p: Box<Nest>,
    /// Second field.
    pub q: Box<Nest>,
    /// Third field.
    pub r: Box<Nest>,
}

/// A `struct` whose every field is named after a built-in relation.
#[derive(Debug)]
pub struct Shadowed {
    /// Shares a name with a sequence's position relation.
    pub idx: Box<Nest>,
    /// Shares a name with a map's entry relation.
    pub map_entry: Box<Nest>,
    /// Shares a name with a newtype struct's payload relation.
    pub value: Box<Nest>,
    /// Shares a name with an enum variant's payload relation.
    pub variant_value: Box<Nest>,
}

/// One half of a pair of types that share a field name.
#[derive(Debug)]
pub struct NameA {
    /// Same name as `NameB::name`.
    pub name: Box<Nest>,
}

/// The other half of the pair of types that share a field name.
#[derive(Debug)]
pub struct NameB {
    /// Same name as `NameA::name`.
    pub name: Box<Nest>,
}

/// A recursive value covering every category of serde's data model.
///
/// Every variant with a payload is itself an enum variant, so a value always
/// exercises `newtype_variant`, `tuple_variant` or `struct_variant` on top of
/// whatever it wraps. A map is held as its entries in key order.
#[derive(Debug)]
pub enum Nest {
    Bool(bool),
    I8(i8),
    I16(i16),
    I32(i32),
    I64(i64),
    I128(i128),
    U8(u8),
    U16(u16),
    U32(u32),
    U64(u64),
    U128(u128),
    /// An `f32`, by its bit pattern.
    F32(u32),
    /// An `f64`, by its bit pattern.
    F64(u64),
    Char(char),
    Str(String),
    Blob(Bytes),
    /// A `unit` payload: the value `()` carries nothing to hold.
    Nil,
    Unit(UnitStruct),
    Nothing,
    Newtype(Meters),
    TupleStruct(Pair),
    Opt(Option<Box<Nest>>),
    Wrap(Box<Nest>),
    Sequence(Vec<Nest>),
    Tup((Box<Nest>, Box<Nest>)),
    TupVariant(Box<Nest>, Box<Nest>),
    Mapping(Vec<(String, Nest)>),
    Struct(Node),
    Fields0(Rec0),
    Fields1(Rec1),
    Fields3(Rec3),
    Shadow(Shadowed),
    Collide(NameA, NameB),
    Tup1((Box<Nest>,)),
    Tup3((Box<Nest>, Box<Nest>, Box<Nest>)),
    StructVariant { a: Box<Nest>, b: Box<Nest> },
}

/// How many categories serde's data model has.
pub const CATEGORY_COUNT: usize = 29;

// The number of each category; the numbering follows the names' byte order.
pub const BOOL: usize = 0;
pub const BYTE_ARRAY: usize = 1;
pub const CHAR: usize = 2;
pub const F32: usize = 3;
pub const F64: usize = 4;
pub const I128: usize = 5;
pub const I16: usize = 6;
pub const I32: usize = 7;
pub const I64: usize = 8;
pub const I8: usize = 9;
pub const MAP: usize = 10;
pub const NEWTYPE_STRUCT: usize = 11;
pub const NEWTYPE_VARIANT: usize = 12;
pub const OPTION: usize = 13;
pub const SEQ: usize = 14;
pub const STRING: usize = 15;
pub const STRUCT: usize = 16;
pub const STRUCT_VARIANT: usize = 17;
pub const TUPLE: usize = 18;
pub const TUPLE_STRUCT: usize = 19;
pub const TUPLE_VARIANT: usize = 20;
pub const U128: usize = 21;
pub const U16: usize = 22;
pub const U32: usize = 23;
pub const U64: usize = 24;
pub const U8: usize = 25;
pub const UNIT: usize = 26;
pub const UNIT_STRUCT: usize = 27;
pub const UNIT_VARIANT: usize = 28;

/// The name of category `k`; the numbering follows the names' byte order.
pub open spec fn category_name(k: int) -> Seq<char> {
    if k == 0 { "bool"@ }
    else if k == 1 { "byte array"@ }
    else if k == 2 { "char"@ }
    else if k == 3 { "f32"@ }
    else if k == 4 { "f64"@ }
    else if k == 5 { "i128"@ }
    else if k == 6 { "i16"@ }
    else if k == 7 { "i32"@ }
    else if k == 8 { "i64"@ }
    else if k == 9 { "i8"@ }
    else if k == 10 { "map"@ }
    else if k == 11 { "newtype_struct"@ }
    else if k == 12 { "newtype_variant"@ }
    else if k == 13 { "option"@ }
    else if k == 14 { "seq"@ }
    else if k == 15 { "string"@ }
    else if k == 16 { "struct"@ }
    else if k == 17 { "struct_variant"@ }
    else if k == 18 { "tuple"@ }
    else if k == 19 { "tuple_struct"@ }
    else if k == 20 { "tuple_variant"@ }
    else if k == 21 { "u128"@ }
    else if k == 22 { "u16"@ }
    else if k == 23 { "u32"@ }
    else if k == 24 { "u64"@ }
    else if k == 25 { "u8"@ }
    else if k == 26 { "unit"@ }
    else if k == 27 { "unit_struct"@ }
    else { "unit_variant"@ }
}

/// The enum-variant step through which a value of `Nest` itself is reached.
pub open spec fn own_step(n: Nest) -> int {
    match n {
        Nest::Nothing => UNIT_VARIANT as int,
        Nest::TupVariant(..) | Nest::Collide(..) => TUPLE_VARIANT as int,
        Nest::StructVariant { .. } => STRUCT_VARIANT as int,
        _ => NEWTYPE_VARIANT as int,
    }
}

/// Every category (by number) that `n` exercises, its own variant step and
/// those of everything nested in it included.
pub open spec fn categories_of(n: Nest) -> Set<int>
    decreases n,
{
    let own = set![own_step(n)];
    let rest = match n {
        Nest::Bool(_) => set![BOOL as int],
        Nest::I8(_) => set![I8 as int],
        Nest::I16(_) => set![I16 as int],
        Nest::I32(_) => set![I32 as int],
        Nest::I64(_) => set![I64 as int],
        Nest::I128(_) => set![I128 as int],
        Nest::U8(_) => set![U8 as int],
        Nest::U16(_) => set![U16 as int],
        Nest::U32(_) => set![U32 as int],
        Nest::U64(_) => set![U64 as int],
        Nest::U128(_) => set![U128 as int],
        Nest::F32(_) => set![F32 as int],
        Nest::F64(_) => set![F64 as int],
        Nest::Char(_) => set![CHAR as int],
        Nest::Str(_) => set![STRING as int],
        Nest::Blob(_) => set![NEWTYPE_STRUCT as int, BYTE_ARRAY as int],
        Nest::Nil => set![UNIT as int],
        Nest::Unit(_) => set![UNIT_STRUCT as int],
        Nest::Nothing => Set::empty(),
        Nest::Newtype(_) => set![NEWTYPE_STRUCT as int, F64 as int],
        Nest::TupleStruct(_) => set![TUPLE_STRUCT as int, I32 as int],
        Nest::Opt(inner) => set![OPTION as int].union(
            match inner {
                Some(v) => categories_of(*v),
                None => Set::empty(),
            },
        ),
        Nest::Wrap(v) => categories_of(*v),
        Nest::Sequence(vs) => set![SEQ as int].union(elements_categories(vs@)),
        Nest::Tup((a, b)) => set![TUPLE as int].union(categories_of(*a)).union(categories_of(*b)),
        Nest::TupVariant(a, b) => categories_of(*a).union(categories_of(*b)),
        Nest::Mapping(es) => set![MAP as int, STRING as int].union(entries_categories(es@)),
        Nest::Struct(s) => set![STRUCT as int].union(categories_of(*s.left)).union(
            categories_of(*s.right),
        ),
        Nest::Fields0(_) => set![STRUCT as int],
        Nest::Fields1(s) => set![STRUCT as int].union(categories_of(*s.only)),
        Nest::Fields3(s) => set![STRUCT as int].union(categories_of(*s.p)).union(
            categories_of(*s.q),
        ).union(categories_of(*s.r)),
        Nest::Shadow(s) => set![STRUCT as int].union(categories_of(*s.idx)).union(
            categories_of(*s.map_entry),
        ).union(categories_of(*s.value)).union(categories_of(*s.variant_value)),
        Nest::Collide(a, b) => set![STRUCT as int].union(categories_of(*a.name)).union(
            categories_of(*b.name),
        ),
        Nest::Tup1((a,)) => set![TUPLE as int].union(categories_of(*a)),
        Nest::Tup3((a, b, c)) => set![TUPLE as int].union(categories_of(*a)).union(
            categories_of(*b),
        ).union(categories_of(*c)),
        Nest::StructVariant { a, b } => categories_of(*a).union(categories_of(*b)),
    };
    own.union(rest)
}

/// The categories of the elements of a sequence, together.
pub open spec fn elements_categories(vs: Seq<Nest>) -> Set<int>
    decreases vs,
{
    if vs.len() == 0 {
        Set::empty()
    } else {
        elements_categories(vs.drop_last()).union(categories_of(vs.last()))
    }
}

/// The categories of the values of a map's entries, together.
pub open spec fn entries_categories(es: Seq<(String, Nest)>) -> Set<int>
    decreases es,
{
    if es.len() == 0 {
        Set::empty()
    } else {
        entries_categories(es.drop_last()).union(categories_of(es.last().1))
    }
}

/// The names of the categories in `cats` among the first `k`, in order.
pub open spec fn listed(cats: Set<int>, k: int) -> Seq<Seq<char>>
    decreases k,
{
    if k <= 0 {
        Seq::empty()
    } else if cats.contains(k - 1) {
        listed(cats, k - 1).push(category_name(k - 1))
    } else {
        listed(cats, k - 1)
    }
}

/// Whether `after` records, over `before`, exactly the categories in `cats`:
/// each flag is set afterwards when it was set before or its category is in
/// `cats`.
pub open spec fn records(before: Seq<bool>, after: Seq<bool>, cats: Set<int>) -> bool {
    &&& after.len() == before.len()
    &&& forall|k: int| 0 <= k < after.len() ==> #[trigger] after[k] == (before[k] || cats.contains(k))
}

/// Sets the flag of category `k`.
fn mark(out: &mut Vec<bool>, k: usize)
    requires
        k < old(out).len(),
    ensures
        records(old(out)@, final(out)@, set![k as int]),
{
    out.set(k, true);
}

/// The name of category `k`.
fn category_text(k: usize) -> (s: &'static str)
    requires
        k < CATEGORY_COUNT,
    ensures
        s@ == category_name(k as int),
{
    if k == 0 {
        "bool"
    } else if k == 1 {
        "byte array"
    } else if k == 2 {
        "char"
    } else if k == 3 {
        "f32"
    } else if k == 4 {
        "f64"
    } else if k == 5 {
        "i128"
    } else if k == 6 {
        "i16"
    } else if k == 7 {
        "i32"
    } else if k == 8 {
        "i64"
    } else if k == 9 {
        "i8"
    } else if k == 10 {
        "map"
    } else if k == 11 {
        "newtype_struct"
    } else if k == 12 {
        "newtype_variant"
    } else if k == 13 {
        "option"
    } else if k == 14 {
        "seq"
    } else if k == 15 {
        "string"
    } else if k == 16 {
        "struct"
    } else if k == 17 {
        "struct_variant"
    } else if k == 18 {
        "tuple"
    } else if k == 19 {
        "tuple_struct"
    } else if k == 20 {
        "tuple_variant"
    } else if k == 21 {
        "u128"
    } else if k == 22 {
        "u16"
    } else if k == 23 {
        "u32"
    } else if k == 24 {
        "u64"
    } else if k == 25 {
        "u8"
    } else if k == 26 {
        "unit"
    } else if k == 27 {
        "unit_struct"
    } else {
        "unit_variant"
    }
}

impl Nest {
    /// Every serde category this value exercises, its own variant step
    /// included, each named once, in the order of `category_name`.
    pub fn categories(&self) -> (names: Vec<&'static str>)
        ensures
            names@.map_values(|s: &'static str| s@) == listed(
                categories_of(*self),
                CATEGORY_COUNT as int,
            ),
    {
        let mut out: Vec<bool> = Vec::new();
        let mut k: usize = 0;
        while k < CATEGORY_COUNT
            invariant
                k <= CATEGORY_COUNT,
                out.len() == k,
                forall|j: int| 0 <= j < k ==> !#[trigger] out@[j],
            decreases CATEGORY_COUNT - k,
        {
            out.push(false);
            k = k + 1;
        }
        self.collect(&mut out);
        let mut names: Vec<&'static str> = Vec::new();
        let mut k: usize = 0;
        while k < CATEGORY_COUNT
            invariant
                k <= CATEGORY_COUNT,
                out.len() == CATEGORY_COUNT,
                forall|j: int|
                    0 <= j < CATEGORY_COUNT ==> #[trigger] out@[j] == categories_of(
                        *self,
                    ).contains(j),
                names@.map_values(|s: &'static str| s@) == listed(categories_of(*self), k as int),
            decreases CATEGORY_COUNT - k,
        {
            if out[k] {
                let name = category_text(k);
                let ghost before = names@;
                names.push(name);
                assert(names@.map_values(|s: &'static str| s@) =~= before.map_values(
                    |s: &'static str| s@,
                ).push(name@));
            }
            k = k + 1;
        }
        names
    }

    /// Sets in `out` the flag of every category this value exercises.
    fn collect(&self, out: &mut Vec<bool>)
        requires
            old(out).len() == CATEGORY_COUNT,
        ensures
            records(old(out)@, final(out)@, categories_of(*self)),
        decreases self,
    {
        match self {
            Nest::Nothing => mark(out, UNIT_VARIANT),
            Nest::TupVariant(..) | Nest::Collide(..) => mark(out, TUPLE_VARIANT),
            Nest::StructVariant { .. } => mark(out, STRUCT_VARIANT),
            _ => mark(out, NEWTYPE_VARIANT),
        }
        match self {
            Nest::Bool(_) => mark(out, BOOL),
            Nest::I8(_) => mark(out, I8),
            Nest::I16(_) => mark(out, I16),
            Nest::I32(_) => mark(out, I32),
            Nest::I64(_) => mark(out, I64),
            Nest::I128(_) => mark(out, I128),
            Nest::U8(_) => mark(out, U8),
            Nest::U16(_) => mark(out, U16),
            Nest::U32(_) => mark(out, U32),
            Nest::U64(_) => mark(out, U64),
            Nest::U128(_) => mark(out, U128),
            Nest::F32(_) => mark(out, F32),
            Nest::F64(_) => mark(out, F64),
            Nest::Char(_) => mark(out, CHAR),
            Nest::Str(_) => mark(out, STRING),
            Nest::Blob(_) => {
                mark(out, NEWTYPE_STRUCT);
                mark(out, BYTE_ARRAY);
            },
            Nest::Nil => mark(out, UNIT),
            Nest::Unit(_) => mark(out, UNIT_STRUCT),
            Nest::Nothing => {},
            Nest::Newtype(_) => {
                mark(out, NEWTYPE_STRUCT);
                mark(out, F64);
            },
            Nest::TupleStruct(_) => {
                mark(out, TUPLE_STRUCT);
                mark(out, I32);
            },
            Nest::Opt(inner) => {
                mark(out, OPTION);
                if let Some(v) = inner {
                    v.collect(out);
                }
            },
            Nest::Wrap(v) => v.collect(out),
            Nest::Sequence(vs) => {
                mark(out, SEQ);
                let ghost mid = out@;
                let mut i: usize = 0;
                while i < vs.len()
                    invariant
                        i <= vs.len(),
                        mid.len() == CATEGORY_COUNT,
                        records(mid, out@, elements_categories(vs@.take(i as int))),
                        *self == Nest::Sequence(*vs),
                    decreases vs.len() - i,
                {
                    proof {
                        vstd::std_specs::vec::axiom_vec_index_decreases(*vs, i as int);
                        assert(decreases_to!(*self => (*self)->Sequence_0));
                    }
                    vs[i].collect(out);
                    assert(vs@.take(i + 1).drop_last() =~= vs@.take(i as int));
                    i = i + 1;
                }
                assert(vs@.take(vs.len() as int) =~= vs@);
            },
            Nest::Tup((a, b)) => {
                mark(out, TUPLE);
                a.collect(out);
                b.collect(out);
            },
            Nest::TupVariant(a, b) => {
                a.collect(out);
                b.collect(out);
            },
            Nest::Mapping(es) => {
                mark(out, MAP);
                mark(out, STRING);
                let ghost mid = out@;
                let mut i: usize = 0;
                while i < es.len()
                    invariant
                        i <= es.len(),
                        mid.len() == CATEGORY_COUNT,
                        records(mid, out@, entries_categories(es@.take(i as int))),
                        *self == Nest::Mapping(*es),
                    decreases es.len() - i,
                {
                    proof {
                        vstd::std_specs::vec::axiom_vec_index_decreases(*es, i as int);
                        assert(decreases_to!(*self => (*self)->Mapping_0));
                        assert(decreases_to!(es[i as int] => es[i as int].1));
                    }
                    es[i].1.collect(out);
                    assert(es@.take(i + 1).drop_last() =~= es@.take(i as int));
                    i = i + 1;
                }
                assert(es@.take(es.len() as int) =~= es@);
            },
            Nest::Struct(s) => {
                mark(out, STRUCT);
                s.left.collect(out);
                s.right.collect(out);
            },
            Nest::Fields0(_) => mark(out, STRUCT),
            Nest::Fields1(s) => {
                mark(out, STRUCT);
                s.only.collect(out);
            },
            Nest::Fields3(s) => {
                mark(out, STRUCT);
                s.p.collect(out);
                s.q.collect(out);
                s.r.collect(out);
            },
            Nest::Shadow(s) => {
                mark(out, STRUCT);
                s.idx.collect(out);
                s.map_entry.collect(out);
                s.value.collect(out);
                s.variant_value.collect(out);
            },
            Nest::Collide(a, b) => {
                mark(out, STRUCT);
                a.name.collect(out);
                b.name.collect(out);
            },
            Nest::Tup1((a,)) => {
                mark(out, TUPLE);
                a.collect(out);
            },
            Nest::Tup3((a, b, c)) => {
                mark(out, TUPLE);
                a.collect(out);
                b.collect(out);
                c.collect(out);
            },
            Nest::StructVariant { a, b } => {
                a.collect(out);
                b.collect(out);
            },
        }
    }
}

/// Whether `a` comes strictly before `b` in the order of their characters
/// (for text, the byte order of its UTF-8 spelling, which `str`'s `<` uses).
pub open spec fn text_lt(a: Seq<char>, b: Seq<char>) -> bool
    decreases a.len(),
{
    if a.len() == 0 {
        b.len() > 0
    } else if b.len() == 0 {
        false
    } else if a[0] != b[0] {
        (a[0] as u32) < (b[0] as u32)
    } else {
        text_lt(a.drop_first(), b.drop_first())
    }
}

proof fn lemma_adjacent_names_ordered()
    ensures
        forall|k: int| 0 <= k < CATEGORY_COUNT - 1 ==> text_lt(#[trigger] category_name(k), category_name(k + 1)),
{
    assert(text_lt(category_name(0), category_name(1))) by {
        reveal_strlit("bool");
        reveal_strlit("byte array");
        reveal_with_fuel(text_lt, 10);
    }
    assert(text_lt(category_name(1), category_name(2))) by {
        reveal_strlit("byte array");
        reveal_strlit("char");
        reveal_with_fuel(text_lt, 10);
    }
    assert(text_lt(category_name(2), category_name(3))) by {
        reveal_strlit("char");
        reveal_strlit("f32");
        reveal_with_fuel(text_lt, 10);
    }
    assert(text_lt(category_name(3), category_name(4))) by {
        reveal_strlit("f32");
        reveal_strlit("f64");
        reveal_with_fuel(text_lt, 10);
    }
    assert(text_lt(category_name(4), category_name(5))) by {
        reveal_strlit("f64");
        reveal_strlit("i128");
        reveal_with_fuel(text_lt, 10);
    }
    assert(text_lt(category_name(5), category_name(6))) by {
        reveal_strlit("i128");
        reveal_strlit("i16");
        reveal_with_fuel(text_lt, 10);
    }
    assert(text_lt(category_name(6), category_name(7))) by {
        reveal_strlit("i16");
        reveal_strlit("i32");
        reveal_with_fuel(text_lt, 10);
    }
    assert(text_lt(category_name(7), category_name(8))) by {
        reveal_strlit("i32");
        reveal_strlit("i64");
        reveal_with_fuel(text_lt, 10);
    }
    assert(text_lt(category_name(8), category_name(9))) by {
        reveal_strlit("i64");
        reveal_strlit("i8");
        reveal_with_fuel(text_lt, 10);
    }
    assert(text_lt(category_name(9), category_name(10))) by {
        reveal_strlit("i8");
        reveal_strlit("map");
        reveal_with_fuel(text_lt, 10);
    }
    assert(text_lt(category_name(10), category_name(11))) by {
        reveal_strlit("map");
        reveal_strlit("newtype_struct");
        reveal_with_fuel(text_lt, 10);
    }
    assert(text_lt(category_name(11), category_name(12))) by {
        reveal_strlit("newtype_struct");
        reveal_strlit("newtype_variant");
        reveal_with_fuel(text_lt, 10);
    }
    assert(text_lt(category_name(12), category_name(13))) by {
        reveal_strlit("newtype_variant");
        reveal_strlit("option");
        reveal_with_fuel(text_lt, 10);
    }
    assert(text_lt(category_name(13), category_name(14))) by {
        reveal_strlit("option");
        reveal_strlit("seq");
        reveal_with_fuel(text_lt, 10);
    }
    assert(text_lt(category_name(14), category_name(15))) by {
        reveal_strlit("seq");
        reveal_strlit("string");
        reveal_with_fuel(text_lt, 10);
    }
    assert(text_lt(category_name(15), category_name(16))) by {
        reveal_strlit("string");
        reveal_strlit("struct");
        reveal_with_fuel(text_lt, 10);
    }
    assert(text_lt(category_name(16), category_name(17))) by {
        reveal_strlit("struct");
        reveal_strlit("struct_variant");
        reveal_with_fuel(text_lt, 10);
    }
    assert(text_lt(category_name(17), category_name(18))) by {
        reveal_strlit("struct_variant");
        reveal_strlit("tuple");
        reveal_with_fuel(text_lt, 10);
    }
    assert(text_lt(category_name(18), category_name(19))) by {
        reveal_strlit("tuple");
        reveal_strlit("tuple_struct");
        reveal_with_fuel(text_lt, 10);
    }
    assert(text_lt(category_name(19), category_name(20))) by {
        reveal_strlit("tuple_struct");
        reveal_strlit("tuple_variant");
        reveal_with_fuel(text_lt, 10);
    }
    assert(text_lt(category_name(20), category_name(21))) by {
        reveal_strlit("tuple_variant");
        reveal_strlit("u128");
        reveal_with_fuel(text_lt, 10);
    }
    assert(text_lt(category_name(21), category_name(22))) by {
        reveal_strlit("u128");
        reveal_strlit("u16");
        reveal_with_fuel(text_lt, 10);
    }
    assert(text_lt(category_name(22), category_name(23))) by {
        reveal_strlit("u16");
        reveal_strlit("u32");
        reveal_with_fuel(text_lt, 10);
    }
    assert(text_lt(category_name(23), category_name(24))) by {
        reveal_strlit("u32");
        reveal_strlit("u64");
        reveal_with_fuel(text_lt, 10);
    }
    assert(text_lt(category_name(24), category_name(25))) by {
        reveal_strlit("u64");
        reveal_strlit("u8");
        reveal_with_fuel(text_lt, 10);
    }
    assert(text_lt(category_name(25), category_name(26))) by {
        reveal_strlit("u8");
        reveal_strlit("unit");
        reveal_with_fuel(text_lt, 10);
    }
    assert(text_lt(category_name(26), category_name(27))) by {
        reveal_strlit("unit");
        reveal_strlit("unit_struct");
        reveal_with_fuel(text_lt, 10);
    }
    assert(text_lt(category_name(27), category_name(28))) by {
        reveal_strlit("unit_struct");
        reveal_strlit("unit_variant");
        reveal_with_fuel(text_lt, 10);
    }
}

proof fn lemma_text_lt_transitive(a: Seq<char>, b: Seq<char>, c: Seq<char>)
    requires
        text_lt(a, b),
        text_lt(b, c),
    ensures
        text_lt(a, c),
    decreases a.len(),
{
    if a.len() > 0 && a[0] == b[0] && b[0] == c[0] {
        lemma_text_lt_transitive(a.drop_first(), b.drop_first(), c.drop_first());
    }
}

proof fn lemma_names_ordered(i: int, j: int)
    requires
        0 <= i < j < CATEGORY_COUNT,
    ensures
        text_lt(category_name(i), category_name(j)),
    decreases j - i,
{
    lemma_adjacent_names_ordered();
    if j > i + 1 {
        lemma_names_ordered(i, j - 1);
        assert(text_lt(category_name(j - 1), category_name(j)));
        lemma_text_lt_transitive(category_name(i), category_name(j - 1), category_name(j));
    }
}

proof fn lemma_listed_ordered(cats: Set<int>, k: int)
    requires
        0 <= k <= CATEGORY_COUNT,
    ensures
        forall|i: int|
            0 <= i < listed(cats, k).len() ==> exists|m: int|
                0 <= m < k && #[trigger] listed(cats, k)[i] == category_name(m),
        forall|i: int, j: int|
            0 <= i < j < listed(cats, k).len() ==> text_lt(
                #[trigger] listed(cats, k)[i],
                #[trigger] listed(cats, k)[j],
            ),
    decreases k,
{
    if k > 0 {
        lemma_listed_ordered(cats, k - 1);
        let prev = listed(cats, k - 1);
        let l = listed(cats, k);
        if cats.contains(k - 1) {
            assert(l == prev.push(category_name(k - 1)));
            assert forall|i: int| 0 <= i < l.len() implies exists|m: int|
                0 <= m < k && #[trigger] l[i] == category_name(m) by {
                if i < prev.len() {
                    assert(l[i] == prev[i]);
                } else {
                    assert(l[i] == category_name(k - 1));
                }
            }
            assert forall|i: int, j: int| 0 <= i < j < l.len() implies text_lt(
                #[trigger] l[i],
                #[trigger] l[j],
            ) by {
                assert(l[i] == prev[i]);
                if j < prev.len() {
                    assert(l[j] == prev[j]);
                } else {
                    let m = choose|m: int| 0 <= m < k - 1 && prev[i] == category_name(m);
                    lemma_names_ordered(m, k - 1);
                }
            }
        }
    }
}

/// The names `categories` gives for a value are in strictly increasing
/// order, so none is named twice.
pub proof fn lemma_categories_ordered(n: Nest)
    ensures
        forall|i: int, j: int|
            0 <= i < j < listed(categories_of(n), CATEGORY_COUNT as int).len() ==> text_lt(
                #[trigger] listed(categories_of(n), CATEGORY_COUNT as int)[i],
                #[trigger] listed(categories_of(n), CATEGORY_COUNT as int)[j],
            ),
        forall|a: Seq<char>| !text_lt(a, a),
{
    lemma_listed_ordered(categories_of(n), CATEGORY_COUNT as int);
    assert forall|a: Seq<char>| !text_lt(a, a) by {
        lemma_text_lt_irreflexive(a);
    }
}

proof fn lemma_text_lt_irreflexive(a: Seq<char>)
    ensures
        !text_lt(a, a),
    decreases a.len(),
{
    if a.len() > 0 {
        lemma_text_lt_irreflexive(a.drop_first());
    }
}

} // verus!

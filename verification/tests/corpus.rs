use spytial::corpus::{
    Bytes, Meters, NameA, NameB, Nest, Node, Pair, Rec0, Rec1, Rec3, Shadowed, UnitStruct,
    CATEGORY_COUNT,
};

fn b(n: Nest) -> Box<Nest> {
    Box::new(n)
}

#[test]
fn a_scalar_reports_its_type_and_its_variant_step() {
    assert_eq!(Nest::Bool(true).categories(), vec!["bool", "newtype_variant"]);
    assert_eq!(Nest::I128(-1).categories(), vec!["i128", "newtype_variant"]);
    assert_eq!(Nest::F64(0).categories(), vec!["f64", "newtype_variant"]);
    assert_eq!(Nest::Str(String::from("x")).categories(), vec!["newtype_variant", "string"]);
}

#[test]
fn the_payloadless_variant_reports_only_itself() {
    assert_eq!(Nest::Nothing.categories(), vec!["unit_variant"]);
}

#[test]
fn wrapped_values_report_the_newtype_structs_inside() {
    assert_eq!(
        Nest::Blob(Bytes(vec![1, 2])).categories(),
        vec!["byte array", "newtype_struct", "newtype_variant"]
    );
    assert_eq!(
        Nest::Newtype(Meters(0)).categories(),
        vec!["f64", "newtype_struct", "newtype_variant"]
    );
    assert_eq!(
        Nest::TupleStruct(Pair(1, 2)).categories(),
        vec!["i32", "newtype_variant", "tuple_struct"]
    );
}

#[test]
fn two_payload_variants_report_a_tuple_variant() {
    let v = Nest::TupVariant(b(Nest::U8(1)), b(Nest::Nothing));
    assert_eq!(v.categories(), vec!["newtype_variant", "tuple_variant", "u8", "unit_variant"]);
    let c = Nest::Collide(NameA { name: b(Nest::Char('a')) }, NameB { name: b(Nest::Nil) });
    assert_eq!(
        c.categories(),
        vec!["char", "newtype_variant", "struct", "tuple_variant", "unit"]
    );
}

#[test]
fn nesting_reports_what_every_level_exercises() {
    let v = Nest::Opt(Some(b(Nest::Wrap(b(Nest::StructVariant {
        a: b(Nest::Sequence(vec![Nest::U16(3)])),
        b: b(Nest::Mapping(vec![(String::from("k"), Nest::Unit(UnitStruct))])),
    })))));
    assert_eq!(
        v.categories(),
        vec![
            "map",
            "newtype_variant",
            "option",
            "seq",
            "string",
            "struct_variant",
            "u16",
            "unit_struct",
        ]
    );
}

#[test]
fn an_empty_option_and_empty_containers_report_only_their_shape() {
    assert_eq!(Nest::Opt(None).categories(), vec!["newtype_variant", "option"]);
    assert_eq!(Nest::Sequence(vec![]).categories(), vec!["newtype_variant", "seq"]);
    assert_eq!(
        Nest::Mapping(vec![]).categories(),
        vec!["map", "newtype_variant", "string"]
    );
    assert_eq!(Nest::Fields0(Rec0 {}).categories(), vec!["newtype_variant", "struct"]);
}

#[test]
fn one_value_can_reach_every_category_each_named_once_in_order() {
    let v = Nest::Sequence(vec![
        Nest::Bool(false),
        Nest::I8(0),
        Nest::I16(0),
        Nest::I32(0),
        Nest::I64(0),
        Nest::I128(0),
        Nest::U8(0),
        Nest::U16(0),
        Nest::U32(0),
        Nest::U64(0),
        Nest::U128(0),
        Nest::F32(0),
        Nest::F64(0),
        Nest::Char('z'),
        Nest::Str(String::new()),
        Nest::Blob(Bytes(vec![])),
        Nest::Nil,
        Nest::Unit(UnitStruct),
        Nest::Nothing,
        Nest::Newtype(Meters(0)),
        Nest::TupleStruct(Pair(0, 0)),
        Nest::Opt(None),
        Nest::Tup((b(Nest::Nothing), b(Nest::Nothing))),
        Nest::TupVariant(b(Nest::Nothing), b(Nest::Nothing)),
        Nest::Mapping(vec![]),
        Nest::Struct(Node { left: b(Nest::Nothing), right: b(Nest::Nothing) }),
        Nest::Fields1(Rec1 { only: b(Nest::Nothing) }),
        Nest::Fields3(Rec3 { p: b(Nest::Nothing), q: b(Nest::Nothing), r: b(Nest::Nothing) }),
        Nest::Shadow(Shadowed {
            idx: b(Nest::Nothing),
            map_entry: b(Nest::Nothing),
            value: b(Nest::Nothing),
            variant_value: b(Nest::Nothing),
        }),
        Nest::Tup1((b(Nest::Nothing),)),
        Nest::Tup3((b(Nest::Nothing), b(Nest::Nothing), b(Nest::Nothing))),
        Nest::StructVariant { a: b(Nest::Nothing), b: b(Nest::Nothing) },
    ]);
    let cats = v.categories();
    assert_eq!(cats.len(), CATEGORY_COUNT);
    assert_eq!(CATEGORY_COUNT, 29);
    for w in cats.windows(2) {
        assert!(w[0] < w[1]);
    }
    assert_eq!(cats[0], "bool");
    assert_eq!(cats[1], "byte array");
    assert_eq!(cats[28], "unit_variant");
}

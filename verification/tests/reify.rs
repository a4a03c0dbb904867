use spytial::export::Relationalizer;
use spytial::jsondata::{IAtom, IRelation, ITuple, JsonDataInstance};
use spytial::reify::{
    find_root, parse_bytes_label, AnyShape, Index, NodeDeserializer, OneEntry, OptionShape,
    ReifyError, Scalar, ScalarKind, VariantPayload,
};

fn a(id: &str, ty: &str, label: &str) -> IAtom {
    IAtom { id: id.to_string(), atom_type: ty.to_string(), label: label.to_string() }
}

fn t(atoms: &[&str]) -> ITuple {
    ITuple {
        atoms: atoms.iter().map(|s| s.to_string()).collect(),
        types: atoms.iter().map(|_| "atom".to_string()).collect(),
    }
}

fn rel(name: &str, tuples: Vec<ITuple>) -> IRelation {
    IRelation { id: name.to_string(), name: name.to_string(), types: vec![], tuples }
}

fn err_text<T>(r: Result<T, ReifyError>) -> String {
    match r {
        Ok(_) => panic!("expected an error"),
        Err(e) => e.message().to_string(),
    }
}

/// `Point { x: 1, y: 2 }` walked the way serde walks it.
fn point() -> JsonDataInstance {
    let mut r = Relationalizer::new();
    let p = r.begin_struct("Point", None);
    let x = r.serialize_signed("i32", 1);
    r.push_field(&p, "x", x);
    let y = r.serialize_signed("i32", 2);
    r.push_field(&p, "y", y);
    r.finish()
}

#[test]
fn root_of_an_export_is_its_top_value() {
    assert_eq!(find_root(&point()).ok().unwrap(), "atom0");
}

#[test]
fn root_skips_a_some_wrapper_made_after_its_inner() {
    let mut r = Relationalizer::new();
    let none = r.serialize_none();
    let some = r.serialize_some(none);
    let inst = r.finish();
    assert_eq!(find_root(&inst).ok().unwrap(), some);
}

#[test]
fn root_errors_name_their_cause() {
    let empty = JsonDataInstance::empty();
    assert_eq!(err_text(find_root(&empty)), "empty data instance: no atoms");
    let cyclic = JsonDataInstance {
        atoms: vec![a("x", "T", "T"), a("y", "T", "T")],
        relations: vec![rel("f", vec![t(&["x", "y"]), t(&["y", "x"])])],
    };
    assert_eq!(
        err_text(find_root(&cyclic)),
        "no root atom: every atom is referenced (unexpected for export output)"
    );
}

#[test]
fn struct_fields_come_back_with_their_values() {
    let inst = point();
    let ix = Index::build(&inst);
    let fields = ix.struct_fields("atom0");
    assert_eq!(
        fields,
        vec![("x".to_string(), "atom1".to_string()), ("y".to_string(), "atom2".to_string())]
    );
    let node = ix.root("atom0").ok().unwrap();
    let x = node.child("atom1".to_string());
    assert_eq!(x.parse(ScalarKind::I32).ok().unwrap(), Scalar::Signed(1));
    assert_eq!(x.atom().ok().unwrap().atom_type, "i32");
}

#[test]
fn struct_fields_take_the_first_tuple_of_each_name() {
    let inst = JsonDataInstance {
        atoms: vec![a("s", "S", "S"), a("v1", "i32", "1"), a("v2", "i32", "2")],
        relations: vec![rel("f", vec![t(&["s", "v1"]), t(&["s", "v2"])]), rel("g", vec![t(&["s"])])],
    };
    let ix = Index::build(&inst);
    assert_eq!(ix.struct_fields("s"), vec![("f".to_string(), "v1".to_string())]);
    assert_eq!(ix.relation_names("s"), vec!["f".to_string(), "g".to_string()]);
}

#[test]
fn sequence_elements_come_back_in_position_order() {
    let mut r = Relationalizer::new();
    let mut v = r.begin_seq(Some(3));
    let e0 = r.serialize_str("a");
    r.push_element(&mut v, e0.clone());
    let e1 = r.serialize_str("b");
    r.push_element(&mut v, e1.clone());
    let e2 = r.serialize_str("a");
    r.push_element(&mut v, e2.clone());
    let inst = r.finish();
    let ix = Index::build(&inst);
    assert_eq!(ix.seq_elems(&v.id()), vec![e0, e1, e2]);
}

#[test]
fn sequence_elements_are_sorted_stably_by_position() {
    let inst = JsonDataInstance {
        atoms: vec![a("s", "sequence", "seq[3]"), a("p1", "u64", "1"), a("p0", "u64", "0")],
        relations: vec![rel(
            "idx",
            vec![
                t(&["s", "p1", "late"]),
                t(&["s", "p0", "first"]),
                t(&["s", "junk", "dropped"]),
                t(&["s", "0", "second"]),
                t(&["s", "p1"]),
            ],
        )],
    };
    let ix = Index::build(&inst);
    assert_eq!(
        ix.seq_elems("s"),
        vec!["first".to_string(), "second".to_string(), "late".to_string()]
    );
    assert!(ix.has_positional_tuple("s"));
}

#[test]
fn map_entries_come_back_in_order() {
    let inst = JsonDataInstance {
        atoms: vec![a("m", "map", "map[2]")],
        relations: vec![rel(
            "map_entry",
            vec![t(&["m", "k1", "v1"]), t(&["other", "k", "v"]), t(&["m", "short"]), t(&["m", "k2", "v2"])],
        )],
    };
    let ix = Index::build(&inst);
    assert_eq!(
        ix.map_entries("m"),
        vec![
            ("k1".to_string(), "v1".to_string()),
            ("k2".to_string(), "v2".to_string())
        ]
    );
}

#[test]
fn single_target_and_its_error() {
    let inst = JsonDataInstance {
        atoms: vec![a("w", "newtype_struct", "M"), a("i", "i32", "3")],
        relations: vec![rel("value", vec![t(&["w", "i"])])],
    };
    let ix = Index::build(&inst);
    assert_eq!(ix.single_target("w", "value").ok().unwrap(), "i");
    assert_eq!(err_text(ix.single_target("i", "value")), "missing relation 'value' from atom i");
}

#[test]
fn missing_atoms_are_reported() {
    let ix = Index::build(&point());
    assert_eq!(err_text(ix.atom("nope")), "atom not found: nope");
    assert_eq!(err_text(ix.root("nope")), "root atom not found: nope");
}

#[test]
fn duplicate_ids_resolve_to_the_last_atom() {
    let inst = JsonDataInstance {
        atoms: vec![a("x", "i32", "1"), a("x", "i32", "2")],
        relations: vec![],
    };
    let ix = Index::build(&inst);
    assert_eq!(ix.atom("x").ok().unwrap().label, "2");
}

#[test]
fn labels_parse_at_the_requested_width() {
    let inst = JsonDataInstance {
        atoms: vec![
            a("b", "bool", "true"),
            a("n", "i8", "-128"),
            a("big", "u8", "256"),
            a("neg", "u32", "-1"),
            a("bad", "i32", "x1"),
            a("empty", "i64", ""),
            a("c", "char", "zeta"),
            a("nochar", "char", ""),
            a("wide", "u128", "340282366920938463463374607431768211455"),
            a("plus", "u16", "+42"),
        ],
        relations: vec![],
    };
    let ix = Index::build(&inst);
    let node = |id: &str| ix.root(id).ok().unwrap();
    assert_eq!(node("b").parse(ScalarKind::Bool).ok().unwrap(), Scalar::Bool(true));
    assert_eq!(node("n").parse(ScalarKind::I8).ok().unwrap(), Scalar::Signed(-128));
    assert_eq!(
        err_text(node("big").parse(ScalarKind::U8)),
        "could not parse u8 label '256': number too large to fit in target type"
    );
    assert_eq!(
        err_text(node("neg").parse(ScalarKind::U32)),
        "could not parse u32 label '-1': invalid digit found in string"
    );
    assert_eq!(
        err_text(node("bad").parse(ScalarKind::I32)),
        "could not parse i32 label 'x1': invalid digit found in string"
    );
    assert_eq!(
        err_text(node("empty").parse(ScalarKind::I64)),
        "could not parse i64 label '': cannot parse integer from empty string"
    );
    assert_eq!(
        err_text(node("n").parse(ScalarKind::Bool)),
        "could not parse i8 label '-128': provided string was not `true` or `false`"
    );
    assert_eq!(
        err_text(node("n").parse(ScalarKind::U8)),
        "could not parse i8 label '-128': invalid digit found in string"
    );
    assert_eq!(node("c").parse_char().ok().unwrap(), 'z');
    assert_eq!(err_text(node("nochar").parse_char()), "empty char label");
    assert_eq!(
        node("wide").parse(ScalarKind::U128).ok().unwrap(),
        Scalar::Unsigned(u128::MAX)
    );
    assert_eq!(node("plus").parse(ScalarKind::U16).ok().unwrap(), Scalar::Unsigned(42));
}

#[test]
fn negative_overflow_is_reported_as_too_small() {
    let inst = JsonDataInstance { atoms: vec![a("n", "i8", "-129")], relations: vec![] };
    let ix = Index::build(&inst);
    assert_eq!(
        err_text(ix.root("n").ok().unwrap().parse(ScalarKind::I8)),
        "could not parse i8 label '-129': number too small to fit in target type"
    );
}

#[test]
fn integer_labels_read_back() {
    let mut r = Relationalizer::new();
    let x = r.serialize_signed("i64", -9_000_000_000);
    let y = r.serialize_unsigned("u64", u64::MAX as u128);
    let inst = r.finish();
    let ix = Index::build(&inst);
    let node = ix.root(&x).ok().unwrap();
    assert_eq!(node.parse(ScalarKind::I64).ok().unwrap(), Scalar::Signed(-9_000_000_000));
    let node = node.child(y);
    assert_eq!(node.parse(ScalarKind::U64).ok().unwrap(), Scalar::Unsigned(u64::MAX as u128));
}

#[test]
fn bytes_labels_read_back() {
    assert_eq!(parse_bytes_label("[1, 2, 3]").ok().unwrap(), vec![1u8, 2, 3]);
    assert_eq!(parse_bytes_label("[]").ok().unwrap(), Vec::<u8>::new());
    assert_eq!(parse_bytes_label("[ \t ]").ok().unwrap(), Vec::<u8>::new());
    assert_eq!(parse_bytes_label("[ 7 ,8]").ok().unwrap(), vec![7u8, 8]);
    let mut r = Relationalizer::new();
    let id = r.serialize_bytes(&[0, 128, 255]);
    let inst = r.finish();
    let ix = Index::build(&inst);
    assert_eq!(ix.root(&id).ok().unwrap().parse_bytes().ok().unwrap(), vec![0u8, 128, 255]);
}

#[test]
fn bytes_label_errors() {
    assert_eq!(err_text(parse_bytes_label("1, 2")), "malformed bytes label '1, 2'");
    assert_eq!(err_text(parse_bytes_label("[")), "malformed bytes label '['");
    assert_eq!(
        err_text(parse_bytes_label("[1, 256]")),
        "bad byte in label '[1, 256]': number too large to fit in target type"
    );
    assert_eq!(
        err_text(parse_bytes_label("[1,,2]")),
        "bad byte in label '[1,,2]': cannot parse integer from empty string"
    );
    assert_eq!(
        err_text(parse_bytes_label("[x, 300]")),
        "bad byte in label '[x, 300]': invalid digit found in string"
    );
}

fn shape(ix: &Index, id: &str) -> AnyShape {
    ix.root(id).ok().unwrap().any_shape().ok().unwrap()
}

#[test]
fn builtin_types_read_as_themselves() {
    let inst = JsonDataInstance {
        atoms: vec![
            a("b", "bool", "true"),
            a("i", "i16", "1"),
            a("I", "i128", "1"),
            a("u", "u64", "1"),
            a("U", "u128", "1"),
            a("f", "f32", "1.5"),
            a("s", "string", "x"),
            a("unit", "unit_struct", "U"),
            a("none", "None", "None"),
            a("seq", "tuple_struct", "P"),
            a("map", "map", "map[0]"),
            a("bytes", "bytes", "[]"),
            a("c", "char", "c"),
        ],
        relations: vec![],
    };
    let ix = Index::build(&inst);
    assert!(matches!(shape(&ix, "b"), AnyShape::Bool));
    assert!(matches!(shape(&ix, "i"), AnyShape::SmallSigned));
    assert!(matches!(shape(&ix, "I"), AnyShape::Signed128));
    assert!(matches!(shape(&ix, "u"), AnyShape::SmallUnsigned));
    assert!(matches!(shape(&ix, "U"), AnyShape::Unsigned128));
    assert!(matches!(shape(&ix, "f"), AnyShape::Float));
    assert!(matches!(shape(&ix, "s"), AnyShape::Str));
    assert!(matches!(shape(&ix, "unit"), AnyShape::Unit));
    assert!(matches!(shape(&ix, "none"), AnyShape::Absent));
    assert!(matches!(shape(&ix, "seq"), AnyShape::Sequence));
    assert!(matches!(shape(&ix, "map"), AnyShape::Mapping));
    assert!(matches!(shape(&ix, "bytes"), AnyShape::Bytes));
    assert!(matches!(shape(&ix, "c"), AnyShape::Char));
}

#[test]
fn named_atoms_read_as_structs_or_variants() {
    let mut r = Relationalizer::new();
    let st = r.begin_struct("Point", None);
    let x = r.serialize_signed("i32", 1);
    r.push_field(&st, "x", x);
    let unit = r.serialize_unit_variant("Shape", "Empty");
    let mut tv = r.begin_tuple_variant("Shape", "Offset");
    let y = r.serialize_signed("i32", 2);
    r.push_element(&mut tv, y);
    let nv = r.begin_newtype_variant("Shape", "Radius");
    let z = r.serialize_signed("i32", 3);
    r.end_newtype_variant(nv.clone(), "Shape", z.clone());
    let sv = r.begin_struct_variant("Shape", "Rect");
    let w = r.serialize_signed("i32", 4);
    r.push_field(&sv, "w", w);
    let inst = r.finish();
    let ix = Index::build(&inst);
    assert!(matches!(shape(&ix, &st.id()), AnyShape::Struct));
    match shape(&ix, &unit) {
        AnyShape::UnitVariant { variant } => assert_eq!(variant, "Empty"),
        _ => panic!("unit variant expected"),
    }
    match shape(&ix, &tv.id()) {
        AnyShape::TupleVariant { variant } => assert_eq!(variant, "Offset"),
        _ => panic!("tuple variant expected"),
    }
    match shape(&ix, &nv) {
        AnyShape::NewtypeVariant { variant, inner } => {
            assert_eq!(variant, "Radius");
            assert_eq!(inner, z);
        }
        _ => panic!("newtype variant expected"),
    }
    match shape(&ix, &sv.id()) {
        AnyShape::StructVariant { variant } => assert_eq!(variant, "Rect"),
        _ => panic!("struct variant expected"),
    }
}

#[test]
fn wrappers_read_through_their_value_relation() {
    let mut r = Relationalizer::new();
    let none = r.serialize_none();
    let some = r.serialize_some(none.clone());
    let w = r.begin_newtype_struct("Meters");
    let i = r.serialize_signed("i32", 5);
    r.end_newtype_struct(w.clone(), i.clone());
    let plain = r.serialize_bool(true);
    let inst = r.finish();
    let ix = Index::build(&inst);
    match shape(&ix, &some) {
        AnyShape::Wrapped { inner } => assert_eq!(inner, none),
        _ => panic!("wrapper expected"),
    }
    match shape(&ix, &w) {
        AnyShape::Newtype { inner } => assert_eq!(inner, i),
        _ => panic!("newtype expected"),
    }
    let opt = |id: &str| ix.root(id).ok().unwrap().option_shape().ok().unwrap();
    assert!(matches!(opt(&none), OptionShape::Absent));
    match opt(&some) {
        OptionShape::Wrapped { inner } => assert_eq!(inner, none),
        _ => panic!("wrapper expected"),
    }
    assert!(matches!(opt(&plain), OptionShape::Unwrapped));
}

#[test]
fn a_some_without_its_value_is_an_error() {
    let inst = JsonDataInstance { atoms: vec![a("s", "Some", "Some")], relations: vec![] };
    let ix = Index::build(&inst);
    let node = ix.root("s").ok().unwrap();
    assert_eq!(err_text(node.any_shape()), "missing relation 'value' from atom s");
    assert_eq!(err_text(node.option_shape()), "missing relation 'value' from atom s");
    let gone = node.child("gone".to_string());
    assert_eq!(err_text(gone.any_shape()), "atom not found: gone");
    assert_eq!(err_text(gone.parse(ScalarKind::U8)), "atom not found: gone");
}

#[test]
fn one_entry_gives_its_key_once() {
    let inst = point();
    let ix = Index::build(&inst);
    let node: NodeDeserializer<'_> = ix.root("atom0").ok().unwrap();
    assert_eq!(node.atom_id(), "atom0");
    let mut entry = OneEntry::new("Rect".to_string(), VariantPayload::Struct(node.index(), "atom0".to_string()));
    assert_eq!(entry.remaining(), 1);
    assert_eq!(entry.take_key(), Some("Rect".to_string()));
    assert_eq!(entry.remaining(), 0);
    assert_eq!(entry.take_key(), None);
    assert!(matches!(entry.value(), VariantPayload::Struct(_, _)));
}

#[test]
fn reify_error_keeps_its_message() {
    let e = ReifyError::msg("oops".to_string());
    assert_eq!(e.message(), "oops");
}

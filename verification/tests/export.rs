use spytial::annotations::{Directive, SpytialDecoratorsBuilder, TypeRegistry};
use spytial::export::{format_bytes_label, Relationalizer, SerializationError};
use spytial::jsondata::JsonDataInstance;
use spytial::relation_id::make_relation_id;

fn atom(inst: &JsonDataInstance, i: usize) -> (String, String, String) {
    let a = &inst.atoms[i];
    (a.id.clone(), a.atom_type.clone(), a.label.clone())
}

fn triple(id: &str, ty: &str, label: &str) -> (String, String, String) {
    (id.to_string(), ty.to_string(), label.to_string())
}

fn strings(v: &[&str]) -> Vec<String> {
    v.iter().map(|s| s.to_string()).collect()
}

/// `struct Sample { values: Vec<i32> }` with `values: vec![7, 7]`, walked
/// the way serde walks it.
fn sample() -> JsonDataInstance {
    let mut r = Relationalizer::new();
    let s = r.begin_struct("Sample", None);
    let mut v = r.begin_seq(Some(2));
    let e0 = r.serialize_signed("i32", 7);
    r.push_element(&mut v, e0);
    let e1 = r.serialize_signed("i32", 7);
    r.push_element(&mut v, e1);
    r.push_field(&s, "values", v.id());
    r.finish()
}

#[test]
fn sample_struct_has_the_documented_atoms() {
    let inst = sample();
    assert_eq!(inst.atoms.len(), 5);
    assert_eq!(atom(&inst, 0), triple("atom0", "Sample", "Sample"));
    assert_eq!(atom(&inst, 1), triple("atom1", "sequence", "seq[2]"));
    assert_eq!(atom(&inst, 2), triple("atom2", "i32", "7"));
    assert_eq!(atom(&inst, 3), triple("atom3", "u64", "0"));
    assert_eq!(atom(&inst, 4), triple("atom4", "u64", "1"));
}

#[test]
fn sample_struct_has_the_documented_records() {
    let inst = sample();
    assert_eq!(inst.relations.len(), 2);
    let idx = &inst.relations[0];
    assert_eq!(idx.id, "sequence.idx");
    assert_eq!(idx.name, "idx");
    assert_eq!(idx.types, strings(&["sequence", "u64", "atom"]));
    assert_eq!(idx.tuples.len(), 2);
    assert_eq!(idx.tuples[0].atoms, strings(&["atom1", "atom3", "atom2"]));
    assert_eq!(idx.tuples[1].atoms, strings(&["atom1", "atom4", "atom2"]));
    let values = &inst.relations[1];
    assert_eq!(values.id, "Sample.values");
    assert_eq!(values.types, strings(&["Sample", "atom"]));
    assert_eq!(values.tuples[0].atoms, strings(&["atom0", "atom1"]));
    assert_eq!(values.tuples[0].types, strings(&["Sample", "atom"]));
}

#[test]
fn equal_scalars_share_an_atom() {
    let mut r = Relationalizer::new();
    let a = r.serialize_str("hello");
    let b = r.serialize_str("hello");
    let c = r.serialize_str("world");
    let t = r.serialize_bool(true);
    let f = r.serialize_bool(false);
    let t2 = r.serialize_bool(true);
    let n1 = r.serialize_none();
    let n2 = r.serialize_none();
    let u1 = r.serialize_unit();
    let u2 = r.serialize_unit();
    let v1 = r.serialize_unit_variant("Color", "Red");
    let v2 = r.serialize_unit_variant("Color", "Red");
    let v3 = r.serialize_unit_variant("Color", "Blue");
    assert_eq!(a, b);
    assert_ne!(a, c);
    assert_eq!(t, t2);
    assert_ne!(t, f);
    assert_eq!(n1, n2);
    assert_eq!(u1, u2);
    assert_eq!(v1, v2);
    assert_ne!(v1, v3);
    let inst = r.finish();
    assert_eq!(inst.atoms.len(), 8);
}

#[test]
fn same_label_of_different_types_do_not_share() {
    let mut r = Relationalizer::new();
    let a = r.serialize_signed("i32", 1);
    let b = r.serialize_unsigned("u8", 1);
    let c = r.serialize_signed("i64", 1);
    assert_ne!(a, b);
    assert_ne!(a, c);
    let d = r.serialize_signed("i32", 1);
    assert_eq!(a, d);
}

#[test]
fn wide_integers_keep_every_digit() {
    let mut r = Relationalizer::new();
    r.serialize_signed("i128", i128::MIN);
    r.serialize_unsigned("u128", u128::MAX);
    r.serialize_signed("i8", -7);
    let inst = r.finish();
    assert_eq!(inst.atoms[0].label, "-170141183460469231731687303715884105728");
    assert_eq!(inst.atoms[1].label, "340282366920938463463374607431768211455");
    assert_eq!(inst.atoms[2].label, "-7");
}

#[test]
fn floats_share_by_bit_pattern_and_nan_never() {
    let mut r = Relationalizer::new();
    let z = r.serialize_float("f64", "0", 0.0f64.to_bits(), false);
    let nz = r.serialize_float("f64", "-0", (-0.0f64).to_bits(), false);
    let z2 = r.serialize_float("f64", "0", 0.0f64.to_bits(), false);
    let nan1 = r.serialize_float("f64", "NaN", f64::NAN.to_bits(), true);
    let nan2 = r.serialize_float("f64", "NaN", f64::NAN.to_bits(), true);
    assert_ne!(z, nz);
    assert_eq!(z, z2);
    assert_ne!(nan1, nan2);
}

#[test]
fn chars_and_bytes_are_labelled_by_their_text() {
    let mut r = Relationalizer::new();
    r.serialize_char('z');
    r.serialize_bytes(&[0, 255, 7]);
    r.serialize_bytes(&[]);
    let inst = r.finish();
    assert_eq!(atom(&inst, 0), triple("atom0", "char", "z"));
    assert_eq!(atom(&inst, 1), triple("atom1", "bytes", "[0, 255, 7]"));
    assert_eq!(atom(&inst, 2), triple("atom2", "bytes", "[]"));
}

#[test]
fn bytes_label_matches_debug_spelling() {
    let b: Vec<u8> = vec![1, 2, 3, 200];
    assert_eq!(format_bytes_label(&b), format!("{:?}", b));
    assert_eq!(format_bytes_label(&[]), "[]");
}

#[test]
fn some_of_a_plain_value_is_that_value() {
    let mut r = Relationalizer::new();
    let five = r.serialize_signed("i32", 5);
    let some = r.serialize_some(five.clone());
    assert_eq!(some, five);
    let inst = r.finish();
    assert_eq!(inst.atoms.len(), 1);
    assert_eq!(inst.relations.len(), 0);
}

#[test]
fn some_wraps_only_around_an_option() {
    let mut r = Relationalizer::new();
    let none = r.serialize_none();
    let some_none = r.serialize_some(none.clone());
    assert_ne!(some_none, none);
    let some_some_none = r.serialize_some(some_none.clone());
    assert_ne!(some_some_none, some_none);
    let inst = r.finish();
    assert_eq!(atom(&inst, 1), triple("atom1", "Some", "Some"));
    let value = &inst.relations[0];
    assert_eq!(value.id, "Some.value");
    assert_eq!(value.tuples[0].atoms, strings(&["atom1", "atom0"]));
    assert_eq!(value.tuples[1].atoms, strings(&["atom2", "atom1"]));
}

#[test]
fn newtypes_and_variants_point_at_their_inner_value() {
    let mut r = Relationalizer::new();
    let w = r.begin_newtype_struct("Meters");
    let inner = r.serialize_signed("i32", 3);
    r.end_newtype_struct(w.clone(), inner.clone());
    let v = r.begin_newtype_variant("Shape", "Radius");
    let inner2 = r.serialize_signed("i32", 4);
    r.end_newtype_variant(v.clone(), "Shape", inner2.clone());
    let inst = r.finish();
    assert_eq!(atom(&inst, 0), triple("atom0", "newtype_struct", "Meters"));
    assert_eq!(atom(&inst, 2), triple("atom2", "Shape", "Radius"));
    assert_eq!(inst.relations[0].id, "newtype_struct.value");
    assert_eq!(inst.relations[0].tuples[0].atoms, vec![w, inner]);
    assert_eq!(inst.relations[1].id, "Shape.variant_value");
    assert_eq!(inst.relations[1].tuples[0].atoms, vec![v, inner2]);
    assert_eq!(inst.relations[1].types, strings(&["Shape", "atom"]));
}

#[test]
fn tuples_and_maps_have_their_labels_and_entries() {
    let mut r = Relationalizer::new();
    let mut t = r.begin_tuple(2);
    let a = r.serialize_signed("i32", 1);
    r.push_element(&mut t, a);
    assert_eq!(t.next_position(), 1);
    let mut m = r.begin_map(None);
    let k = r.serialize_str("k");
    m.set_key(k);
    let val = r.serialize_bool(true);
    r.push_value(&mut m, val.clone());
    let orphan = r.serialize_bool(false);
    r.push_value(&mut m, orphan);
    let inst = r.finish();
    assert_eq!(atom(&inst, 0), triple("atom0", "tuple", "tuple[2]"));
    assert_eq!(atom(&inst, 3), triple("atom3", "map", "map[0]"));
    let entries = &inst.relations[1];
    assert_eq!(entries.id, "map.map_entry");
    assert_eq!(entries.tuples.len(), 1);
    assert_eq!(entries.tuples[0].atoms, vec![m.id(), "atom4".to_string(), val]);
}

#[test]
fn same_named_field_splits_by_source_type() {
    let mut r = Relationalizer::new();
    let p = r.begin_struct("Person", None);
    let n1 = r.serialize_str("Ann");
    r.push_field(&p, "name", n1);
    let c = r.begin_struct("Company", None);
    let n2 = r.serialize_str("Acme");
    r.push_field(&c, "name", n2);
    let p2 = r.begin_struct("Person", None);
    let n3 = r.serialize_str("Bob");
    r.push_field(&p2, "name", n3);
    let inst = r.finish();
    assert_eq!(inst.relations.len(), 2);
    assert_eq!(inst.relations[0].id, "Person.name");
    assert_eq!(inst.relations[0].tuples.len(), 2);
    assert_eq!(inst.relations[1].id, "Company.name");
    assert_eq!(inst.relations[1].tuples.len(), 1);
}

#[test]
fn record_ids_escape_dots_and_backslashes() {
    assert_eq!(make_relation_id("a.b", "c"), "a\\.b.c");
    assert_eq!(make_relation_id("a", "b.c"), "a.b\\.c");
    assert_eq!(make_relation_id("a\\", "b"), "a\\\\.b");
    assert_ne!(make_relation_id("a.b", "c"), make_relation_id("a", "b.c"));
}

#[test]
fn ragged_record_puts_longest_tuples_first() {
    // A struct variant with a field named `idx` and a tuple variant of the
    // same enum share the record `Shape.idx`.
    let mut r = Relationalizer::new();
    let sv = r.begin_struct_variant("Shape", "Labelled");
    let x = r.serialize_signed("i32", 9);
    r.push_field(&sv, "idx", x);
    let mut tv = r.begin_tuple_variant("Shape", "Offset");
    let y = r.serialize_signed("i32", 2);
    r.push_element(&mut tv, y);
    let inst = r.finish();
    assert_eq!(inst.relations.len(), 1);
    let rec = &inst.relations[0];
    assert_eq!(rec.id, "Shape.idx");
    assert_eq!(rec.types, strings(&["Shape", "atom", "atom"]));
    assert_eq!(rec.tuples.len(), 2);
    assert_eq!(rec.tuples[0].atoms.len(), 3);
    assert_eq!(rec.tuples[1].atoms.len(), 2);
    assert_eq!(rec.tuples[1].types, strings(&["Shape", "atom"]));
}

#[test]
fn header_keeps_a_type_all_tuples_agree_on() {
    let mut r = Relationalizer::new();
    let mut a = r.begin_seq(None);
    let e = r.serialize_str("x");
    r.push_element(&mut a, e);
    let mut b = r.begin_seq(Some(1));
    let f = r.serialize_str("y");
    r.push_element(&mut b, f);
    let inst = r.finish();
    assert_eq!(inst.atoms[0].label, "seq[0]");
    let rec = &inst.relations[0];
    assert_eq!(rec.id, "sequence.idx");
    assert_eq!(rec.types, strings(&["sequence", "u64", "atom"]));
    assert_eq!(rec.tuples.len(), 2);
}

#[test]
fn registered_decorators_are_gathered_once_and_the_root_is_excluded() {
    let mut registry = TypeRegistry::new();
    registry.register("Root", SpytialDecoratorsBuilder::new().flag("root").build());
    registry.register("Child", SpytialDecoratorsBuilder::new().flag("child").build());
    let mut r = Relationalizer::collecting(Some("Root"));
    let root = r.begin_struct("Root", registry.get("Root"));
    let c1 = r.begin_struct("Child", registry.get("Child"));
    r.push_field(&root, "a", c1.id());
    let c2 = r.begin_struct("Child", registry.get("Child"));
    r.push_field(&root, "b", c2.id());
    let (inst, decorators) = r.finish_with_decorators();
    assert_eq!(inst.atoms.len(), 3);
    assert_eq!(decorators.constraints.len(), 0);
    assert_eq!(decorators.directives.len(), 1);
}

#[test]
fn contains_atom_sees_only_made_atoms() {
    let mut r = Relationalizer::new();
    let a = r.serialize_unit();
    assert!(r.contains_atom(&a));
    assert!(!r.contains_atom("atom1"));
}

#[test]
fn serialization_error_keeps_its_message() {
    let e = SerializationError::new("boom".to_string());
    assert_eq!(e.message(), "boom");
}

#[test]
fn unit_structs_are_shared_by_name() {
    let mut r = Relationalizer::new();
    let a = r.serialize_unit_struct("Unit");
    let b = r.serialize_unit_struct("Unit");
    let c = r.serialize_unit_struct("Other");
    assert_eq!(a, b);
    assert_ne!(a, c);
    let inst = r.finish();
    assert_eq!(atom(&inst, 0), triple("atom0", "unit_struct", "Unit"));
}

#[test]
fn empty_instance_has_nothing() {
    let inst = JsonDataInstance::empty();
    assert!(inst.atoms.is_empty());
    assert!(inst.relations.is_empty());
    let r = Relationalizer::new();
    let inst2 = r.finish();
    assert!(inst2.atoms.is_empty());
}

#[test]
fn decorators_registered_during_a_walk_are_gathered() {
    // What the registry holds when a type is first met is what is gathered:
    // a type registered after the walk started, before it is met, counts.
    let mut registry = TypeRegistry::new();
    let mut r = Relationalizer::collecting(None);
    let a = r.begin_struct("Early", registry.get("Early"));
    registry.register("Early", SpytialDecoratorsBuilder::new().flag("early").build());
    registry.register("Late", SpytialDecoratorsBuilder::new().flag("late").build());
    let b = r.begin_struct("Late", registry.get("Late"));
    let c = r.begin_struct("Early", registry.get("Early"));
    r.push_field(&a, "x", b.id());
    r.push_field(&a, "y", c.id());
    let (_inst, decorators) = r.finish_with_decorators();
    assert_eq!(decorators.directives.len(), 1);
    match &decorators.directives[0] {
        Directive::Flag(f) => assert_eq!(f.flag, "late"),
        _ => panic!(),
    }
}

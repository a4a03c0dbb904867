use spytial::annotations::{
    is_not_negated, AlignConstraint, AlignParams, Constraint, DecoProbe, DefaultDecorators,
    Directive, FlagDirective, GroupParams, HasSpytialDecorators, SpytialDecorators,
    SpytialDecoratorsBuilder, TypeRegistry,
};

struct Decorated;

impl HasSpytialDecorators for Decorated {
    fn decorators() -> SpytialDecorators {
        SpytialDecoratorsBuilder::new().flag("decorated").build()
    }
}

struct Plain;

#[test]
fn test_spytial_decorators_default() {
    let decorators = SpytialDecorators::default();
    assert!(decorators.constraints.is_empty());
    assert!(decorators.directives.is_empty());
}

#[test]
fn builder_keeps_the_order_of_calls() {
    let d = SpytialDecoratorsBuilder::new()
        .align("s", "horizontal", false)
        .orientation("t", vec!["above", "left"], true)
        .group_field_based("children", 0, 1, None, false)
        .flag("f")
        .atom_color("s", "red")
        .build();
    assert_eq!(d.constraints.len(), 3);
    assert_eq!(
        d.constraints[0],
        Constraint::Align(AlignConstraint {
            align: AlignParams { selector: "s".to_string(), direction: "horizontal".to_string(), negated: false },
        })
    );
    match &d.constraints[1] {
        Constraint::Orientation(o) => {
            assert_eq!(o.orientation.directions, vec!["above".to_string(), "left".to_string()]);
            assert!(o.orientation.negated);
        }
        _ => panic!(),
    }
    match &d.constraints[2] {
        Constraint::Group(g) => match &g.group {
            GroupParams::FieldBased { field, group_on, add_to_group, selector, negated } => {
                assert_eq!(field, "children");
                assert_eq!(*group_on, 0);
                assert_eq!(*add_to_group, 1);
                assert_eq!(*selector, None);
                assert!(!negated);
            }
            _ => panic!(),
        },
        _ => panic!(),
    }
    assert_eq!(d.directives.len(), 2);
    assert!(matches!(&d.directives[0], Directive::Flag(FlagDirective { .. })));
}

#[test]
fn extend_with_appends_after_what_is_there() {
    let inner = SpytialDecoratorsBuilder::new().flag("b").build();
    let d = SpytialDecoratorsBuilder::new().flag("a").extend_with(inner).flag("c").build();
    assert_eq!(d.directives.len(), 3);
    let names: Vec<String> = d
        .directives
        .iter()
        .map(|x| match x {
            Directive::Flag(f) => f.flag.clone(),
            _ => String::new(),
        })
        .collect();
    assert_eq!(names, vec!["a".to_string(), "b".to_string(), "c".to_string()]);
}

#[test]
fn including_a_type_adds_its_decorators() {
    let d = SpytialDecoratorsBuilder::new().include_decorators_from_type::<Decorated>().build();
    assert_eq!(d.directives.len(), 1);
}

#[test]
fn probes_find_decorators_only_where_a_type_has_them() {
    let with = DecoProbe::<Decorated>(std::marker::PhantomData).get();
    assert_eq!(with.directives.len(), 1);
    let without = DefaultDecorators::get(DecoProbe::<Plain>(std::marker::PhantomData));
    assert!(without.directives.is_empty());
    assert!(without.constraints.is_empty());
}

#[test]
fn registry_gives_back_the_latest_registration() {
    let mut reg = TypeRegistry::new();
    assert!(reg.get("A").is_none());
    reg.register("A", SpytialDecoratorsBuilder::new().flag("one").build());
    reg.register("B", SpytialDecoratorsBuilder::new().build());
    reg.register("A", SpytialDecoratorsBuilder::new().flag("two").flag("three").build());
    assert_eq!(reg.get("A").unwrap().directives.len(), 2);
    assert_eq!(reg.get("B").unwrap().directives.len(), 0);
    assert!(reg.get("C").is_none());
}

#[test]
fn negation_flag_is_written_only_when_set() {
    assert!(is_not_negated(&false));
    assert!(!is_not_negated(&true));
}

#[test]
fn duplicate_is_an_equal_copy() {
    let d = SpytialDecoratorsBuilder::new()
        .edge_style("next", "blue", Some("s"), None, Some("dashed"), Some(2.0f64.to_bits()), Some(true), None)
        .hide_field("f", Some("s"))
        .build();
    let e = d.duplicate();
    assert_eq!(d, e);
}

#[test]
fn hide_atom_is_filed_among_the_constraints() {
    let d = SpytialDecoratorsBuilder::new()
        .orientation("sel1", vec!["left", "below"], false)
        .align("sel2", "horizontal", false)
        .atom_color("sel3", "green")
        .hide_atom("Foo")
        .build();
    assert_eq!(d.constraints.len(), 3);
    assert_eq!(d.directives.len(), 1);
    assert!(matches!(d.constraints[0], Constraint::Orientation(_)));
    assert!(matches!(d.constraints[1], Constraint::Align(_)));
    match &d.constraints[2] {
        Constraint::HideAtom(h) => assert_eq!(h.hide_atom.selector, "Foo"),
        _ => panic!(),
    }
    match &d.directives[0] {
        Directive::AtomColor(c) => {
            assert_eq!(c.atom_color.selector, "sel3");
            assert_eq!(c.atom_color.value, "green");
        }
        _ => panic!(),
    }
}

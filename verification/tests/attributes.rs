use spytial::attributes::{
    analyze_field_type, analyze_inner_type, collect_field_type_decorators, extract_array_from_tokens,
    extract_bool_from_tokens, extract_number_from_tokens, extract_string_from_tokens,
    extract_value_text, normalize_whitespace, parse_attribute_args, parse_edge_style_args,
    parse_flag_args, parse_group_args, parse_orientation_args, parse_spatial_attribute,
    validate_known_keys, FieldType, SpatialAttribute,
};

fn s(v: &str) -> String {
    v.to_string()
}

fn strings(v: &[&str]) -> Vec<String> {
    v.iter().map(|x| x.to_string()).collect()
}

fn path(name: &str, arg: Option<FieldType>) -> FieldType {
    FieldType::Path { name: s(name), arg: arg.map(Box::new) }
}

#[test]
fn string_values_are_found_with_any_spacing() {
    assert_eq!(extract_string_from_tokens("selector = \"a b\"", "selector"), Some(s("a b")));
    assert_eq!(extract_string_from_tokens("selector=\"x\"", "selector"), Some(s("x")));
    assert_eq!(extract_string_from_tokens("selector =\"y\"", "selector"), Some(s("y")));
    assert_eq!(extract_string_from_tokens("selector= \"z\"", "selector"), Some(s("z")));
    assert_eq!(extract_string_from_tokens("other = \"z\"", "selector"), None);
    assert_eq!(extract_string_from_tokens("selector = \"unterminated", "selector"), None);
}

#[test]
fn string_values_take_the_first_occurrence() {
    let t = "name = \"first\", name = \"second\"";
    assert_eq!(extract_string_from_tokens(t, "name"), Some(s("first")));
}

#[test]
fn numbers_and_bools_stop_at_a_delimiter() {
    let t = "height = 20, width = 30)";
    assert_eq!(extract_number_from_tokens(t, "height"), Some(20));
    assert_eq!(extract_number_from_tokens(t, "width"), Some(30));
    assert_eq!(extract_number_from_tokens("height = -1", "height"), None);
    assert_eq!(extract_number_from_tokens("height = 4294967296", "height"), None);
    assert_eq!(extract_bool_from_tokens("negated = true, x = 1", "negated"), Some(true));
    assert_eq!(extract_bool_from_tokens("negated = false", "negated"), Some(false));
    assert_eq!(extract_bool_from_tokens("negated = yes", "negated"), None);
    assert_eq!(extract_bool_from_tokens("negated=true", "negated"), None);
    assert_eq!(extract_value_text("weight = 2.5, x = 1", "weight"), Some(s("2.5")));
}

#[test]
fn arrays_are_split_trimmed_and_unquoted() {
    let t = "directions = [\"above\", \"left\" ,, \"\"]";
    assert_eq!(extract_array_from_tokens(t, "directions"), Some(strings(&["above", "left"])));
    assert_eq!(extract_array_from_tokens("directions=[]", "directions"), Some(vec![]));
    assert_eq!(extract_array_from_tokens("directions = [\"a\"", "directions"), None);
}

#[test]
fn whitespace_is_normalized_to_spaces() {
    assert_eq!(normalize_whitespace("a\n=\t\"b\"\r"), "a = \"b\" ");
}

#[test]
fn attribute_and_flag_have_defaults_even_without_a_list() {
    match parse_attribute_args(None) {
        SpatialAttribute::Attribute { field } => assert_eq!(field, "name"),
        _ => panic!(),
    }
    match parse_attribute_args(Some("field = \"label\"")) {
        SpatialAttribute::Attribute { field } => assert_eq!(field, "label"),
        _ => panic!(),
    }
    match parse_flag_args(None) {
        SpatialAttribute::Flag { name } => assert_eq!(name, "important"),
        _ => panic!(),
    }
}

#[test]
fn orientation_reads_wrapped_token_text() {
    match parse_orientation_args(Some("selector = \"left\",\ndirections = [\"above\", \"below\"],\nnegated = true")) {
        Some(SpatialAttribute::Orientation { selector, directions, negated }) => {
            assert_eq!(selector, "left");
            assert_eq!(directions, strings(&["above", "below"]));
            assert!(negated);
        }
        _ => panic!(),
    }
    match parse_orientation_args(Some("")) {
        Some(SpatialAttribute::Orientation { selector, directions, negated }) => {
            assert_eq!(selector, "");
            assert_eq!(directions, strings(&["up", "down"]));
            assert!(!negated);
        }
        _ => panic!(),
    }
    assert!(parse_orientation_args(None).is_none());
}

#[test]
fn group_is_field_based_only_with_a_field_key() {
    match parse_group_args(
        Some("field = \"children\", group_on = 0, add_to_group = 3"),
        &strings(&["field", "group_on", "add_to_group"]),
    ) {
        Some(SpatialAttribute::GroupField { field, group_on, add_to_group, negated }) => {
            assert_eq!(field, "children");
            assert_eq!(group_on, 0);
            assert_eq!(add_to_group, 3);
            assert!(!negated);
        }
        _ => panic!(),
    }
    match parse_group_args(Some("selector = \"s\", negated = true"), &strings(&["selector", "negated"])) {
        Some(SpatialAttribute::GroupSelector { selector, name, negated }) => {
            assert_eq!(selector, "s");
            assert_eq!(name, "default");
            assert!(negated);
        }
        _ => panic!(),
    }
}

#[test]
fn group_text_inside_a_selector_is_not_a_field_key() {
    let text = "selector = \"{x : T | x.field = y}\", name = \"g\"";
    match parse_group_args(Some(text), &strings(&["selector", "name"])) {
        Some(SpatialAttribute::GroupSelector { selector, name, negated }) => {
            assert_eq!(selector, "{x : T | x.field = y}");
            assert_eq!(name, "g");
            assert!(!negated);
        }
        _ => panic!(),
    }
}

#[test]
fn edge_style_keeps_what_is_given() {
    let bits = 2.5f64.to_bits();
    match parse_edge_style_args(Some("field = \"next\", style = \"dashed\", hidden = false"), Some(bits)) {
        Some(SpatialAttribute::EdgeStyle {
            field,
            value,
            selector,
            filter,
            style,
            weight_bits,
            show_label,
            hidden,
        }) => {
            assert_eq!(field, "next");
            assert_eq!(value, "blue");
            assert_eq!(selector, None);
            assert_eq!(filter, None);
            assert_eq!(style, Some(s("dashed")));
            assert_eq!(weight_bits, Some(bits));
            assert_eq!(show_label, None);
            assert_eq!(hidden, Some(false));
        }
        _ => panic!(),
    }
}

#[test]
fn unknown_keys_are_reported_with_the_accepted_ones() {
    let r = parse_spatial_attribute("align", &strings(&["selector", "typo"]), Some("selector = \"a\", typo = \"b\""), None);
    assert_eq!(
        r.err().unwrap(),
        "unknown parameter `typo` for #[align(...)]; expected one of: selector, direction, negated"
    );
    let r = validate_known_keys(&strings(&["a", "b"]), "x", &strings(&["a"]));
    assert_eq!(r.err().unwrap(), "unknown parameter `b` for #[x(...)]; expected one of: a");
    assert!(validate_known_keys(&strings(&["a"]), "x", &strings(&["a", "b"])).is_ok());
}

#[test]
fn attributes_are_dispatched_by_name() {
    let r = parse_spatial_attribute("size", &strings(&["height"]), Some("height = 5"), None);
    match r.ok().unwrap() {
        Some(SpatialAttribute::Size { selector, height, width }) => {
            assert_eq!(selector, "");
            assert_eq!(height, 5);
            assert_eq!(width, 30);
        }
        _ => panic!(),
    }
    assert!(parse_spatial_attribute("derive", &vec![], Some("Debug"), None).ok().unwrap().is_none());
    assert!(parse_spatial_attribute("tag", &vec![], None, None).ok().unwrap().is_none());
    match parse_spatial_attribute("flag", &vec![], None, None).ok().unwrap() {
        Some(SpatialAttribute::Flag { name }) => assert_eq!(name, "important"),
        _ => panic!(),
    }
    match parse_spatial_attribute("tag", &strings(&["to_tag"]), Some("to_tag = \"n\""), None).ok().unwrap() {
        Some(SpatialAttribute::Tag { to_tag, name, value }) => {
            assert_eq!(to_tag, "n");
            assert_eq!(name, "");
            assert_eq!(value, "");
        }
        _ => panic!(),
    }
    match parse_spatial_attribute("icon", &vec![], Some(""), None).ok().unwrap() {
        Some(SpatialAttribute::Icon { selector, path, show_labels }) => {
            assert_eq!(selector, "");
            assert_eq!(path, "icon.png");
            assert!(show_labels);
        }
        _ => panic!(),
    }
    match parse_spatial_attribute("hide_field", &vec![], Some("selector = \"s\""), None).ok().unwrap() {
        Some(SpatialAttribute::HideField { field, selector }) => {
            assert_eq!(field, "field");
            assert_eq!(selector, Some(s("s")));
        }
        _ => panic!(),
    }
}

#[test]
fn field_types_are_probed_through_wrappers() {
    let inner = path("Vec", Some(path("Option", Some(path("Box", Some(path("Node", None)))))));
    assert_eq!(analyze_inner_type(&inner), Some(s("Node")));
    assert_eq!(analyze_inner_type(&path("u32", None)), None);
    assert_eq!(analyze_inner_type(&path("HashMap", Some(path("K", None)))), None);
    assert_eq!(analyze_inner_type(&path("Vec", None)), None);
    assert_eq!(analyze_inner_type(&FieldType::Other), None);
    let mut seen = strings(&["Node"]);
    assert!(analyze_field_type(&inner, &mut seen).is_empty());
    let mut seen = vec![];
    assert_eq!(analyze_field_type(&inner, &mut seen), strings(&["Node"]));
    assert_eq!(seen, strings(&["Node"]));
}

#[test]
fn field_probes_are_unique_and_skip_the_type_itself() {
    let fields = vec![
        path("Tree", None),
        path("Leaf", None),
        path("Option", Some(path("Leaf", None))),
        path("String", None),
        path("Vec", Some(path("Tree", None))),
        path("Branch", None),
    ];
    assert_eq!(collect_field_type_decorators(&fields, "Tree"), strings(&["Leaf", "Branch"]));
    assert!(collect_field_type_decorators(&vec![], "Unit").is_empty());
}

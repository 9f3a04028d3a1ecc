use json_to_class::generators::dart_generator::{DartClassGenerator, FieldType};
use json_to_class::generators::{to_legal_case, Case, ClassError, ClassGenerator, NamingRule};
use json_to_class::json::JsonValue;
use json_to_class::json_to_class;

fn integer() -> JsonValue {
    JsonValue::Number { is_i64: true, is_f64: false }
}

fn double() -> JsonValue {
    JsonValue::Number { is_i64: false, is_f64: true }
}

fn text(s: &str) -> JsonValue {
    JsonValue::Text(s.to_string())
}

fn object(entries: Vec<(&str, JsonValue)>) -> JsonValue {
    JsonValue::Object(entries.into_iter().map(|(k, v)| (k.to_string(), v)).collect())
}

fn header(file: &str) -> String {
    format!(
        "import 'package:json_annotation/json_annotation.dart';\n\npart '{}.g.dart';\n\n",
        file
    )
}

fn class(rule: &str, name: &str, body: &str, arguments: &str) -> String {
    format!(
        "@JsonSerializable({rule})\nclass {name} {{\n{body}\n    {name}({{\n{arguments}\n    }});\n\n    factory {name}.fromJson(Map<String, dynamic> json) => _${name}FromJson(json);\n\n    Map<String, dynamic> toJson() => _${name}ToJson(this);\n}}",
        rule = rule,
        name = name,
        body = body,
        arguments = arguments
    )
}

fn names(generator: &DartClassGenerator, kept: &[usize]) -> Vec<String> {
    kept.iter().map(|&c| generator.classes()[c].class_name.clone()).collect()
}

#[test]
fn new_generator_holds_the_root_alone() {
    let generator = DartClassGenerator::new("Foo", NamingRule::Kebab);
    assert_eq!(generator.classes().len(), 1);
    assert_eq!(generator.classes()[0].class_name, "Foo");
    assert!(generator.classes()[0].fields.is_empty());
    assert!(generator.classes()[0].classes.is_empty());
    assert_eq!(generator.naming_rule(), NamingRule::Kebab);
}

#[test]
fn naming_rule_maps_to_casing() {
    assert_eq!(Case::from(NamingRule::NoRule), Case::Snake);
    assert_eq!(Case::from(NamingRule::Snake), Case::Snake);
    assert_eq!(Case::from(NamingRule::Pascal), Case::Pascal);
    assert_eq!(Case::from(NamingRule::Kebab), Case::Kebab);
    let case: Case = NamingRule::Kebab.into();
    assert_eq!(case, Case::Kebab);
}

#[test]
fn legal_case_in_snake_and_kebab_drops_the_delimiters() {
    assert_eq!(to_legal_case("1meta-data", Case::Snake), "metadata");
    assert_eq!(to_legal_case("metaData", Case::Kebab), "metadata");
    assert_eq!(to_legal_case("$$$", Case::Camel), "");
    assert_eq!(to_legal_case("", Case::Pascal), "");
}

#[test]
fn legal_case_of_a_legal_identifier_on_samples() {
    for key in ["$meta-data", "a1b", "XMLHttpRequest", "snake_case_key", "x"] {
        for case in [Case::Camel, Case::Pascal, Case::Snake, Case::Kebab] {
            let once = to_legal_case(key, case);
            assert_eq!(to_legal_case(&once, case), once);
        }
    }
}

#[test]
fn legal_case_reads_adjacent_capitals_as_one_word() {
    assert_eq!(to_legal_case("a-b", Case::Pascal), "AB");
    assert_eq!(to_legal_case("AB", Case::Pascal), "Ab");
}

#[test]
fn primitive_values_classify_by_kind() {
    let mut generator = DartClassGenerator::new("Foo", NamingRule::NoRule);
    assert!(matches!(generator.parse_value(&JsonValue::Null), Ok(FieldType::Dynamic)));
    assert!(matches!(generator.parse_value(&JsonValue::Boolean(false)), Ok(FieldType::Boolean)));
    assert!(matches!(generator.parse_value(&integer()), Ok(FieldType::Integer)));
    assert!(matches!(generator.parse_value(&double()), Ok(FieldType::Double)));
    assert!(matches!(generator.parse_value(&text("x")), Ok(FieldType::Text)));
    assert_eq!(generator.classes().len(), 1);
    assert!(generator.classes()[0].fields.is_empty());
}

#[test]
fn empty_and_mixed_arrays_are_lists_of_dynamic() {
    let mut generator = DartClassGenerator::new("Foo", NamingRule::NoRule);
    let empty = generator.parse_array(&vec![]).unwrap();
    let mixed = generator.parse_array(&vec![integer(), text("x")]).unwrap();
    assert_eq!(empty.get_type(generator.classes()), "List<dynamic>");
    assert_eq!(mixed.get_type(generator.classes()), "List<dynamic>");
    assert!(matches!(empty, FieldType::List(inner) if matches!(*inner, FieldType::Dynamic)));
    assert!(matches!(mixed, FieldType::List(inner) if matches!(*inner, FieldType::Dynamic)));
}

#[test]
fn empty_array_in_a_document() {
    let generator = DartClassGenerator::new("Foo", NamingRule::NoRule);
    let result = json_to_class(r#"{"data": []}"#, generator).unwrap();
    let expected = header("foo")
        + &class("", "Foo", "    final List<dynamic> data;", "        required this.data,")
        + "\n";
    assert_eq!(result, expected);
}

#[test]
fn uniform_and_nested_arrays() {
    let mut generator = DartClassGenerator::new("Foo", NamingRule::NoRule);
    let ints = generator.parse_array(&vec![integer(), integer()]).unwrap();
    assert_eq!(ints.get_type(generator.classes()), "List<int>");
    let nested = generator
        .parse_array(&vec![
            JsonValue::Array(vec![double()]),
            JsonValue::Array(vec![double(), double()]),
        ])
        .unwrap();
    assert_eq!(nested.get_type(generator.classes()), "List<List<double>>");
    let uneven = generator
        .parse_array(&vec![JsonValue::Array(vec![double()]), JsonValue::Array(vec![])])
        .unwrap();
    assert_eq!(uneven.get_type(generator.classes()), "List<dynamic>");
    let with_null = generator.parse_array(&vec![integer(), JsonValue::Null]).unwrap();
    assert_eq!(with_null.get_type(generator.classes()), "List<dynamic>");
}

#[test]
fn float_and_integer_fields() {
    let generator = DartClassGenerator::new("Foo", NamingRule::NoRule);
    let result = json_to_class(r#"{"a": 1, "b": 1.0, "c": 1e2, "d": -3}"#, generator).unwrap();
    let expected = header("foo")
        + &class(
            "",
            "Foo",
            "    final int a;\n    final double b;\n    final double c;\n    final int d;",
            "        required this.a,\n        required this.b,\n        required this.c,\n        required this.d,",
        )
        + "\n";
    assert_eq!(result, expected);
}

#[test]
fn fields_follow_first_seen_keys_with_last_value() {
    let mut generator = DartClassGenerator::new("Foo", NamingRule::NoRule);
    let value = object(vec![
        ("b", integer()),
        ("a", text("x")),
        ("b", JsonValue::Boolean(true)),
        ("c", JsonValue::Null),
        ("a", double()),
    ]);
    assert!(matches!(generator.parse_value(&value), Ok(FieldType::Class(0))));
    let fields = &generator.classes()[0].fields;
    let keys: Vec<&str> = fields.iter().map(|f| f.key.as_str()).collect();
    assert_eq!(keys, vec!["b", "a", "c"]);
    assert!(matches!(fields[0].field_type, FieldType::Boolean));
    assert!(matches!(fields[1].field_type, FieldType::Double));
    assert!(matches!(fields[2].field_type, FieldType::Dynamic));
}

#[test]
fn overwritten_object_value_leaves_no_class() {
    let mut generator = DartClassGenerator::new("Foo", NamingRule::NoRule);
    let value = object(vec![("a", object(vec![("x", integer())])), ("a", integer())]);
    generator.parse_value(&value).unwrap();
    assert_eq!(generator.classes().len(), 1);
    assert!(matches!(generator.classes()[0].fields[0].field_type, FieldType::Integer));
}

#[test]
fn field_identifier_and_wire_name() {
    let mut generator = DartClassGenerator::new("Foo", NamingRule::NoRule);
    let value = object(vec![("a1b", text("d")), ("name", text("n")), ("first_name", text("f"))]);
    generator.parse_value(&value).unwrap();
    let fields = &generator.classes()[0].fields;
    assert_eq!(fields[0].identifier, "a1B");
    assert_eq!(fields[0].wire_name.as_deref(), Some("a1b"));
    assert_eq!(fields[1].identifier, "name");
    assert_eq!(fields[1].wire_name, None);
    assert_eq!(fields[2].identifier, "firstName");
    assert_eq!(fields[2].wire_name.as_deref(), Some("first_name"));
}

#[test]
fn wire_names_under_each_naming_rule() {
    let text_of = |rule: NamingRule| {
        json_to_class(r#"{"first-name": "a", "Name": "b", "age": 1}"#, DartClassGenerator::new("Foo", rule))
            .unwrap()
    };
    let arguments =
        "        required this.name,\n        required this.age,\n        required this.firstName,";
    let snake = header("foo")
        + &class(
            "fieldRename: FieldRename.snake",
            "Foo",
            "    final String name;\n    final int age;\n    @JsonKey(name: \"first-name\")\n    final String firstName;",
            arguments,
        )
        + "\n";
    assert_eq!(text_of(NamingRule::Snake), snake);
    let kebab = header("foo")
        + &class(
            "fieldRename: FieldRename.kebab",
            "Foo",
            "    final String name;\n    final int age;\n    @JsonKey(name: \"first-name\")\n    final String firstName;",
            arguments,
        )
        + "\n";
    assert_eq!(text_of(NamingRule::Kebab), kebab);
    let pascal = header("foo")
        + &class(
            "fieldRename: FieldRename.pascal",
            "Foo",
            "    @JsonKey(name: \"Name\")\n    final String name;\n    @JsonKey(name: \"age\")\n    final int age;\n    @JsonKey(name: \"first-name\")\n    final String firstName;",
            arguments,
        )
        + "\n";
    assert_eq!(text_of(NamingRule::Pascal), pascal);
}

#[test]
fn file_name_is_the_root_name_in_snake_case() {
    let generator = DartClassGenerator::new("MyRootClass", NamingRule::NoRule);
    let result = json_to_class("{}", generator).unwrap();
    let expected = header("my_root_class") + &class("", "MyRootClass", "", "") + "\n";
    assert_eq!(result, expected);
}

#[test]
fn array_of_objects_refers_to_one_class() {
    let generator = DartClassGenerator::new("Foo", NamingRule::NoRule);
    let result =
        json_to_class(r#"{"items": [{"x": 1}, {"x": 2}], "tag": "t"}"#, generator).unwrap();
    let expected = header("foo")
        + &class(
            "",
            "Foo",
            "    final List<Items> items;\n    final String tag;",
            "        required this.items,\n        required this.tag,",
        )
        + "\n\n"
        + &class("", "Items", "    final int x;", "        required this.x,")
        + "\n";
    assert_eq!(result, expected);
}

#[test]
fn array_of_different_objects_is_a_list_of_dynamic() {
    let generator = DartClassGenerator::new("Foo", NamingRule::NoRule);
    let result = json_to_class(r#"{"items": [{"x": 1}, {"y": 2}]}"#, generator).unwrap();
    let expected = header("foo")
        + &class("", "Foo", "    final List<dynamic> items;", "        required this.items,")
        + "\n\n"
        + &class("", "Items", "    final int x;", "        required this.x,")
        + "\n\n"
        + &class("", "Items1", "    final int y;", "        required this.y,")
        + "\n";
    assert_eq!(result, expected);
}

#[test]
fn building_twice_gives_the_same_classes() {
    let document = r#"{"a": {"b": [1, 2]}, "c": [{"a": {"b": []}}, {"a": {"b": [1]}}], "d": null}"#;
    let first = json_to_class(document, DartClassGenerator::new("Foo", NamingRule::Snake)).unwrap();
    let second = json_to_class(document, DartClassGenerator::new("Foo", NamingRule::Snake)).unwrap();
    assert_eq!(first, second);
}

#[test]
fn third_distinct_class_of_a_name_is_numbered_two() {
    let mut generator = DartClassGenerator::new("Foo", NamingRule::NoRule);
    let value = object(vec![
        ("a", object(vec![("b", text("c"))])),
        ("d", object(vec![("a", object(vec![("e", text("c"))]))])),
        ("f", object(vec![("a", object(vec![("b", text("c"))]))])),
        ("g", object(vec![("a", object(vec![("h", integer())]))])),
    ]);
    generator.parse_value(&value).unwrap();
    assert_eq!(generator.classes().len(), 8);
    let kept = generator.finalize();
    assert_eq!(kept, vec![0, 1, 2, 3, 4, 6, 7]);
    assert_eq!(names(&generator, &kept), vec!["Foo", "A", "D", "A1", "F", "G", "A2"]);
    assert_eq!(generator.classes()[5].class_name, "A");
    let f = &generator.classes()[4];
    assert_eq!(f.fields[0].field_type.get_type(generator.classes()), "A");
    let g = &generator.classes()[6];
    assert_eq!(g.fields[0].field_type.get_type(generator.classes()), "A2");
}

#[test]
fn class_equal_to_a_later_one_but_not_the_first_is_kept() {
    let mut generator = DartClassGenerator::new("Foo", NamingRule::NoRule);
    let value = object(vec![
        ("a", object(vec![("b", text("c"))])),
        ("d", object(vec![("a", object(vec![("e", text("c"))]))])),
        ("f", object(vec![("a", object(vec![("e", text("c"))]))])),
    ]);
    generator.parse_value(&value).unwrap();
    let kept = generator.finalize();
    assert_eq!(names(&generator, &kept), vec!["Foo", "A", "D", "A1", "F", "A2"]);
}

#[test]
fn tenth_collision_is_numbered_in_decimal() {
    let mut entries: Vec<(String, JsonValue)> = Vec::new();
    for i in 0..12 {
        let inner = object(vec![("a", object(vec![(format!("k{}", i).as_str(), integer())]))]);
        entries.push((format!("w{}", i), inner));
    }
    let mut generator = DartClassGenerator::new("Foo", NamingRule::NoRule);
    generator.parse_value(&JsonValue::Object(entries)).unwrap();
    generator.finalize();
    let a_names: Vec<&str> = generator
        .classes()
        .iter()
        .filter(|c| c.class_name.starts_with('A'))
        .map(|c| c.class_name.as_str())
        .collect();
    assert_eq!(
        a_names,
        vec!["A", "A1", "A2", "A3", "A4", "A5", "A6", "A7", "A8", "A9", "A10", "A11"]
    );
}

#[test]
fn nested_classes_are_listed_in_walk_order() {
    let mut generator = DartClassGenerator::new("Foo", NamingRule::NoRule);
    let value = object(vec![
        ("a", object(vec![("b", text("c")), ("d", object(vec![("h", integer())]))])),
        ("e", object(vec![("f", JsonValue::Null)])),
        ("g", integer()),
    ]);
    generator.parse_value(&value).unwrap();
    assert_eq!(generator.get_classes_recursively(0), vec![1, 2, 3]);
    assert_eq!(generator.get_classes_recursively(1), vec![2]);
    assert_eq!(generator.get_classes_recursively(2), Vec::<usize>::new());
    let all: Vec<&str> = generator.classes().iter().map(|c| c.class_name.as_str()).collect();
    assert_eq!(all, vec!["Foo", "A", "D", "E"]);
    assert_eq!(generator.classes()[0].classes, vec![1, 3]);
    assert_eq!(generator.classes()[1].classes, vec![2]);
}

#[test]
fn change_class_name_reaches_the_fields_that_refer_to_the_class() {
    let mut generator = DartClassGenerator::new("Foo", NamingRule::NoRule);
    generator.parse_value(&object(vec![("a", object(vec![]))])).unwrap();
    let before = generator.classes()[0].fields[0].field_type.get_type(generator.classes());
    assert_eq!(before, "A");
    generator.change_class_name(1, "Renamed".to_string());
    let after = generator.classes()[0].fields[0].field_type.get_type(generator.classes());
    assert_eq!(after, "Renamed");
    assert_eq!(generator.get_result(1), class("", "Renamed", "", ""));
}

#[test]
fn get_result_renders_one_class() {
    let mut generator = DartClassGenerator::new("Foo", NamingRule::Kebab);
    generator.parse_value(&object(vec![("$ref", text("x"))])).unwrap();
    assert_eq!(
        generator.get_result(0),
        class(
            "fieldRename: FieldRename.kebab",
            "Foo",
            "    @JsonKey(name: \"\\$ref\")\n    final String ref;",
            "        required this.ref,"
        )
    );
}

#[test]
fn malformed_text_is_refused() {
    let generator = DartClassGenerator::new("Foo", NamingRule::NoRule);
    let result = json_to_class("{\"a\": ", generator);
    assert!(matches!(result, Err(ClassError::MalformedInput(_))));
}

#[test]
fn number_beyond_both_kinds_is_refused() {
    let generator = DartClassGenerator::new("Foo", NamingRule::NoRule);
    let result = json_to_class(r#"{"a": 1, "n": 18446744073709551615}"#, generator);
    assert!(matches!(result, Err(ClassError::UnclassifiableNumber)));
    let mut generator = DartClassGenerator::new("Foo", NamingRule::NoRule);
    let value = object(vec![
        ("a", integer()),
        ("b", JsonValue::Array(vec![JsonValue::Number { is_i64: false, is_f64: false }])),
    ]);
    assert!(matches!(generator.parse_value(&value), Err(ClassError::UnclassifiableNumber)));
    assert!(generator.classes()[0].fields.is_empty());
}

#[test]
fn key_without_identifier_is_refused() {
    let generator = DartClassGenerator::new("Foo", NamingRule::NoRule);
    let result = json_to_class(r#"{"a": {"b": 1}, "123": "c"}"#, generator);
    assert!(matches!(result, Err(ClassError::EmptyLegalizedIdentifier)));
    let mut generator = DartClassGenerator::new("Foo", NamingRule::NoRule);
    let value = object(vec![("a", object(vec![("b", integer())])), ("$", text("c"))]);
    assert!(matches!(generator.parse_value(&value), Err(ClassError::EmptyLegalizedIdentifier)));
    assert_eq!(generator.classes().len(), 1);
    assert!(generator.classes()[0].fields.is_empty());
}

#[test]
fn first_defect_in_document_order_decides_the_error() {
    let mut generator = DartClassGenerator::new("Foo", NamingRule::NoRule);
    let unclassifiable = JsonValue::Number { is_i64: false, is_f64: false };
    let value = object(vec![("n", unclassifiable), ("1", text("c"))]);
    assert!(matches!(generator.parse_value(&value), Err(ClassError::UnclassifiableNumber)));
    let unclassifiable = JsonValue::Number { is_i64: false, is_f64: false };
    let value = object(vec![("1", text("c")), ("n", unclassifiable)]);
    assert!(matches!(generator.parse_value(&value), Err(ClassError::EmptyLegalizedIdentifier)));
}

#[test]
fn root_that_is_no_object_leaves_the_root_class_empty() {
    let generator = DartClassGenerator::new("Foo", NamingRule::NoRule);
    let result = json_to_class("[1, 2, 3]", generator).unwrap();
    assert_eq!(result, header("foo") + &class("", "Foo", "", "") + "\n");
    let generator = DartClassGenerator::new("Foo", NamingRule::NoRule);
    let result = json_to_class("\"text\"", generator).unwrap();
    assert_eq!(result, header("foo") + &class("", "Foo", "", "") + "\n");
}

fn read_with<G: ClassGenerator>(mut generator: G, value: &JsonValue) -> String {
    generator.parse_value(value).unwrap();
    generator.get_full_result()
}

#[test]
fn generator_used_through_its_trait() {
    let value = object(vec![("a", object(vec![("b", text("c"))]))]);
    let result = read_with(DartClassGenerator::new("Foo", NamingRule::NoRule), &value);
    let expected = header("foo")
        + &class("", "Foo", "    final A a;", "        required this.a,")
        + "\n\n"
        + &class("", "A", "    final String b;", "        required this.b,")
        + "\n";
    assert_eq!(result, expected);

    let mut generator = DartClassGenerator::new("Foo", NamingRule::NoRule);
    let ty = ClassGenerator::parse_array(&mut generator, &vec![text("x"), text("y")]).unwrap();
    assert_eq!(ty.get_type(generator.classes()), "List<String>");
    let ty = ClassGenerator::parse_object(&mut generator, &vec![("k".to_string(), integer())])
        .unwrap();
    assert!(matches!(ty, FieldType::Class(0)));
    assert_eq!(generator.classes()[0].fields.len(), 1);
}

#[test]
fn legal_identifiers_hold_alphanumeric_characters_only() {
    for key in ["$meta-data", "1a-b2$", "a b\tc", "\u{e9}t\u{e9}-2", "__x__"] {
        for case in [Case::Camel, Case::Pascal, Case::Snake, Case::Kebab] {
            assert!(to_legal_case(key, case).chars().all(|c| c.is_alphanumeric()));
        }
    }
}

#[test]
fn nested_class_with_the_name_of_the_root_is_numbered() {
    let generator = DartClassGenerator::new("Foo", NamingRule::NoRule);
    let result = json_to_class(r#"{"foo": {"x": 1}}"#, generator).unwrap();
    let expected = header("foo")
        + &class("", "Foo", "    final Foo1 foo;", "        required this.foo,")
        + "\n\n"
        + &class("", "Foo1", "    final int x;", "        required this.x,")
        + "\n";
    assert_eq!(result, expected);
}

#[test]
fn objects_in_nested_arrays_share_one_class() {
    let generator = DartClassGenerator::new("Foo", NamingRule::NoRule);
    let result =
        json_to_class(r#"{"rows": [[{"v": true}], [{"v": false}, {"v": true}]]}"#, generator)
            .unwrap();
    let expected = header("foo")
        + &class("", "Foo", "    final List<List<Rows>> rows;", "        required this.rows,")
        + "\n\n"
        + &class("", "Rows", "    final bool v;", "        required this.v,")
        + "\n";
    assert_eq!(result, expected);
}

#[test]
fn identical_objects_at_different_paths_give_one_class() {
    let mut generator = DartClassGenerator::new("Foo", NamingRule::NoRule);
    let inner = || object(vec![("b", text("c")), ("n", object(vec![("z", JsonValue::Null)]))]);
    let value = object(vec![
        ("a", inner()),
        ("d", object(vec![("a", inner())])),
        ("e", JsonValue::Array(vec![object(vec![("a", inner())])])),
    ]);
    generator.parse_value(&value).unwrap();
    let built: Vec<String> =
        generator.classes().iter().map(|c| c.class_name.clone()).collect();
    assert_eq!(built, vec!["Foo", "A", "N", "D", "A", "N", "E", "A", "N"]);
    let kept = generator.finalize();
    assert_eq!(kept, vec![0, 1, 2, 3, 6]);
    assert_eq!(names(&generator, &kept), vec!["Foo", "A", "N", "D", "E"]);
    let after: Vec<String> =
        generator.classes().iter().map(|c| c.class_name.clone()).collect();
    assert_eq!(after, built);
}

use reindeer::schema::{
    parse_id_tuple, policy_from_name, same_text, Attribute, Field, IdArgs, Literal, Meta, Nested,
    Problem, Token, TypeShape,
};
use reindeer::{DeletionBehaviour, EntityData, IdStructure, Relation, Relations};

const ID_PARSE_ERROR: &str = "Could not parse id parameter. id must be a string containing either a field name, or a tuple of field names.";

fn field(name: &str, ty: &str) -> Field {
    Field { name: name.to_string(), ty: ty.to_string() }
}

fn name_value(key: &str, value: Literal) -> Nested {
    Nested::Meta(Meta::NameValue(key.to_string(), value))
}

fn shape(ty: &syn::Type) -> TypeShape {
    match ty {
        syn::Type::Path(path) => {
            TypeShape::Path(path.path.segments.iter().map(|s| s.ident.to_string()).collect())
        }
        syn::Type::Tuple(tuple) => TypeShape::Tuple(tuple.elems.iter().map(shape).collect()),
        _ => TypeShape::Other,
    }
}

fn key_text(text: &str) -> IdArgs {
    if let Ok(ident) = syn::parse_str::<syn::Ident>(text) {
        IdArgs::Ident(ident.to_string())
    } else if let Ok(tuple) = syn::parse_str::<syn::TypeTuple>(text) {
        IdArgs::Tuple(tuple.elems.iter().map(shape).collect())
    } else {
        IdArgs::Neither
    }
}

fn text(value: &str) -> Literal {
    Literal::Str(value.to_string(), key_text(value))
}

fn entity(items: Vec<Nested>) -> Attribute {
    Attribute {
        path: String::from("entity"),
        meta: Some(Meta::List(String::from("entity"), items)),
        relations: None,
        id: IdArgs::Neither,
        failure: String::new(),
    }
}

fn related(path: &str, groups: Vec<Vec<Token>>) -> Attribute {
    Attribute {
        path: path.to_string(),
        meta: None,
        relations: Some(groups),
        id: IdArgs::Neither,
        failure: String::new(),
    }
}

fn pair(store: &str, policy: &str) -> Vec<Token> {
    vec![Token::Str(store.to_string()), Token::Ident(policy.to_string())]
}

fn messages(errors: &Vec<Problem>) -> Vec<(Option<usize>, String)> {
    errors.iter().map(|p| (p.attribute, p.message.clone())).collect()
}

fn simple(id: &IdStructure) -> &str {
    match id {
        IdStructure::Simple(name) => name,
        IdStructure::Tuple(_) => panic!("a tuple"),
    }
}

#[test]
fn policy_names_are_the_three() {
    assert_eq!(policy_from_name("Cascade"), Some(DeletionBehaviour::Cascade));
    assert_eq!(policy_from_name("BreakLink"), Some(DeletionBehaviour::BreakLink));
    assert_eq!(policy_from_name("Error"), Some(DeletionBehaviour::Error));
    assert_eq!(policy_from_name("cascade"), None);
    assert_eq!(policy_from_name(""), None);
    assert!(same_text("abc", "abc"));
    assert!(!same_text("abc", "abd"));
    assert!(!same_text("abc", "ab"));
}

#[test]
fn relation_is_a_store_name_and_a_policy() {
    let r = Relation::parse(&pair("child_entity_1", "Cascade")).unwrap();
    assert_eq!(r.0, "child_entity_1");
    assert_eq!(r.1, DeletionBehaviour::Cascade);
    let r = Relation::parse(&pair("x", "BreakLink")).unwrap();
    assert_eq!(r.1, DeletionBehaviour::BreakLink);
    assert_eq!(
        Relation::parse(&pair("x", "Delete")).unwrap_err(),
        "The second part of the relation must be either Cascade, BreakLink or Error"
    );
    assert_eq!(
        Relation::parse(&vec![Token::Ident(String::from("x")), Token::Ident(String::from("Error"))])
            .unwrap_err(),
        "The first part of the relation must be the store name as a string."
    );
    assert_eq!(
        Relation::parse(&vec![Token::Str(String::from("x")), Token::Other]).unwrap_err(),
        "The second part of the relation must be either Cascade, BreakLink or Error"
    );
    assert_eq!(
        Relation::parse(&vec![Token::Other, Token::Str(String::from("x"))]).unwrap_err(),
        "A relation must respect the syntax (\"store_name\",Cascade)"
    );
    assert_eq!(
        Relation::parse(&vec![Token::Str(String::from("x"))]).unwrap_err(),
        "A relation must respect the syntax (\"store_name\",Cascade)"
    );
    assert_eq!(
        Relation::parse(&vec![]).unwrap_err(),
        "A relation must respect the syntax (\"store_name\",Cascade)"
    );
}

#[test]
fn relations_need_one_and_stop_at_the_first_complaint() {
    let all = Relations::parse(&vec![pair("a", "Cascade"), pair("b", "Error")]).unwrap();
    assert_eq!(all.0.len(), 2);
    assert_eq!(all.0[0].0, "a");
    assert_eq!(all.0[1].0, "b");
    assert_eq!(all.0[1].1, DeletionBehaviour::Error);
    assert_eq!(
        Relations::parse(&vec![]).unwrap_err(),
        "A relation must respect the syntax (\"store_name\",Cascade)"
    );
    let bad = vec![
        pair("a", "Cascade"),
        vec![Token::Ident(String::from("b")), Token::Ident(String::from("Error"))],
        pair("c", "Nothing"),
    ];
    assert_eq!(
        Relations::parse(&bad).unwrap_err(),
        "The first part of the relation must be the store name as a string."
    );
}

#[test]
fn declaration_is_read_in_full() {
    let attrs = vec![
        Attribute {
            path: String::from("derive"),
            meta: None,
            relations: None,
            id: IdArgs::Neither,
            failure: String::from("never shown"),
        },
        entity(vec![
            name_value("name", text("entity_3")),
            name_value("version", Literal::Int(String::from("12"))),
            name_value("id", text("some_id")),
            name_value("crate", text("other")),
        ]),
        related("children", vec![pair("child_entity_2", "Error")]),
        related("siblings", vec![pair("entity_1", "Error"), pair("entity_9", "BreakLink")]),
    ];
    let fields = vec![field("some_id", "u32"), field("id", "String")];
    let mut errors = Vec::new();
    let data = EntityData::parse(&attrs, Some(&fields), &mut errors);
    assert_eq!(messages(&errors), vec![]);
    assert_eq!(data.crate_name, "other");
    assert_eq!(data.name.as_deref(), Some("entity_3"));
    assert_eq!(data.version, Some(12));
    assert_eq!(simple(data.id.as_ref().unwrap()), "some_id");
    assert_eq!(data.id_type.as_deref(), Some("u32"));
    assert_eq!(data.children.0.len(), 1);
    assert_eq!(data.children.0[0].0, "child_entity_2");
    assert_eq!(data.siblings.0.len(), 2);
    assert_eq!(data.siblings.0[1].1, DeletionBehaviour::BreakLink);
    assert_eq!(data.fields.len(), 2);
    assert_eq!(data.fields[1].name, "id");
}

#[test]
fn field_named_id_is_the_key_by_default() {
    let fields = vec![field("prop", "String"), field("id", "(u32, u32)"), field("id", "u8")];
    let mut errors = Vec::new();
    let data = EntityData::parse(&vec![], Some(&fields), &mut errors);
    assert_eq!(messages(&errors), vec![]);
    assert_eq!(data.crate_name, "reindeer");
    assert_eq!(data.name, None);
    assert_eq!(data.version, None);
    assert_eq!(simple(data.id.as_ref().unwrap()), "id");
    assert_eq!(data.id_type.as_deref(), Some("(u32, u32)"));
}

#[test]
fn missing_key_and_missing_fields_are_complained_about() {
    let mut errors = Vec::new();
    let data = EntityData::parse(&vec![], Some(&vec![field("prop", "String")]), &mut errors);
    assert!(data.id.is_none());
    assert_eq!(
        messages(&errors),
        vec![(
            None,
            String::from("Missing ID specification. Use either a field called  `id`, the `id` macro meta, or the `entity_id` attribute.")
        )]
    );
    let mut errors = Vec::new();
    let data = EntityData::parse(&vec![entity(vec![name_value("id", text("key"))])], None, &mut errors);
    assert_eq!(simple(data.id.as_ref().unwrap()), "key");
    assert_eq!(data.id_type, None);
    assert_eq!(
        messages(&errors),
        vec![
            (None, String::from("Reindeer only supports deriving Entity on named structs.")),
            (None, String::from("Cannot find referenced field 'key'")),
        ]
    );
}

#[test]
fn options_of_the_wrong_kind_are_complained_about() {
    let attrs = vec![
        entity(vec![
            name_value("name", Literal::Int(String::from("1"))),
            name_value("version", text("1")),
            name_value("version", Literal::Int(String::from("4294967296"))),
            name_value("version", Literal::Int(String::from("4294967295"))),
            name_value("id", Literal::Other),
            name_value("id", text("not an identifier")),
            name_value("id", text("a.b")),
            name_value("crate", Literal::Int(String::from("1"))),
            name_value("colour", text("red")),
            Nested::Meta(Meta::Path(String::from("flag"))),
            Nested::Lit(text("loose")),
            Nested::Meta(Meta::List(String::from("inner"), vec![name_value("name", text("deep"))])),
        ]),
        Attribute {
            path: String::from("entity"),
            meta: None,
            relations: None,
            id: IdArgs::Neither,
            failure: String::from("expected parentheses"),
        },
        related("children", vec![pair("x", "Nope")]),
        Attribute {
            path: String::from("siblings"),
            meta: None,
            relations: None,
            id: IdArgs::Neither,
            failure: String::from("expected a group"),
        },
    ];
    let mut errors = Vec::new();
    let data = EntityData::parse(&attrs, Some(&vec![field("id", "u32")]), &mut errors);
    assert_eq!(data.name.as_deref(), Some("deep"));
    assert_eq!(data.version, Some(u32::MAX));
    assert_eq!(simple(data.id.as_ref().unwrap()), "id");
    assert_eq!(data.crate_name, "reindeer");
    assert_eq!(data.children.0.len(), 0);
    assert_eq!(data.siblings.0.len(), 0);
    let expected: Vec<(Option<usize>, String)> = vec![
        (Some(0), "Store name must be a string."),
        (Some(0), "Store name must be a string."),
        (Some(0), "Store version must be a positive integer."),
        (Some(0), "Store name must be a string."),
        (Some(0), ID_PARSE_ERROR),
        (Some(0), ID_PARSE_ERROR),
        (Some(0), "Crate name must be a string."),
        (Some(0), "Unknown parameter"),
        (Some(0), "Unrecognized argument 1"),
        (Some(0), "Unrecognized argument 2"),
        (Some(1), "expected parentheses"),
        (Some(2), "The second part of the relation must be either Cascade, BreakLink or Error"),
        (Some(3), "expected a group"),
    ]
    .into_iter()
    .map(|(at, m)| (at, m.to_string()))
    .collect();
    assert_eq!(messages(&errors), expected);
}

#[test]
fn id_text_is_a_field_name_or_a_tuple_of_them() {
    for (given, expected) in [
        ("id", Some("id")),
        ("some_id", Some("some_id")),
        ("_x1", Some("_x1")),
        (" spaced ", Some("spaced")),
        ("r#type", Some("r#type")),
        ("two words", None),
        ("1abc", None),
        ("", None),
        ("a.b", None),
        ("fn", None),
    ] {
        let mut data = EntityData::new();
        let mut errors = Vec::new();
        data.parse_id_attr(&key_text(given), Some(3), &mut errors);
        match expected {
            Some(name) => {
                assert_eq!(simple(data.id.as_ref().unwrap()), name);
                assert!(errors.is_empty());
            }
            None => {
                assert!(data.id.is_none());
                assert_eq!(messages(&errors), vec![(Some(3), ID_PARSE_ERROR.to_string())]);
            }
        }
    }
}

#[test]
fn id_option_takes_a_tuple_of_field_names() {
    let attrs = vec![entity(vec![name_value("id", text("(parent, (n, m))"))])];
    let fields = vec![field("parent", "String"), field("n", "u32"), field("m", "u32")];
    let mut errors = Vec::new();
    let data = EntityData::parse(&attrs, Some(&fields), &mut errors);
    assert_eq!(messages(&errors), Vec::new());
    match data.id.as_ref().unwrap() {
        IdStructure::Tuple(parts) => {
            assert_eq!(parts.len(), 2);
            assert_eq!(simple(&parts[0]), "parent");
            match &parts[1] {
                IdStructure::Tuple(inner) => {
                    assert_eq!(inner.len(), 2);
                    assert_eq!(simple(&inner[0]), "n");
                    assert_eq!(simple(&inner[1]), "m");
                }
                IdStructure::Simple(_) => panic!("a name"),
            }
        }
        IdStructure::Simple(_) => panic!("a name"),
    }
    let attrs = vec![entity(vec![name_value("id", text("(a, b)"))])];
    let mut errors = Vec::new();
    let data = EntityData::parse(&attrs, Some(&vec![field("a", "u32")]), &mut errors);
    assert!(matches!(data.id, Some(IdStructure::Tuple(_))));
    assert_eq!(messages(&errors), vec![(None, String::from("Cannot find referenced field 'b'"))]);
    let mut data = EntityData::new();
    let mut errors = Vec::new();
    data.parse_id_attr(&key_text("()"), Some(0), &mut errors);
    assert!(matches!(data.id, Some(IdStructure::Tuple(_))));
    assert_eq!(messages(&errors), vec![(Some(0), ID_PARSE_ERROR.to_string())]);
}

#[test]
fn found_id_and_version_are_taken_down() {
    let mut data = EntityData::new();
    let mut errors = Vec::new();
    data.note_id(Some(String::from("k")), None, &mut errors);
    data.note_version(Some(3), None, &mut errors);
    assert_eq!(simple(data.id.as_ref().unwrap()), "k");
    assert_eq!(data.version, Some(3));
    assert!(errors.is_empty());
    data.note_id(None, Some(1), &mut errors);
    data.note_version(None, Some(2), &mut errors);
    assert_eq!(simple(data.id.as_ref().unwrap()), "k");
    assert_eq!(data.version, Some(3));
    assert_eq!(
        messages(&errors),
        vec![
            (Some(1), ID_PARSE_ERROR.to_string()),
            (Some(2), String::from("Store version must be a positive integer.")),
        ]
    );
}

#[test]
fn key_of_several_fields_is_a_tuple() {
    let path = |segments: &[&str]| TypeShape::Path(segments.iter().map(|s| s.to_string()).collect());
    let elements = vec![
        path(&["a"]),
        TypeShape::Tuple(vec![path(&["b"]), path(&["c"])]),
        path(&["std", "u32"]),
        TypeShape::Other,
        TypeShape::Tuple(vec![]),
    ];
    let mut errors = Vec::new();
    let id = parse_id_tuple(&elements, Some(1), &mut errors);
    match &id {
        IdStructure::Tuple(parts) => {
            assert_eq!(parts.len(), 3);
            assert_eq!(simple(&parts[0]), "a");
            match &parts[1] {
                IdStructure::Tuple(inner) => {
                    assert_eq!(simple(&inner[0]), "b");
                    assert_eq!(simple(&inner[1]), "c");
                }
                IdStructure::Simple(_) => panic!("not a tuple"),
            }
            match &parts[2] {
                IdStructure::Tuple(inner) => assert!(inner.is_empty()),
                IdStructure::Simple(_) => panic!("not a tuple"),
            }
        }
        IdStructure::Simple(_) => panic!("not a tuple"),
    }
    assert_eq!(
        messages(&errors),
        vec![
            (Some(1), String::from("Elements must be field names, or tuples of field names.")),
            (Some(1), String::from("Elements must be field names, or tuples of field names.")),
            (Some(1), ID_PARSE_ERROR.to_string()),
        ]
    );
    let mut errors = Vec::new();
    parse_id_tuple(&vec![], None, &mut errors);
    assert_eq!(messages(&errors), vec![(None, ID_PARSE_ERROR.to_string())]);
}

#[test]
fn tuple_key_must_name_fields() {
    let path = |name: &str| TypeShape::Path(vec![name.to_string()]);
    let attrs = vec![Attribute {
        path: String::from("entity_id"),
        meta: None,
        relations: None,
        id: IdArgs::Tuple(vec![path("parent"), path("nowhere"), path("n")]),
        failure: String::new(),
    }];
    let fields = vec![field("parent", "String"), field("n", "u32")];
    let mut errors = Vec::new();
    let data = EntityData::parse(&attrs, Some(&fields), &mut errors);
    assert!(matches!(data.id, Some(IdStructure::Tuple(_))));
    assert_eq!(data.id_type, None);
    assert_eq!(messages(&errors), vec![(None, String::from("Cannot find referenced field 'nowhere'"))]);
    let attrs = vec![
        Attribute {
            path: String::from("entity_id"),
            meta: None,
            relations: None,
            id: IdArgs::Ident(String::from("n")),
            failure: String::new(),
        },
        Attribute {
            path: String::from("entity_id"),
            meta: None,
            relations: None,
            id: IdArgs::Neither,
            failure: String::new(),
        },
    ];
    let mut errors = Vec::new();
    let data = EntityData::parse(&attrs, Some(&fields), &mut errors);
    assert_eq!(simple(data.id.as_ref().unwrap()), "n");
    assert_eq!(data.id_type.as_deref(), Some("u32"));
    assert_eq!(messages(&errors), vec![(Some(1), ID_PARSE_ERROR.to_string())]);
}

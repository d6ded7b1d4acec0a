use graphql_visitor::ast::Definition;
use graphql_visitor::ast::Directive;
use graphql_visitor::ast::Document;
use graphql_visitor::ast::Field;
use graphql_visitor::ast::FragmentDefinition;
use graphql_visitor::ast::FragmentSpread;
use graphql_visitor::ast::InlineFragment;
use graphql_visitor::ast::OperationDefinition;
use graphql_visitor::ast::Selection;
use graphql_visitor::ast::SelectionSet;
use graphql_visitor::visitor::DocumentFieldIter;
use graphql_visitor::visitor::FieldIter;
use graphql_visitor::visitor::SetDirectiveIter;

fn field(name: &str, directives: Vec<Directive>, children: Vec<Selection>) -> Field {
    Field {
        name: name.to_string(),
        directives,
        selection_set: SelectionSet { items: children },
    }
}

fn directive(name: &str, arg: &str, value: &str) -> Directive {
    Directive {
        name: name.to_string(),
        arguments: vec![(arg.to_string(), value.to_string())],
    }
}

/// The tree of `query TestQuery { users { id country { id } } }`.
fn test_query(id_dirs: Vec<Directive>, country_dirs: Vec<Directive>) -> Document {
    Document {
        definitions: vec![Definition::Operation(OperationDefinition {
            name: Some("TestQuery".to_string()),
            selection_set: SelectionSet {
                items: vec![Selection::Field(field(
                    "users",
                    vec![],
                    vec![
                        Selection::Field(field("id", id_dirs, vec![])),
                        Selection::Field(field(
                            "country",
                            country_dirs,
                            vec![Selection::Field(field("id", vec![], vec![]))],
                        )),
                    ],
                ))],
            },
        })],
    }
}

#[test]
fn test_field_iter() {
    let doc = test_query(vec![], vec![]);
    let mut it = DocumentFieldIter::new(&doc);
    let mut fields = 0;
    let mut field_names = Vec::new();
    while let Some(f) = it.next() {
        fields += 1;
        field_names.push(f.name.clone());
    }
    assert_eq!(fields, 4);
    assert_eq!(
        field_names,
        vec![
            "users".to_string(),
            "id".to_string(),
            "country".to_string(),
            "id".to_string()
        ]
    );
}

#[test]
fn test_dir_iter() {
    let doc = test_query(
        vec![directive("skip", "if", "false")],
        vec![directive("include", "if", "true")],
    );
    let def = match &doc.definitions[0] {
        Definition::Operation(op) => &op.selection_set,
        _ => unreachable!(),
    };
    let mut it = SetDirectiveIter::new(def);
    let mut directives = 0;
    while it.next().is_some() {
        directives += 1;
    }
    assert_eq!(directives, 2);
}

#[test]
fn test_dir_iter_order() {
    let doc = test_query(
        vec![directive("skip", "if", "false")],
        vec![directive("include", "if", "true")],
    );
    let def = match &doc.definitions[0] {
        Definition::Operation(op) => &op.selection_set,
        _ => unreachable!(),
    };
    let names: Vec<String> = SetDirectiveIter::new(def)
        .into_vec()
        .iter()
        .map(|d| d.name.clone())
        .collect();
    assert_eq!(names, vec!["skip".to_string(), "include".to_string()]);
}

#[test]
fn test_field_iter_over_set() {
    let set = SelectionSet {
        items: vec![Selection::Field(field(
            "users",
            vec![],
            vec![
                Selection::Field(field("id", vec![], vec![])),
                Selection::Field(field(
                    "country",
                    vec![],
                    vec![Selection::Field(field("id", vec![], vec![]))],
                )),
            ],
        ))],
    };
    let names: Vec<String> = FieldIter::new(&set)
        .into_vec()
        .iter()
        .map(|f| f.name.clone())
        .collect();
    assert_eq!(
        names,
        vec![
            "users".to_string(),
            "id".to_string(),
            "country".to_string(),
            "id".to_string()
        ]
    );
}

#[test]
fn test_inline_fragment_contributes_children_only() {
    let set = SelectionSet {
        items: vec![
            Selection::Field(field("a", vec![], vec![])),
            Selection::InlineFragment(InlineFragment {
                directives: vec![],
                selection_set: SelectionSet {
                    items: vec![
                        Selection::Field(field("b", vec![], vec![])),
                        Selection::Field(field("c", vec![], vec![])),
                    ],
                },
            }),
            Selection::Field(field("d", vec![], vec![])),
        ],
    };
    let names: Vec<String> = FieldIter::new(&set)
        .into_vec()
        .iter()
        .map(|f| f.name.clone())
        .collect();
    assert_eq!(
        names,
        vec![
            "a".to_string(),
            "b".to_string(),
            "c".to_string(),
            "d".to_string()
        ]
    );
}

#[test]
fn test_fragment_spread_yields_no_fields_but_its_directives() {
    let set = SelectionSet {
        items: vec![Selection::FragmentSpread(FragmentSpread {
            fragment_name: "userFields".to_string(),
            directives: vec![
                directive("skip", "if", "false"),
                directive("include", "if", "true"),
            ],
        })],
    };
    let mut fields = FieldIter::new(&set);
    assert!(fields.next().is_none());
    let names: Vec<String> = SetDirectiveIter::new(&set)
        .into_vec()
        .iter()
        .map(|d| d.name.clone())
        .collect();
    assert_eq!(names, vec!["skip".to_string(), "include".to_string()]);
}

#[test]
fn test_undecorated_spread_yields_nothing() {
    let set = SelectionSet {
        items: vec![Selection::FragmentSpread(FragmentSpread {
            fragment_name: "userFields".to_string(),
            directives: vec![],
        })],
    };
    assert!(FieldIter::new(&set).next().is_none());
    assert!(SetDirectiveIter::new(&set).next().is_none());
}

#[test]
fn test_empty_selection_set() {
    let set = SelectionSet { items: vec![] };
    let mut fields = FieldIter::new(&set);
    assert!(fields.next().is_none());
    assert!(fields.next().is_none());
    let mut dirs = SetDirectiveIter::new(&set);
    assert!(dirs.next().is_none());
    assert!(dirs.next().is_none());
}

#[test]
fn test_empty_document() {
    let doc = Document { definitions: vec![] };
    let mut it = DocumentFieldIter::new(&doc);
    assert!(it.next().is_none());
    assert!(it.next().is_none());
}

#[test]
fn test_restartable_engines() {
    let doc = test_query(
        vec![directive("skip", "if", "false")],
        vec![directive("include", "if", "true")],
    );
    let def = match &doc.definitions[0] {
        Definition::Operation(op) => &op.selection_set,
        _ => unreachable!(),
    };
    let first: Vec<String> = FieldIter::new(def)
        .into_vec()
        .iter()
        .map(|f| f.name.clone())
        .collect();
    let second: Vec<String> = FieldIter::new(def)
        .into_vec()
        .iter()
        .map(|f| f.name.clone())
        .collect();
    assert_eq!(first, second);
    let dirs_first: Vec<String> = SetDirectiveIter::new(def)
        .into_vec()
        .iter()
        .map(|d| d.name.clone())
        .collect();
    let dirs_second: Vec<String> = SetDirectiveIter::new(def)
        .into_vec()
        .iter()
        .map(|d| d.name.clone())
        .collect();
    assert_eq!(dirs_first, dirs_second);
}

#[test]
fn test_document_fields_concatenate_definitions() {
    let first = SelectionSet {
        items: vec![Selection::Field(field(
            "users",
            vec![],
            vec![Selection::Field(field("id", vec![], vec![]))],
        ))],
    };
    let second = SelectionSet {
        items: vec![Selection::Field(field("name", vec![], vec![]))],
    };
    let doc = Document {
        definitions: vec![
            Definition::Operation(OperationDefinition {
                name: None,
                selection_set: first,
            }),
            Definition::Fragment(FragmentDefinition {
                name: "userFields".to_string(),
                selection_set: second,
            }),
        ],
    };
    let whole: Vec<String> = DocumentFieldIter::new(&doc)
        .into_vec()
        .iter()
        .map(|f| f.name.clone())
        .collect();
    let mut parts: Vec<String> = Vec::new();
    for def in &doc.definitions {
        let set = match def {
            Definition::Operation(op) => &op.selection_set,
            Definition::Fragment(fr) => &fr.selection_set,
        };
        for f in FieldIter::new(set).into_vec() {
            parts.push(f.name.clone());
        }
    }
    assert_eq!(whole, parts);
    assert_eq!(
        whole,
        vec!["users".to_string(), "id".to_string(), "name".to_string()]
    );
}

#[test]
fn test_directives_contiguous_before_descendants() {
    let set = SelectionSet {
        items: vec![Selection::Field(Field {
            name: "users".to_string(),
            directives: vec![
                directive("skip", "if", "false"),
                directive("cached", "ttl", "60"),
            ],
            selection_set: SelectionSet {
                items: vec![Selection::Field(field(
                    "id",
                    vec![directive("include", "if", "true")],
                    vec![],
                ))],
            },
        })],
    };
    let names: Vec<String> = SetDirectiveIter::new(&set)
        .into_vec()
        .iter()
        .map(|d| d.name.clone())
        .collect();
    assert_eq!(
        names,
        vec![
            "skip".to_string(),
            "cached".to_string(),
            "include".to_string()
        ]
    );
}

#[test]
fn test_directives_of_inline_fragment_and_spread_between_siblings() {
    let set = SelectionSet {
        items: vec![
            Selection::Field(field(
                "a",
                vec![directive("first", "x", "1")],
                vec![],
            )),
            Selection::FragmentSpread(FragmentSpread {
                fragment_name: "rest".to_string(),
                directives: vec![directive("second", "x", "2")],
            }),
            Selection::InlineFragment(InlineFragment {
                directives: vec![directive("third", "x", "3")],
                selection_set: SelectionSet {
                    items: vec![Selection::Field(field(
                        "b",
                        vec![directive("fourth", "x", "4")],
                        vec![],
                    ))],
                },
            }),
        ],
    };
    let names: Vec<String> = SetDirectiveIter::new(&set)
        .into_vec()
        .iter()
        .map(|d| d.name.clone())
        .collect();
    assert_eq!(
        names,
        vec![
            "first".to_string(),
            "second".to_string(),
            "third".to_string(),
            "fourth".to_string()
        ]
    );
}

#[test]
fn test_deep_preorder() {
    let set = SelectionSet {
        items: vec![
            Selection::Field(field(
                "a",
                vec![],
                vec![Selection::Field(field(
                    "b",
                    vec![],
                    vec![Selection::Field(field("c", vec![], vec![]))],
                ))],
            )),
            Selection::Field(field("d", vec![], vec![])),
        ],
    };
    let names: Vec<String> = FieldIter::new(&set)
        .into_vec()
        .iter()
        .map(|f| f.name.clone())
        .collect();
    assert_eq!(
        names,
        vec![
            "a".to_string(),
            "b".to_string(),
            "c".to_string(),
            "d".to_string()
        ]
    );
}

#[test]
fn test_into_vec_agrees_with_stepping() {
    let doc = test_query(vec![], vec![directive("include", "if", "true")]);
    let collected: Vec<String> = DocumentFieldIter::new(&doc)
        .into_vec()
        .iter()
        .map(|f| f.name.clone())
        .collect();
    let mut stepped: Vec<String> = Vec::new();
    let mut it = DocumentFieldIter::new(&doc);
    while let Some(f) = it.next() {
        stepped.push(f.name.clone());
    }
    assert_eq!(collected, stepped);
}

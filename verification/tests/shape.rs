use casserole::shape::{
    attr_input, attr_term_of, decimal_string, field_attrs_fault, first_term, kind_of,
    plan_derive, plan_outcome, read_field_attrs, type_attrs_fault, AttrError, AttrInput, AttrToken,
    DataInput, Delim, DeriveError, FieldInput, FieldsInput, FieldsKind, GenericInput, TypeInput,
    VariantInput,
};

fn ident(name: &str) -> AttrToken {
    AttrToken::Ident(name.to_string())
}

fn parens(tokens: Vec<AttrToken>) -> AttrToken {
    AttrToken::Group(Delim::Parenthesis, tokens)
}

fn literal(text: &str, inner: Option<Vec<AttrToken>>) -> AttrToken {
    AttrToken::Literal(text.to_string(), inner)
}

fn casserole_attr(tokens: Vec<AttrToken>) -> AttrInput {
    AttrInput { last_segment: Some("casserole".to_string()), tokens, text: "(..)".to_string() }
}

fn other_attr(name: &str, tokens: Vec<AttrToken>) -> AttrInput {
    AttrInput { last_segment: Some(name.to_string()), tokens, text: "(..)".to_string() }
}

fn field(name: Option<&str>, attrs: Vec<AttrInput>) -> FieldInput {
    FieldInput { ident: name.map(|n| n.to_string()), attrs }
}

fn store_attr() -> AttrInput {
    casserole_attr(vec![parens(vec![ident("store")])])
}

#[test]
fn decimal_strings() {
    assert_eq!(decimal_string(0), "0");
    assert_eq!(decimal_string(7), "7");
    assert_eq!(decimal_string(10), "10");
    assert_eq!(decimal_string(1203), "1203");
}

#[test]
fn fields_kinds() {
    assert!(matches!(kind_of(true, 0), FieldsKind::Unit));
    assert!(matches!(kind_of(false, 0), FieldsKind::Unit));
    assert!(matches!(kind_of(true, 2), FieldsKind::Named));
    assert!(matches!(kind_of(false, 1), FieldsKind::Unnamed));
}

#[test]
fn the_term_opens_the_group_or_the_literal_inside_it() {
    assert_eq!(first_term(&vec![ident("store"), AttrToken::Punct(',')]), Some("store".to_string()));
    // a literal opens with what opens the group it holds
    assert_eq!(first_term(&vec![literal("\"store\"", Some(vec![ident("store")]))]), Some("store".to_string()));
    let nested = literal("\"\\\"store\\\"\"", Some(vec![literal("\"store\"", Some(vec![ident("store")]))]));
    assert_eq!(first_term(&vec![nested]), Some("store".to_string()));
    assert_eq!(first_term(&vec![literal("1", None)]), None);
    assert_eq!(first_term(&vec![literal("\"\"", Some(vec![]))]), None);
    assert_eq!(first_term(&vec![AttrToken::Punct('=')]), None);
    assert_eq!(first_term(&vec![]), None);
}

fn names(tokens: &[AttrToken]) -> Vec<String> {
    tokens
        .iter()
        .map(|t| match t {
            AttrToken::Ident(n) => n.clone(),
            AttrToken::Literal(l, _) => l.clone(),
            AttrToken::Punct(c) => c.to_string(),
            AttrToken::Group(..) => "group".to_string(),
        })
        .collect()
}

#[test]
fn the_term_and_the_tokens_after_it() {
    let (term, rest) = attr_term_of(vec![ident("store"), AttrToken::Punct(','), ident("x")]);
    assert_eq!(term, "store");
    assert_eq!(names(&rest), vec![",".to_string(), "x".to_string()]);
    let inner = vec![ident("store"), AttrToken::Punct('='), literal("1", None)];
    let (term, rest) = attr_term_of(vec![literal("\"store = 1\"", Some(inner)), ident("ignored")]);
    assert_eq!(term, "store");
    assert_eq!(names(&rest), vec!["=".to_string(), "1".to_string()]);
}

#[test]
fn attributes_keep_their_tokens() {
    let a = attr_input(Some("casserole".to_string()), vec![parens(vec![ident("store")])], "(store)".to_string());
    assert_eq!(a.text, "(store)");
    assert_eq!(a.tokens.len(), 1);
    assert!(field_attrs_fault(&vec![a]).is_none());
    let a = attr_input(Some("casserole".to_string()), vec![parens(vec![ident("store")])], "(store)".to_string());
    assert!(read_field_attrs(&vec![a]));
    // a literal is lexed inside its quotes
    let raw = vec![parens(vec![literal("\"store\"", None)])];
    let a = attr_input(Some("casserole".to_string()), raw, "(\"store\")".to_string());
    match &a.tokens[0] {
        AttrToken::Group(Delim::Parenthesis, inner) => match &inner[0] {
            AttrToken::Literal(text, Some(lexed)) => {
                assert_eq!(text, "\"store\"");
                assert_eq!(names(lexed), vec!["store".to_string()]);
            }
            _ => panic!("expected a lexed literal"),
        },
        _ => panic!("expected a group"),
    }
    assert!(read_field_attrs(&vec![a]));
    // a literal whose text does not lex to a group gives no term
    let raw = vec![parens(vec![literal("\"\\\"store\\\"\"", None)])];
    let a = attr_input(Some("casserole".to_string()), raw, "..".to_string());
    assert!(matches!(field_attrs_fault(&vec![a]), Some(AttrError::ExpectedValue(_))));
}

#[test]
fn field_attributes_ask_for_the_store() {
    assert!(!read_field_attrs(&vec![]));
    assert!(read_field_attrs(&vec![store_attr()]));
    // attributes of other derives are passed over
    let serde = other_attr("serde", vec![parens(vec![ident("rename")])]);
    assert!(!read_field_attrs(&vec![serde]));
    // the term may stand in a string literal
    let quoted = casserole_attr(vec![parens(vec![literal("\"store\"", Some(vec![ident("store")]))])]);
    assert!(field_attrs_fault(&vec![quoted]).is_none());
    let quoted = casserole_attr(vec![parens(vec![literal("\"store\"", Some(vec![ident("store")]))])]);
    assert!(read_field_attrs(&vec![quoted]));
    // a literal or punctuation outside a group is passed over
    let eq = casserole_attr(vec![AttrToken::Punct('='), literal("\"x\"", None)]);
    assert!(!read_field_attrs(&vec![eq]));
}

#[test]
fn field_attributes_refused() {
    let unknown = AttrInput {
        last_segment: Some("casserole".to_string()),
        tokens: vec![parens(vec![ident("skip")])],
        text: "(skip)".to_string(),
    };
    match field_attrs_fault(&vec![store_attr(), unknown]) {
        Some(AttrError::InvalidTerm(t, text)) => {
            assert_eq!(t, "skip");
            assert_eq!(text, "(skip)");
        }
        _ => panic!("expected an invalid term"),
    }
    let bare = casserole_attr(vec![ident("store")]);
    assert!(matches!(field_attrs_fault(&vec![bare]), Some(AttrError::ExpectedParens(_))));
    let brackets = casserole_attr(vec![AttrToken::Group(Delim::Bracket, vec![ident("store")])]);
    assert!(matches!(field_attrs_fault(&vec![brackets]), Some(AttrError::ExpectedParens(_))));
    let empty = casserole_attr(vec![parens(vec![])]);
    assert!(matches!(field_attrs_fault(&vec![empty]), Some(AttrError::ExpectedValue(_))));
    let punct_led = casserole_attr(vec![parens(vec![AttrToken::Punct('='), ident("store")])]);
    assert!(matches!(field_attrs_fault(&vec![punct_led]), Some(AttrError::ExpectedValue(_))));
}

#[test]
fn type_attributes_know_no_term() {
    assert!(type_attrs_fault(&vec![]).is_none());
    assert!(type_attrs_fault(&vec![other_attr("derive", vec![parens(vec![ident("Debug")])])]).is_none());
    let eq = casserole_attr(vec![AttrToken::Punct('='), literal("\"x\"", None)]);
    assert!(type_attrs_fault(&vec![eq]).is_none());
    match type_attrs_fault(&vec![store_attr()]) {
        Some(AttrError::InvalidTerm(t, _)) => assert_eq!(t, "store"),
        _ => panic!("expected an invalid term"),
    }
}

#[test]
fn plan_of_a_struct_with_named_fields() {
    let t = TypeInput {
        ident: "Test".to_string(),
        generics: vec![],
        attrs: vec![],
        data: DataInput::Struct(FieldsInput::Named(vec![
            field(Some("x"), vec![]),
            field(Some("complex"), vec![store_attr()]),
        ])),
    };
    assert!(plan_outcome(&t).is_ok());
    let plan = plan_derive(&t);
    assert_eq!(plan.folded_ident, "Test_Casserole");
    assert!(!plan.is_enum);
    assert_eq!(plan.variants.len(), 1);
    let body = &plan.variants[0];
    assert!(body.ident.is_none());
    assert!(body.named);
    assert!(matches!(body.kind, FieldsKind::Named));
    assert_eq!(body.fields.len(), 2);
    assert_eq!(body.fields[0].binding, "x");
    assert!(!body.fields[0].stored);
    assert_eq!(body.fields[1].binding, "complex");
    assert_eq!(body.fields[1].position, 1);
    assert!(body.fields[1].stored);
}

#[test]
fn plan_of_an_enum() {
    let t = TypeInput {
        ident: "Shape".to_string(),
        generics: vec![],
        attrs: vec![],
        data: DataInput::Enum(vec![
            VariantInput { ident: "Empty".to_string(), fields: FieldsInput::Unit },
            VariantInput {
                ident: "Pair".to_string(),
                fields: FieldsInput::Unnamed(vec![field(None, vec![]), field(None, vec![store_attr()])]),
            },
            VariantInput { ident: "Braced".to_string(), fields: FieldsInput::Named(vec![]) },
        ]),
    };
    assert!(plan_outcome(&t).is_ok());
    let plan = plan_derive(&t);
    assert_eq!(plan.folded_ident, "Shape_Casserole");
    assert!(plan.is_enum);
    assert_eq!(plan.variants.len(), 3);
    assert_eq!(plan.variants[0].ident.as_deref(), Some("Empty"));
    assert!(matches!(plan.variants[0].kind, FieldsKind::Unit));
    let pair = &plan.variants[1];
    assert!(matches!(pair.kind, FieldsKind::Unnamed));
    assert_eq!(pair.fields[0].binding, "f0");
    assert_eq!(pair.fields[1].binding, "f1");
    assert!(!pair.fields[0].stored);
    assert!(pair.fields[1].stored);
    // named but without fields: rebuilt by its name alone
    assert!(plan.variants[2].named);
    assert!(matches!(plan.variants[2].kind, FieldsKind::Unit));
}

#[test]
fn positional_bindings_past_nine() {
    let fields = (0..12).map(|_| field(None, vec![])).collect();
    let t = TypeInput {
        ident: "Wide".to_string(),
        generics: vec![],
        attrs: vec![],
        data: DataInput::Struct(FieldsInput::Unnamed(fields)),
    };
    assert!(plan_outcome(&t).is_ok());
    let plan = plan_derive(&t);
    assert_eq!(plan.variants[0].fields[11].binding, "f11");
    assert_eq!(plan.variants[0].fields[11].position, 11);
    let mut bindings: Vec<&String> = plan.variants[0].fields.iter().map(|f| &f.binding).collect();
    bindings.sort();
    bindings.dedup();
    assert_eq!(bindings.len(), 12);
}

#[test]
fn plan_refusals() {
    let union = TypeInput { ident: "U".to_string(), generics: vec![], attrs: vec![], data: DataInput::Union };
    assert!(matches!(plan_outcome(&union), Err(DeriveError::Union)));

    // the type's attributes are read before anything else
    let union_with_attr = TypeInput { ident: "U".to_string(), generics: vec![], attrs: vec![store_attr()], data: DataInput::Union };
    match plan_outcome(&union_with_attr) {
        Err(DeriveError::Attr(AttrError::InvalidTerm(t, _))) => assert_eq!(t, "store"),
        _ => panic!("expected the type's attribute to be refused"),
    }

    // the first refused field, in order, decides
    let t = TypeInput {
        ident: "E".to_string(),
        generics: vec![],
        attrs: vec![],
        data: DataInput::Enum(vec![
            VariantInput { ident: "A".to_string(), fields: FieldsInput::Unnamed(vec![field(None, vec![store_attr()])]) },
            VariantInput {
                ident: "B".to_string(),
                fields: FieldsInput::Named(vec![
                    field(Some("a"), vec![casserole_attr(vec![parens(vec![ident("first")])])]),
                    field(Some("b"), vec![casserole_attr(vec![parens(vec![ident("second")])])]),
                ]),
            },
        ]),
    };
    match plan_outcome(&t) {
        Err(DeriveError::Attr(AttrError::InvalidTerm(term, _))) => assert_eq!(term, "first"),
        _ => panic!("expected the first refused field"),
    }
}

#[test]
fn only_type_parameters_are_bounded() {
    let t = TypeInput {
        ident: "Pair".to_string(),
        generics: vec![
            GenericInput::Lifetime("a".to_string()),
            GenericInput::Type("A".to_string()),
            GenericInput::Const("N".to_string()),
            GenericInput::Type("B".to_string()),
        ],
        attrs: vec![],
        data: DataInput::Struct(FieldsInput::Unnamed(vec![field(None, vec![]), field(None, vec![])])),
    };
    let plan = plan_derive(&t);
    assert_eq!(plan.bounded, vec!["A".to_string(), "B".to_string()]);
    assert_eq!(plan.folded_ident, "Pair_Casserole");
}

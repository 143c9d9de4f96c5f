use gettext_pot::pot::{POTMessageID, HEADER, POT};
use gettext_pot::visitor::{
    extract_string_from_expr, format_reference, recognize, recognize_call, recognize_tagged,
    shown_path, CallShape, GettextVisitor, Node, PathDiff, Property, Site,
};

fn ident(name: &str) -> Node {
    Node::Ident(name.to_string())
}

fn text(value: &str) -> Node {
    Node::Str(value.to_string())
}

fn site(line: usize, comments: &[&str]) -> Site {
    Site {
        line,
        comments: comments.iter().map(|c| c.to_string()).collect(),
    }
}

fn call_at(name: &str, args: Vec<Node>, line: usize, comments: &[&str]) -> Node {
    Node::Call {
        callee: Box::new(ident(name)),
        args,
        site: site(line, comments),
    }
}

fn call(name: &str, args: Vec<Node>) -> Node {
    call_at(name, args, 1, &[])
}

fn visitor(path: &str) -> GettextVisitor {
    GettextVisitor {
        path: Some(path.to_string()),
    }
}

fn extracted(node: &Node) -> POT {
    let mut pot = POT::new(Some("default".to_string()));
    visitor("test.js").visit(&mut pot, node);
    pot
}

#[test]
fn every_name_of_the_table_has_its_shape() {
    let table = [
        ("__", "gettext", false, false, false),
        ("__n", "ngettext", false, false, true),
        ("__p", "pgettext", false, true, false),
        ("__np", "npgettext", false, true, true),
        ("__d", "dgettext", true, false, false),
        ("__dn", "dngettext", true, false, true),
        ("__dp", "dpgettext", true, true, false),
        ("__dnp", "dnpgettext", true, true, true),
    ];
    for (short, long, domain, context, plural) in table {
        let shape = CallShape {
            domain,
            context,
            plural,
        };
        assert_eq!(recognize(short), Some(shape));
        assert_eq!(recognize(long), Some(shape));
        assert_eq!(
            shape.arg_count(),
            1 + domain as usize + context as usize + plural as usize
        );
    }
    for name in ["", "_", "___", "__x", "t", "Gettext", "gettext_", "__pn", "__nd"] {
        assert_eq!(recognize(name), None, "{:?}", name);
    }
}

#[test]
fn the_arguments_are_taken_in_the_order_domain_context_message_plural() {
    let args = vec![text("d"), text("c"), text("one"), text("many"), ident("n")];
    let found = recognize_call(&ident("__dnp"), &args).unwrap();
    assert_eq!(found.domain, Some("d".to_string()));
    assert_eq!(
        found.message,
        POTMessageID {
            msgctx: Some("c".to_string()),
            msgid: "one".to_string(),
            msgid_plural: Some("many".to_string()),
        }
    );
    let found = recognize_call(&ident("dpgettext"), &args).unwrap();
    assert_eq!(found.domain, Some("d".to_string()));
    assert_eq!(
        found.message,
        POTMessageID {
            msgctx: Some("c".to_string()),
            msgid: "one".to_string(),
            msgid_plural: None,
        }
    );
    let found = recognize_call(&ident("__dn"), &args).unwrap();
    assert_eq!(found.domain, Some("d".to_string()));
    assert_eq!(
        found.message,
        POTMessageID {
            msgctx: None,
            msgid: "c".to_string(),
            msgid_plural: Some("one".to_string()),
        }
    );
    let found = recognize_call(&ident("__np"), &args).unwrap();
    assert_eq!(found.domain, None);
    assert_eq!(
        found.message,
        POTMessageID {
            msgctx: Some("d".to_string()),
            msgid: "c".to_string(),
            msgid_plural: Some("one".to_string()),
        }
    );
}

#[test]
fn a_call_with_too_few_arguments_states_nothing() {
    assert!(recognize_call(&ident("__"), &vec![]).is_none());
    assert!(recognize_call(&ident("__n"), &vec![text("one")]).is_none());
    assert!(recognize_call(&ident("__dnp"), &vec![text("d"), text("c"), text("one")]).is_none());
    assert!(recognize_call(&ident("__n"), &vec![text("one"), text("many")]).is_some());
}

#[test]
fn a_static_string_is_a_literal_or_a_template_without_expressions() {
    assert_eq!(
        extract_string_from_expr(&text("Hello")),
        Some("Hello".to_string())
    );
    assert_eq!(
        extract_string_from_expr(&Node::Template {
            quasis: vec![Some("Hello".to_string())],
            exprs: vec![],
        }),
        Some("Hello".to_string())
    );
    assert_eq!(
        extract_string_from_expr(&Node::Template {
            quasis: vec![None],
            exprs: vec![],
        }),
        None
    );
    assert_eq!(
        extract_string_from_expr(&Node::Template {
            quasis: vec![Some("a".to_string()), Some("b".to_string())],
            exprs: vec![ident("x")],
        }),
        None
    );
    assert_eq!(extract_string_from_expr(&ident("x")), None);
    assert_eq!(extract_string_from_expr(&call("__", vec![text("x")])), None);
    assert_eq!(extract_string_from_expr(&Node::Other(vec![text("x")])), None);
}

#[test]
fn a_dynamic_argument_states_nothing() {
    let pot = extracted(&call("__", vec![ident("x")]));
    assert!(pot.domain_names().is_empty());
    let pot = extracted(&call("__n", vec![text("one"), ident("many")]));
    assert!(pot.domain_names().is_empty());
    let pot = extracted(&call(
        "__",
        vec![Node::Template {
            quasis: vec![Some("a ".to_string()), Some("".to_string())],
            exprs: vec![ident("x")],
        }],
    ));
    assert!(pot.domain_names().is_empty());
}

#[test]
fn a_computed_member_states_nothing() {
    let computed = Node::Call {
        callee: Box::new(Node::Member {
            object: Box::new(ident("obj")),
            property: Property::Computed(Box::new(ident("__"))),
        }),
        args: vec![text("text")],
        site: site(1, &[]),
    };
    assert!(extracted(&computed).domain_names().is_empty());
    let by_string = Node::Call {
        callee: Box::new(Node::Member {
            object: Box::new(ident("obj")),
            property: Property::Computed(Box::new(text("__"))),
        }),
        args: vec![text("text")],
        site: site(1, &[]),
    };
    assert!(extracted(&by_string).domain_names().is_empty());
    let named = Node::Call {
        callee: Box::new(Node::Member {
            object: Box::new(ident("obj")),
            property: Property::Name("__".to_string()),
        }),
        args: vec![text("text")],
        site: site(1, &[]),
    };
    assert_eq!(
        extracted(&named).to_string(None).unwrap(),
        format!("{}\n#: test.js:1\nmsgid \"text\"\nmsgstr \"\"\n", HEADER)
    );
}

#[test]
fn an_unknown_name_states_nothing() {
    assert!(extracted(&call("translate", vec![text("x")]))
        .domain_names()
        .is_empty());
}

#[test]
fn a_singular_call_gives_a_message_with_its_reference() {
    let pot = extracted(&call("__", vec![text("Hello, world!")]));
    assert_eq!(
        pot.to_string(None).unwrap(),
        format!(
            "{}\n#: test.js:1\nmsgid \"Hello, world!\"\nmsgstr \"\"\n",
            HEADER
        )
    );
}

#[test]
fn a_plural_call_gives_both_forms_and_two_translations() {
    let pot = extracted(&call("__n", vec![text("%d person"), text("%d people")]));
    assert_eq!(
        pot.to_string(None).unwrap(),
        format!(
            "{}\n#: test.js:1\nmsgid \"%d person\"\nmsgid_plural \"%d people\"\nmsgstr[0] \"\"\nmsgstr[1] \"\"\n",
            HEADER
        )
    );
}

#[test]
fn messages_of_one_context_stand_in_the_order_of_their_keys() {
    let pot = extracted(&Node::Other(vec![
        call_at("__p", vec![text("menu"), text("File")], 1, &[]),
        call_at(
            "__np",
            vec![text("menu"), text("%d file"), text("%d files")],
            2,
            &[],
        ),
    ]));
    assert_eq!(
        pot.to_string(None).unwrap(),
        format!(
            "{}\n#: test.js:2\nmsgctxt \"menu\"\nmsgid \"%d file\"\nmsgid_plural \"%d files\"\nmsgstr[0] \"\"\nmsgstr[1] \"\"\n\n#: test.js:1\nmsgctxt \"menu\"\nmsgid \"File\"\nmsgstr \"\"\n",
            HEADER
        )
    );
}

#[test]
fn a_domain_call_goes_to_its_domain_only() {
    let pot = extracted(&call("__d", vec![text("other"), text("Domain string")]));
    assert_eq!(pot.domain_names(), vec!["other"]);
    assert_eq!(pot.to_string(Some("default")), None);
    assert_eq!(
        pot.to_string(Some("other")).unwrap(),
        format!(
            "{}\n#: test.js:1\nmsgid \"Domain string\"\nmsgstr \"\"\n",
            HEADER
        )
    );
}

#[test]
fn a_comment_at_a_call_is_extracted_with_its_reference() {
    let pot = extracted(&call_at("__", vec![text("Test message")], 4, &[" note "]));
    assert_eq!(
        pot.to_string(None).unwrap(),
        format!(
            "{}\n#. note\n#: test.js:4\nmsgid \"Test message\"\nmsgstr \"\"\n",
            HEADER
        )
    );
}

#[test]
fn the_same_call_at_two_places_merges_references_and_comments() {
    let pot = extracted(&Node::Other(vec![
        call_at("__", vec![text("Save")], 12, &["button", " shared "]),
        call_at("gettext", vec![text("Save")], 3, &["shared", "menu entry"]),
        call_at("__", vec![text("Save")], 12, &[]),
    ]));
    assert_eq!(pot.domain("default").unwrap().len(), 1);
    assert_eq!(
        pot.to_string(None).unwrap(),
        format!(
            "{}\n#. button\n#. menu entry\n#. shared\n#: test.js:12\n#: test.js:3\nmsgid \"Save\"\nmsgstr \"\"\n",
            HEADER
        )
    );
}

#[test]
fn calls_are_found_wherever_they_stand() {
    let inner = call_at("__", vec![text("inner")], 2, &[]);
    let outer = Node::Call {
        callee: Box::new(ident("wrap")),
        args: vec![Node::Container(Box::new(inner))],
        site: site(1, &[]),
    };
    let tree = Node::Other(vec![
        Node::Decorator(Box::new(Node::Call {
            callee: Box::new(ident("Component")),
            args: vec![Node::Other(vec![call_at(
                "__",
                vec![text("My Component")],
                3,
                &[],
            )])],
            site: site(2, &[]),
        })),
        outer,
        Node::Member {
            object: Box::new(call_at("__", vec![text("object")], 5, &[])),
            property: Property::Computed(Box::new(call_at("__", vec![text("property")], 6, &[]))),
        },
        Node::Template {
            quasis: vec![Some("a".to_string()), Some("b".to_string())],
            exprs: vec![call_at("__", vec![text("in template")], 7, &[])],
        },
        call_at(
            "__",
            vec![text("outer"), call_at("__", vec![text("argument")], 8, &[])],
            8,
            &[],
        ),
        Node::TaggedTemplate {
            tag: Box::new(ident("html")),
            quasis: vec![Some("a".to_string()), Some("b".to_string())],
            exprs: vec![call_at("__", vec![text("in tagged")], 9, &[])],
            site: site(9, &[]),
        },
    ]);
    let pot = extracted(&tree);
    let text = pot.to_string(None).unwrap();
    for message in [
        "inner",
        "My Component",
        "object",
        "property",
        "in template",
        "outer",
        "argument",
        "in tagged",
    ] {
        assert!(text.contains(&format!("msgid \"{}\"\n", message)), "{}", message);
    }
    assert_eq!(pot.domain("default").unwrap().len(), 8);
    assert!(text.contains("#: test.js:3\nmsgid \"My Component\""));
}

#[test]
fn a_tagged_template_states_a_message_under_the_tag_of_two_underscores() {
    let tagged = |tag: Node, quasis: Vec<Option<String>>, exprs: Vec<Node>| Node::TaggedTemplate {
        tag: Box::new(tag),
        quasis,
        exprs,
        site: site(1, &[]),
    };
    let pot = extracted(&tagged(ident("__"), vec![Some("Hello".to_string())], vec![]));
    assert_eq!(
        pot.to_string(None).unwrap(),
        format!("{}\n#: test.js:1\nmsgid \"Hello\"\nmsgstr \"\"\n", HEADER)
    );
    let with_expression = tagged(
        ident("__"),
        vec![Some("Hello ".to_string()), Some("".to_string())],
        vec![ident("name")],
    );
    assert!(extracted(&with_expression).domain_names().is_empty());
    let other_tag = tagged(ident("gettext"), vec![Some("Hello".to_string())], vec![]);
    assert!(extracted(&other_tag).domain_names().is_empty());
    let invalid = tagged(ident("__"), vec![None], vec![]);
    assert!(extracted(&invalid).domain_names().is_empty());
    let member = tagged(
        Node::Member {
            object: Box::new(ident("i18n")),
            property: Property::Name("__".to_string()),
        },
        vec![Some("Hello".to_string())],
        vec![],
    );
    assert!(extracted(&member).domain_names().is_empty());
    assert!(recognize_tagged(&ident("__"), &vec![Some("x".to_string())], &vec![]).is_some());
}

#[test]
fn a_reference_is_the_path_a_colon_and_the_line() {
    let path = Some("src/app.ts".to_string());
    assert_eq!(
        format_reference(&path, 1),
        Some("src/app.ts:1".to_string())
    );
    assert_eq!(
        format_reference(&path, 10),
        Some("src/app.ts:10".to_string())
    );
    assert_eq!(
        format_reference(&path, 0),
        Some("src/app.ts:0".to_string())
    );
    assert_eq!(
        format_reference(&path, 246912631),
        Some("src/app.ts:246912631".to_string())
    );
    assert_eq!(
        format_reference(&path, usize::MAX),
        Some(format!("src/app.ts:{}", usize::MAX))
    );
    assert_eq!(format_reference(&None, 7), None);
}

#[test]
fn a_file_whose_path_cannot_be_shown_gets_no_reference() {
    let mut pot = POT::new(None);
    let blind = GettextVisitor { path: None };
    blind.visit(
        &mut pot,
        &call_at("__", vec![text("Hello")], 3, &["note"]),
    );
    assert_eq!(
        pot.to_string(None).unwrap(),
        format!("{}\n#. note\nmsgid \"Hello\"\nmsgstr \"\"\n", HEADER)
    );
}

#[test]
fn the_path_of_a_reference_is_relative_to_the_base_directory() {
    assert_eq!(
        GettextVisitor::new("/srv/app/src/a.js", "/srv/app").path,
        Some("src/a.js".to_string())
    );
    assert_eq!(
        GettextVisitor::new("/srv/app/src/a.js", "/srv/app/out").path,
        Some("../src/a.js".to_string())
    );
    assert_eq!(
        GettextVisitor::new("test.js", ".").path,
        Some("test.js".to_string())
    );
    assert_eq!(
        GettextVisitor::new("src/a.js", "/srv/app").path,
        Some("src/a.js".to_string())
    );
    assert_eq!(
        GettextVisitor::new("/srv/a.js", "out").path,
        Some("/srv/a.js".to_string())
    );
    assert_eq!(
        shown_path("src/a.js", PathDiff::Relative("../a.js".to_string())),
        Some("../a.js".to_string())
    );
    assert_eq!(
        shown_path("src/a.js", PathDiff::Unrelated),
        Some("src/a.js".to_string())
    );
    assert_eq!(shown_path("src/a.js", PathDiff::Unreadable), None);
}

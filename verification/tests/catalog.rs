use gettext_pot::pot::{compare_keys, POTFile, POTMessageID, POTMessageMeta, HEADER, POT};
use std::cmp::Ordering;

fn singular(msgid: &str) -> POTMessageID {
    POTMessageID {
        msgid: msgid.to_string(),
        ..Default::default()
    }
}

fn id(msgctx: Option<&str>, msgid: &str, msgid_plural: Option<&str>) -> POTMessageID {
    POTMessageID {
        msgctx: msgctx.map(str::to_string),
        msgid: msgid.to_string(),
        msgid_plural: msgid_plural.map(str::to_string),
    }
}

#[test]
fn a_domain_without_messages_is_its_header() {
    assert_eq!(POTFile::new().convert_to_string(), HEADER);
    assert_eq!(
        HEADER,
        "msgid \"\"\nmsgstr \"\"\n\"Content-Type: text/plain; charset=utf-8\\n\"\n\"Plural-Forms: nplurals=2; plural=(n != 1);\\n\"\n"
    );
    assert_eq!(POTFile::new().len(), 0);
}

#[test]
fn a_catalog_without_messages_has_no_domain() {
    let pot = POT::new(None);
    assert_eq!(pot.default_domain(), "default");
    assert_eq!(pot.to_string(None), None);
    assert_eq!(pot.to_string(Some("default")), None);
    assert!(pot.domain_names().is_empty());
    assert!(pot.domain("default").is_none());
    let named = POT::new(Some("test".to_string()));
    assert_eq!(named.default_domain(), "test");
}

#[test]
fn a_message_goes_to_its_domain_only() {
    let mut pot = POT::new(Some("default".to_string()));
    pot.add_message(Some("other".to_string()), singular("Domain string"))
        .references
        .insert("a.js:1".to_string());
    assert_eq!(pot.domain_names(), vec!["other"]);
    assert_eq!(pot.to_string(None), None);
    assert_eq!(pot.to_string(Some("default")), None);
    assert_eq!(
        pot.to_string(Some("other")).unwrap(),
        format!("{}\n#: a.js:1\nmsgid \"Domain string\"\nmsgstr \"\"\n", HEADER)
    );
    pot.add_message(None, singular("Plain"));
    assert_eq!(pot.domain_names(), vec!["default", "other"]);
    assert_eq!(
        pot.to_string(None).unwrap(),
        format!("{}\nmsgid \"Plain\"\nmsgstr \"\"\n", HEADER)
    );
    assert_eq!(pot.to_string(None), pot.to_string(Some("default")));
    assert_eq!(pot.domain("other").unwrap().len(), 1);
}

#[test]
fn domains_are_named_in_ascending_order() {
    let mut pot = POT::new(None);
    for name in ["zeta", "alpha", "zeta", "Beta", "alpha2"] {
        pot.add_message(Some(name.to_string()), singular("x"));
    }
    assert_eq!(pot.domain_names(), vec!["Beta", "alpha", "alpha2", "zeta"]);
}

#[test]
fn the_same_message_from_two_places_is_one_message() {
    let mut pot = POT::new(None);
    let first = pot.add_message(None, id(Some("menu"), "File", None));
    first.references.insert("src/a.js:3".to_string());
    first.extracted_comments.insert("first".to_string());
    let second = pot.add_message(None, id(Some("menu"), "File", None));
    assert!(second.references.contains("src/a.js:3"));
    second.references.insert("src/b.js:7".to_string());
    second.extracted_comments.insert("second".to_string());
    second.extracted_comments.insert("first".to_string());
    let file = pot.domain("default").unwrap();
    assert_eq!(file.len(), 1);
    let meta = file.get(&id(Some("menu"), "File", None)).unwrap();
    assert_eq!(meta.references.items(), &vec!["src/a.js:3", "src/b.js:7"]);
    assert_eq!(meta.extracted_comments.items(), &vec!["first", "second"]);
    assert!(file.get(&id(None, "File", None)).is_none());
    assert!(file.get(&id(Some("menu"), "File", Some("Files"))).is_none());
}

#[test]
fn a_context_that_is_absent_is_no_empty_context() {
    let mut pot = POT::new(None);
    pot.add_message(None, id(None, "File", None));
    pot.add_message(None, id(Some(""), "File", None));
    pot.add_message(None, id(None, "File", Some("")));
    assert_eq!(pot.domain("default").unwrap().len(), 3);
    assert_ne!(id(None, "File", None), id(Some(""), "File", None));
    assert_ne!(id(None, "File", None), id(None, "File", Some("")));
}

#[test]
fn the_order_of_insertion_does_not_show_in_the_template() {
    let ids = [
        id(Some("menu"), "File", None),
        id(None, "Zebra", None),
        id(Some("menu"), "%d file", Some("%d files")),
        id(None, "apple", None),
        id(None, "Apple", Some("Apples")),
        id(None, "Apple", None),
        id(Some("a"), "zz", None),
    ];
    let mut forward = POT::new(None);
    for (n, id) in ids.iter().enumerate() {
        let meta = forward.add_message(None, id.clone());
        meta.references.insert(format!("f.js:{}", n));
        meta.references.insert("g.js:1".to_string());
    }
    let mut backward = POT::new(None);
    for (n, id) in ids.iter().enumerate().rev() {
        let meta = backward.add_message(None, id.clone());
        meta.references.insert("g.js:1".to_string());
        meta.references.insert(format!("f.js:{}", n));
    }
    let text = forward.to_string(None).unwrap();
    assert_eq!(text, backward.to_string(None).unwrap());
    assert_eq!(text, forward.to_string(None).unwrap());
    let found: Vec<&str> = text
        .lines()
        .filter(|line| line.starts_with("msgid ") || line.starts_with("msgctxt "))
        .skip(1)
        .collect();
    assert_eq!(
        found,
        vec![
            "msgid \"Apple\"",
            "msgid \"Apple\"",
            "msgid \"Zebra\"",
            "msgid \"apple\"",
            "msgctxt \"a\"",
            "msgid \"zz\"",
            "msgctxt \"menu\"",
            "msgid \"%d file\"",
            "msgctxt \"menu\"",
            "msgid \"File\"",
        ]
    );
}

#[test]
fn keys_are_compared_by_context_then_singular_then_plural() {
    let cases = [
        (id(None, "b", None), id(Some(""), "a", None), Ordering::Less),
        (id(Some("a"), "z", None), id(Some("b"), "a", None), Ordering::Less),
        (id(None, "a", Some("z")), id(None, "b", None), Ordering::Less),
        (id(None, "a", None), id(None, "a", Some("")), Ordering::Less),
        (id(None, "a", Some("x")), id(None, "a", Some("y")), Ordering::Less),
        (id(None, "a", Some("x")), id(None, "a", Some("x")), Ordering::Equal),
        (id(Some("c"), "a", None), id(None, "a", None), Ordering::Greater),
    ];
    for (a, b, expected) in cases {
        assert_eq!(compare_keys(&a, &b), expected);
        assert_eq!(compare_keys(&b, &a), expected.reverse());
        assert_eq!(a.before(&b), expected == Ordering::Less);
        assert_eq!(a.partial_cmp(&b), Some(expected));
        assert_eq!(a.cmp(&b), expected);
        assert_eq!(a < b, expected == Ordering::Less);
        assert_eq!(a == b, expected == Ordering::Equal);
    }
}

#[test]
fn the_metadata_of_a_message_stands_before_it_kind_by_kind() {
    let mut meta = POTMessageMeta::new();
    assert_eq!(meta.convert_to_string(), "");
    meta.flags.insert("javascript-format".to_string());
    meta.references.insert("src/b.js:2".to_string());
    meta.references.insert("src/a.js:1".to_string());
    meta.extracted_comments.insert("for the menu".to_string());
    meta.translator_comments.insert("keep it short".to_string());
    assert_eq!(
        meta.convert_to_string(),
        "#  keep it short\n#. for the menu\n#: src/a.js:1\n#: src/b.js:2\n#, javascript-format\n"
    );
}

#[test]
fn a_message_is_stated_with_its_context_and_its_plural() {
    assert_eq!(
        singular("Hello, world!").convert_to_string(),
        "msgid \"Hello, world!\"\nmsgstr \"\""
    );
    assert_eq!(
        id(Some("menu"), "%d file", Some("%d files")).convert_to_string(),
        "msgctxt \"menu\"\nmsgid \"%d file\"\nmsgid_plural \"%d files\"\nmsgstr[0] \"\"\nmsgstr[1] \"\""
    );
    assert_eq!(
        id(None, "one", Some("many")).convert_to_string(),
        "msgid \"one\"\nmsgid_plural \"many\"\nmsgstr[0] \"\"\nmsgstr[1] \"\""
    );
    let copy = id(Some("menu"), "File", None).clone();
    assert_eq!(copy, id(Some("menu"), "File", None));
}

#[test]
fn a_context_stays_on_its_one_line_however_long_it_is() {
    let context = "c".repeat(71);
    assert_eq!(
        id(Some(&context), "x", None).convert_to_string(),
        format!("msgctxt \"{}\"\nmsgid \"x\"\nmsgstr \"\"", context)
    );
    let words = "menu entry ".repeat(20);
    assert_eq!(
        id(Some(&words), "x", Some("y")).convert_to_string(),
        format!(
            "msgctxt \"{}\"\nmsgid \"x\"\nmsgid_plural \"y\"\nmsgstr[0] \"\"\nmsgstr[1] \"\"",
            words
        )
    );
    assert_eq!(
        id(Some("say \"hi\"\r\nnow"), "x", None).convert_to_string(),
        "msgctxt \"say \\\"hi\\\" now\"\nmsgid \"x\"\nmsgstr \"\""
    );
    let long = "x".repeat(73);
    assert_eq!(
        id(Some("menu"), &long, Some(&long)).convert_to_string(),
        format!(
            "msgctxt \"menu\"\nmsgid \"\"\n\"{}\"\nmsgid_plural \"\"\n\"{}\"\nmsgstr[0] \"\"\nmsgstr[1] \"\"",
            long, long
        )
    );
}

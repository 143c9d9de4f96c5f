use gettext_pot::pot::POT;
use gettext_pot::visitor::{GettextVisitor, Node, Property, Site};
use swc_common::comments::{Comments, SingleThreadedComments};
use swc_common::sync::Lrc;
use swc_common::{FileName, SourceMap, Span};
use swc_ecma_ast::{CallExpr, Callee, Expr, Lit, MemberProp, TaggedTpl, Tpl};
use swc_ecma_parser::{lexer::Lexer, Parser, StringInput, Syntax, TsSyntax};
use swc_ecma_visit::{Visit, VisitWith};

struct Walk<'a> {
    pot: &'a mut POT,
    visitor: GettextVisitor,
    cm: Lrc<SourceMap>,
    comments: &'a dyn Comments,
}

fn nothing() -> Node {
    Node::Other(Vec::new())
}

fn quasis_of(tpl: &Tpl) -> Vec<Option<String>> {
    tpl.quasis
        .iter()
        .map(|q| {
            q.cooked
                .as_ref()
                .map(|text| text.to_string_lossy().into_owned())
        })
        .collect()
}

fn node_of(expr: &Expr) -> Node {
    match expr {
        Expr::Ident(ident) => Node::Ident(ident.sym.to_string()),
        Expr::Lit(Lit::Str(text)) => Node::Str(text.value.to_string_lossy().into_owned()),
        Expr::Tpl(tpl) => Node::Template {
            quasis: quasis_of(tpl),
            exprs: tpl.exprs.iter().map(|_| nothing()).collect(),
        },
        Expr::Member(member) => Node::Member {
            object: Box::new(nothing()),
            property: match &member.prop {
                MemberProp::Ident(name) => Property::Name(name.sym.to_string()),
                _ => Property::Computed(Box::new(nothing())),
            },
        },
        _ => nothing(),
    }
}

impl Walk<'_> {
    fn site(&self, span: Span) -> Site {
        let mut comments = Vec::new();
        for found in [
            self.comments.get_leading(span.lo),
            self.comments.get_trailing(span.hi),
        ] {
            for comment in found.unwrap_or_default() {
                comments.push(comment.text.to_string());
            }
        }
        Site {
            line: self.cm.lookup_char_pos(span.lo).line,
            comments,
        }
    }
}

impl Visit for Walk<'_> {
    fn visit_call_expr(&mut self, call: &CallExpr) {
        call.visit_children_with(self);
        if let Callee::Expr(callee) = &call.callee {
            let args: Vec<Node> = call.args.iter().map(|arg| node_of(&arg.expr)).collect();
            let site = self.site(call.span);
            self.visitor
                .visit_call_expr(self.pot, &node_of(callee), &args, &site);
        }
    }

    fn visit_tagged_tpl(&mut self, tagged: &TaggedTpl) {
        tagged.visit_children_with(self);
        let exprs: Vec<Node> = tagged.tpl.exprs.iter().map(|_| nothing()).collect();
        let site = self.site(tagged.span);
        self.visitor.visit_tagged_tpl(
            self.pot,
            &node_of(&tagged.tag),
            &quasis_of(&tagged.tpl),
            &exprs,
            &site,
        );
    }
}

fn parse(filename: &str, source: &str, pot: &mut POT) {
    let cm: Lrc<SourceMap> = Default::default();
    let comments: SingleThreadedComments = Default::default();
    let fm = cm.new_source_file(
        FileName::Custom(filename.into()).into(),
        source.to_string(),
    );
    let lexer = Lexer::new(
        Syntax::Typescript(TsSyntax {
            tsx: true,
            decorators: true,
            dts: false,
            no_early_errors: true,
            disallow_ambiguous_jsx_like: false,
        }),
        Default::default(),
        StringInput::from(&*fm),
        Some(&comments),
    );
    let mut parser = Parser::new_from(lexer);
    let module = parser.parse_module().unwrap();
    let file = fm.name.to_string();
    let mut walk = Walk {
        pot,
        visitor: GettextVisitor::new(&file, "."),
        cm: Lrc::clone(&cm),
        comments: &comments,
    };
    module.visit_with(&mut walk);
}

#[test]
fn detects_singular_message_with_no_context() {
    let mut pot = POT::new(None);
    parse("test.js", r#"__("Hello, world!");"#, &mut pot);
    assert_eq!(
        pot.to_string(None).unwrap(),
        r#"msgid ""
msgstr ""
"Content-Type: text/plain; charset=utf-8\n"
"Plural-Forms: nplurals=2; plural=(n != 1);\n"

#: test.js:1
msgid "Hello, world!"
msgstr ""
"#
    );
}

#[test]
fn detects_object_method_calls() {
    let mut pot = POT::new(None);
    parse(
        "test.js",
        r#"
i18n.__("Hello, world!");
object.i18n.__n('Singular', 'Plural', 3);
context.i18n[__]("Something else");
"#,
        &mut pot,
    );
    assert_eq!(
        pot.to_string(None).unwrap(),
        r#"msgid ""
msgstr ""
"Content-Type: text/plain; charset=utf-8\n"
"Plural-Forms: nplurals=2; plural=(n != 1);\n"

#: test.js:2
msgid "Hello, world!"
msgstr ""

#: test.js:3
msgid "Singular"
msgid_plural "Plural"
msgstr[0] ""
msgstr[1] ""
"#
    );
}

#[test]
fn detects_plural_message_with_no_context() {
    let mut pot = POT::new(None);
    parse("test.js", r#"__n("1 file", "%d files");"#, &mut pot);
    assert_eq!(
        pot.to_string(None).unwrap(),
        r#"msgid ""
msgstr ""
"Content-Type: text/plain; charset=utf-8\n"
"Plural-Forms: nplurals=2; plural=(n != 1);\n"

#: test.js:1
msgid "1 file"
msgid_plural "%d files"
msgstr[0] ""
msgstr[1] ""
"#
    );
}

#[test]
fn detects_singular_message_with_context() {
    let mut pot = POT::new(None);
    parse(
        "test.js",
        r#"__p("menu", "Hello, world!");"#,
        &mut pot,
    );
    assert_eq!(
        pot.to_string(None).unwrap(),
        r#"msgid ""
msgstr ""
"Content-Type: text/plain; charset=utf-8\n"
"Plural-Forms: nplurals=2; plural=(n != 1);\n"

#: test.js:1
msgctxt "menu"
msgid "Hello, world!"
msgstr ""
"#
    );
}

#[test]
fn detects_plural_message_with_context() {
    let mut pot = POT::new(None);
    parse(
        "test.js",
        r#"__np("menu", "1 file", "%d files");"#,
        &mut pot,
    );
    assert_eq!(
        pot.to_string(None).unwrap(),
        r#"msgid ""
msgstr ""
"Content-Type: text/plain; charset=utf-8\n"
"Plural-Forms: nplurals=2; plural=(n != 1);\n"

#: test.js:1
msgctxt "menu"
msgid "1 file"
msgid_plural "%d files"
msgstr[0] ""
msgstr[1] ""
"#
    );
}

#[test]
fn detects_message_with_comment() {
    let mut pot = POT::new(None);
    parse(
        "test.js",
        r#"/* Test comment */ __("Test message");"#,
        &mut pot,
    );
    assert_eq!(
        pot.to_string(None).unwrap(),
        r#"msgid ""
msgstr ""
"Content-Type: text/plain; charset=utf-8\n"
"Plural-Forms: nplurals=2; plural=(n != 1);\n"

#. Test comment
#: test.js:1
msgid "Test message"
msgstr ""
"#
    );
}

// Comments seem to behave differently in tsx, so this is a regression test
#[test]
fn detects_message_with_comment_in_jsx() {
    let mut pot = POT::new(None);
    parse(
        "file.tsx",
        r#"
<App>{
/* Test comment */ __n("1 object", "%d objects", 3)
}</App>;"#,
        &mut pot,
    );
    assert_eq!(
        pot.to_string(None).unwrap(),
        r#"msgid ""
msgstr ""
"Content-Type: text/plain; charset=utf-8\n"
"Plural-Forms: nplurals=2; plural=(n != 1);\n"

#. Test comment
#: file.tsx:3
msgid "1 object"
msgid_plural "%d objects"
msgstr[0] ""
msgstr[1] ""
"#
    );
}

#[test]
fn detects_tagged_template_literal() {
    let mut pot = POT::new(None);
    parse("tpl.js", r#"__("Hello, world!");"#, &mut pot);
    assert_eq!(
        pot.to_string(None).unwrap(),
        r#"msgid ""
msgstr ""
"Content-Type: text/plain; charset=utf-8\n"
"Plural-Forms: nplurals=2; plural=(n != 1);\n"

#: tpl.js:1
msgid "Hello, world!"
msgstr ""
"#
    );
}

#[test]
fn detects_decorator_with_gettext() {
    let mut pot = POT::new(None);
    parse(
        "decorator.ts",
        r#"
@Component({
title: __("My Component")
})
class MyComponent {}

@Get(__("API endpoint"))
class MyController {}
"#,
        &mut pot,
    );
    let output = pot.to_string(None).unwrap();
    // Check that both strings are present in the output
    assert!(output.contains("msgid \"My Component\""));
    assert!(output.contains("msgid \"API endpoint\""));
    assert!(output.contains("#: decorator.ts:3"));
    assert!(output.contains("#: decorator.ts:7"));
}

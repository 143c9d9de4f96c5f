//! Recognition of translation calls in a syntax tree and their recording in
//! the catalog.

use crate::chars::{append_str, chars_of, is_text, opt_text, string_of, texts_of};
use crate::pot::{Catalog, MessageKey, Metadata, POTMessageID, POTMessageMeta, POT};
use crate::wrap::{trim, trim_text};
use vstd::prelude::*;

verus! {

/// The arguments that a translation call takes before and after its message:
/// a call takes, in this order, a domain (if `domain`), a context (if
/// `context`), the message, and its plural form (if `plural`).
#[derive(Debug, Clone, Copy, PartialEq, Eq, Structural)]
pub struct CallShape {
    pub domain: bool,
    pub context: bool,
    pub plural: bool,
}

impl CallShape {
    /// The number of arguments that a call of this shape needs.
    pub open spec fn arity(self) -> nat {
        (1 + (if self.domain {
            1nat
        } else {
            0nat
        }) + (if self.context {
            1nat
        } else {
            0nat
        }) + (if self.plural {
            1nat
        } else {
            0nat
        })) as nat
    }

    /// The number of arguments that a call of this shape needs.
    pub fn arg_count(&self) -> (n: usize)
        ensures
            n == self.arity(),
            1 <= n <= 4,
    {
        let mut n: usize = 1;
        if self.domain {
            n = n + 1;
        }
        if self.context {
            n = n + 1;
        }
        if self.plural {
            n = n + 1;
        }
        n
    }
}

/// The table of translation functions: what a call of the function or method
/// called `name` takes, or `None` where `name` is no translation function.
pub open spec fn call_shape(name: Seq<char>) -> Option<CallShape> {
    if name == "__"@ || name == "gettext"@ {
        Some(CallShape { domain: false, context: false, plural: false })
    } else if name == "__n"@ || name == "ngettext"@ {
        Some(CallShape { domain: false, context: false, plural: true })
    } else if name == "__p"@ || name == "pgettext"@ {
        Some(CallShape { domain: false, context: true, plural: false })
    } else if name == "__np"@ || name == "npgettext"@ {
        Some(CallShape { domain: false, context: true, plural: true })
    } else if name == "__d"@ || name == "dgettext"@ {
        Some(CallShape { domain: true, context: false, plural: false })
    } else if name == "__dn"@ || name == "dngettext"@ {
        Some(CallShape { domain: true, context: false, plural: true })
    } else if name == "__dp"@ || name == "dpgettext"@ {
        Some(CallShape { domain: true, context: true, plural: false })
    } else if name == "__dnp"@ || name == "dnpgettext"@ {
        Some(CallShape { domain: true, context: true, plural: true })
    } else {
        None
    }
}

/// Looks `name` up in the table of translation functions.
pub fn recognize(name: &str) -> (r: Option<CallShape>)
    ensures
        r == call_shape(name@),
{
    let n = chars_of(name);
    if is_text(&n, "__") || is_text(&n, "gettext") {
        Some(CallShape { domain: false, context: false, plural: false })
    } else if is_text(&n, "__n") || is_text(&n, "ngettext") {
        Some(CallShape { domain: false, context: false, plural: true })
    } else if is_text(&n, "__p") || is_text(&n, "pgettext") {
        Some(CallShape { domain: false, context: true, plural: false })
    } else if is_text(&n, "__np") || is_text(&n, "npgettext") {
        Some(CallShape { domain: false, context: true, plural: true })
    } else if is_text(&n, "__d") || is_text(&n, "dgettext") {
        Some(CallShape { domain: true, context: false, plural: false })
    } else if is_text(&n, "__dn") || is_text(&n, "dngettext") {
        Some(CallShape { domain: true, context: false, plural: true })
    } else if is_text(&n, "__dp") || is_text(&n, "dpgettext") {
        Some(CallShape { domain: true, context: true, plural: false })
    } else if is_text(&n, "__dnp") || is_text(&n, "dnpgettext") {
        Some(CallShape { domain: true, context: true, plural: true })
    } else {
        None
    }
}

/// Where a call stands in its file, and the comments that stand directly
/// before and after it.
#[derive(Debug)]
pub struct Site {
    /// The line on which the call begins, counted from 1.
    pub line: usize,
    /// The texts of the comments, those before the call first.
    pub comments: Vec<String>,
}

/// The property that a member expression names.
#[derive(Debug)]
pub enum Property {
    /// `object.name`
    Name(String),
    /// `object[expression]`
    Computed(Box<Node>),
}

/// A node of a syntax tree, reduced to what the extraction of messages
/// reads.
#[derive(Debug)]
pub enum Node {
    /// An identifier.
    Ident(String),
    /// A string literal, with its value.
    Str(String),
    /// A template literal: the values of its literal segments (`None` for a
    /// segment that has no valid value), and the expressions between them.
    Template { quasis: Vec<Option<String>>, exprs: Vec<Node> },
    /// A member expression.
    Member { object: Box<Node>, property: Property },
    /// A call.
    Call { callee: Box<Node>, args: Vec<Node>, site: Site },
    /// A template literal with a tag in front.
    TaggedTemplate { tag: Box<Node>, quasis: Vec<Option<String>>, exprs: Vec<Node>, site: Site },
    /// A decorator, with the expression behind the `@`.
    Decorator(Box<Node>),
    /// An expression between braces in embedded markup.
    Container(Box<Node>),
    /// Any other construct, with the nodes that it holds.
    Other(Vec<Node>),
}

/// The text of `node` where it is a static string: a string literal, or a
/// template literal of one literal segment and no expression.
pub open spec fn static_text(node: Node) -> Option<Seq<char>> {
    match node {
        Node::Str(s) => Some(s@),
        Node::Template { quasis, exprs } => if quasis.len() == 1 && exprs.len() == 0 {
            opt_text(quasis[0])
        } else {
            None
        },
        _ => None,
    }
}

/// The name by which `callee` calls: the identifier itself, or the name of
/// the property of a member expression. A computed property gives no name.
pub open spec fn terminal_name(callee: Node) -> Option<Seq<char>> {
    match callee {
        Node::Ident(name) => Some(name@),
        Node::Member { object, property: Property::Name(name) } => Some(name@),
        _ => None,
    }
}

/// A message as a call states it, as plain text: its domain, if the call
/// names one, and its key.
pub struct Extracted {
    pub domain: Option<Seq<char>>,
    pub key: MessageKey,
}

/// A message as a call states it.
#[derive(Debug)]
pub struct Extraction {
    pub domain: Option<String>,
    pub message: POTMessageID,
}

impl View for Extraction {
    type V = Extracted;

    open spec fn view(&self) -> Extracted {
        Extracted { domain: opt_text(self.domain), key: self.message@ }
    }
}

/// What an optional extraction holds, as plain text.
pub open spec fn extracted(e: Option<Extraction>) -> Option<Extracted> {
    match e {
        Some(x) => Some(x@),
        None => None,
    }
}

/// The static texts of the nodes, `None` for a node that is no static
/// string.
pub open spec fn static_texts(args: Seq<Node>) -> Seq<Option<Seq<char>>> {
    Seq::new(args.len(), |i: int| static_text(args[i]))
}

/// The message that a call of the shape `shape` states with the arguments
/// `args`: there is one exactly when the call has as many arguments as the
/// shape needs, or more, and each of those that it needs is a static string.
pub open spec fn message_of(shape: CallShape, args: Seq<Option<Seq<char>>>) -> Option<Extracted> {
    if args.len() >= shape.arity() && (forall|i: int|
        0 <= i < shape.arity() ==> (#[trigger] args[i]) is Some) {
        let d: int = if shape.domain {
            1
        } else {
            0
        };
        let c: int = if shape.context {
            1
        } else {
            0
        };
        Some(
            Extracted {
                domain: if shape.domain {
                    args[0]
                } else {
                    None
                },
                key: MessageKey {
                    context: if shape.context {
                        args[d]
                    } else {
                        None
                    },
                    singular: args[d + c].unwrap(),
                    plural: if shape.plural {
                        args[d + c + 1]
                    } else {
                        None
                    },
                },
            },
        )
    } else {
        None
    }
}

/// The message that the call of `callee` with `args` states, if it states
/// one: the callee has to name a translation function, and the arguments
/// have to suit it.
pub open spec fn call_message(callee: Node, args: Seq<Node>) -> Option<Extracted> {
    match terminal_name(callee) {
        Some(name) => match call_shape(name) {
            Some(shape) => message_of(shape, static_texts(args)),
            None => None,
        },
        None => None,
    }
}

/// The message that a tagged template states, if it states one: the tag has
/// to be the identifier `__`, and the template one literal segment with a
/// valid value and no expression.
pub open spec fn tagged_message(tag: Node, quasis: Seq<Option<String>>, exprs: Seq<Node>) -> Option<
    Extracted,
> {
    match tag {
        Node::Ident(name) => if name@ == "__"@ && quasis.len() == 1 && exprs.len() == 0
            && quasis[0] is Some {
            Some(
                Extracted {
                    domain: None,
                    key: MessageKey {
                        context: None,
                        singular: quasis[0].unwrap()@,
                        plural: None,
                    },
                },
            )
        } else {
            None
        },
        _ => None,
    }
}

/// The text of `expr` where it is a static string.
pub fn extract_string_from_expr(expr: &Node) -> (r: Option<String>)
    ensures
        opt_text(r) == static_text(*expr),
{
    match expr {
        Node::Str(s) => Some(s.clone()),
        Node::Template { quasis, exprs } => {
            if quasis.len() == 1 && exprs.len() == 0 {
                match &quasis[0] {
                    Some(s) => Some(s.clone()),
                    None => None,
                }
            } else {
                None
            }
        },
        _ => None,
    }
}

/// The message that the call of `callee` with `args` states, if it states
/// one.
pub fn recognize_call(callee: &Node, args: &Vec<Node>) -> (r: Option<Extraction>)
    ensures
        extracted(r) == call_message(*callee, args@),
{
    let name: &String = match callee {
        Node::Ident(name) => name,
        Node::Member { object, property: Property::Name(name) } => name,
        _ => {
            return None;
        },
    };
    let shape = match recognize(name.as_str()) {
        Some(shape) => shape,
        None => {
            return None;
        },
    };
    let n: usize = shape.arg_count();
    if args.len() < n {
        return None;
    }
    let mut texts: Vec<String> = Vec::new();
    let mut i: usize = 0;
    while i < n
        invariant
            i <= n <= args.len(),
            n == shape.arity(),
            terminal_name(*callee) == Some(name@),
            call_shape(name@) == Some(shape),
            texts.len() == i,
            forall|j: int| 0 <= j < i ==> #[trigger] static_texts(args@)[j] == Some(texts@[j]@),
        decreases n - i,
    {
        match extract_string_from_expr(&args[i]) {
            Some(text) => {
                texts.push(text);
            },
            None => {
                assert(static_texts(args@)[i as int] is None);
                return None;
            },
        }
        i = i + 1;
    }
    let mut next: usize = 0;
    let mut domain: Option<String> = None;
    if shape.domain {
        domain = Some(texts[next].clone());
        next = next + 1;
    }
    let mut msgctx: Option<String> = None;
    if shape.context {
        msgctx = Some(texts[next].clone());
        next = next + 1;
    }
    let msgid = texts[next].clone();
    next = next + 1;
    let mut msgid_plural: Option<String> = None;
    if shape.plural {
        msgid_plural = Some(texts[next].clone());
    }
    Some(Extraction { domain, message: POTMessageID { msgctx, msgid, msgid_plural } })
}

/// The message that a tagged template states, if it states one.
pub fn recognize_tagged(tag: &Node, quasis: &Vec<Option<String>>, exprs: &Vec<Node>) -> (r: Option<
    Extraction,
>)
    ensures
        extracted(r) == tagged_message(*tag, quasis@, exprs@),
{
    match tag {
        Node::Ident(name) => {
            if is_text(&chars_of(name.as_str()), "__") && quasis.len() == 1 && exprs.len() == 0 {
                match &quasis[0] {
                    Some(value) => Some(
                        Extraction {
                            domain: None,
                            message: POTMessageID {
                                msgctx: None,
                                msgid: value.clone(),
                                msgid_plural: None,
                            },
                        },
                    ),
                    None => None,
                }
            } else {
                None
            }
        },
        _ => None,
    }
}

/// The decimal digit of the value `d`.
pub open spec fn digit(d: int) -> char {
    if d == 0 {
        '0'
    } else if d == 1 {
        '1'
    } else if d == 2 {
        '2'
    } else if d == 3 {
        '3'
    } else if d == 4 {
        '4'
    } else if d == 5 {
        '5'
    } else if d == 6 {
        '6'
    } else if d == 7 {
        '7'
    } else if d == 8 {
        '8'
    } else {
        '9'
    }
}

/// The number `n` in decimal digits, without leading zeros.
pub open spec fn decimal(n: nat) -> Seq<char>
    decreases n,
{
    if n < 10 {
        seq![digit(n as int)]
    } else {
        decimal(n / 10).push(digit((n % 10) as int))
    }
}

fn digit_char(d: usize) -> (c: char)
    requires
        d < 10,
    ensures
        c == digit(d as int),
{
    if d == 0 {
        '0'
    } else if d == 1 {
        '1'
    } else if d == 2 {
        '2'
    } else if d == 3 {
        '3'
    } else if d == 4 {
        '4'
    } else if d == 5 {
        '5'
    } else if d == 6 {
        '6'
    } else if d == 7 {
        '7'
    } else if d == 8 {
        '8'
    } else {
        '9'
    }
}

/// Appends to `out` the number `n` in decimal digits.
pub fn write_decimal(out: &mut Vec<char>, n: usize)
    ensures
        final(out)@ == old(out)@ + decimal(n as nat),
    decreases n,
{
    if n >= 10 {
        write_decimal(out, n / 10);
    }
    out.push(digit_char(n % 10));
}

/// The reference to the line `line` of the file that is shown as `path`.
pub open spec fn reference_text(path: Seq<char>, line: nat) -> Seq<char> {
    path + seq![':'] + decimal(line)
}

/// The reference to the line `line` of a file, if the file's path can be
/// shown.
pub open spec fn reference_of(path: Option<Seq<char>>, line: nat) -> Option<Seq<char>> {
    match path {
        Some(p) => Some(reference_text(p, line)),
        None => None,
    }
}

/// The reference to the line `line` of the file that is shown as `path`:
/// the path, a colon, and the line in decimal digits. There is none for a
/// file whose path cannot be shown.
pub fn format_reference(path: &Option<String>, line: usize) -> (r: Option<String>)
    ensures
        opt_text(r) == reference_of(opt_text(*path), line as nat),
{
    match path {
        Some(p) => {
            let mut out: Vec<char> = Vec::new();
            append_str(&mut out, p.as_str());
            out.push(':');
            write_decimal(&mut out, line);
            Some(string_of(&out))
        },
        None => None,
    }
}

/// What relating a file's path to a base directory came to.
#[derive(Debug)]
pub enum PathDiff {
    /// The path of the file as seen from the base directory.
    Relative(String),
    /// The file cannot be reached from the base directory by a relative
    /// path.
    Unrelated,
    /// There is a relative path, but it is no text.
    Unreadable,
}

impl View for PathDiff {
    type V = Option<Option<Seq<char>>>;

    /// `None` where there is no relative path, `Some(None)` where there is
    /// one that is no text, and else the relative path.
    open spec fn view(&self) -> Option<Option<Seq<char>>> {
        match self {
            PathDiff::Relative(p) => Some(Some(p@)),
            PathDiff::Unrelated => None,
            PathDiff::Unreadable => Some(None),
        }
    }
}

/// What `pathdiff::diff_paths` makes of the path `path` and the base
/// directory `base`: `None` where it finds no relative path from `base` to
/// `path`, `Some(None)` where it finds one that is no text, and else the
/// relative path. It goes by the components of the two paths alone, as the
/// platform that the library is built for tells them apart.
pub uninterp spec fn relative_of(path: Seq<char>, base: Seq<char>) -> Option<Option<Seq<char>>>;

/// `pathdiff::diff_paths`, which makes a relative path from `base` to
/// `path`; the path it returns is handed back as text. The outcome is what
/// `relative_of` names; nothing else is claimed of it.
#[verifier::external_body]
fn diff_paths(path: &str, base: &str) -> (r: PathDiff)
    ensures
        r@ == relative_of(path@, base@),
{
    match pathdiff::diff_paths(path, base) {
        Some(relative) => match relative.to_str() {
            Some(text) => PathDiff::Relative(text.to_string()),
            None => PathDiff::Unreadable,
        },
        None => PathDiff::Unrelated,
    }
}

/// The path by which references name the file `file`, given what relating
/// it to the base directory came to: the relative path where there is one,
/// the path of the file as it is where the file cannot be reached from the
/// base directory, and none where the relative path is no text.
pub open spec fn shown(file: Seq<char>, diff: Option<Option<Seq<char>>>) -> Option<Seq<char>> {
    match diff {
        Some(Some(p)) => Some(p),
        Some(None) => None,
        None => Some(file),
    }
}

/// The path by which references name the file `file`, given what relating
/// it to the base directory came to.
pub fn shown_path(file: &str, diff: PathDiff) -> (r: Option<String>)
    ensures
        opt_text(r) == shown(file@, diff@),
{
    match diff {
        PathDiff::Relative(p) => Some(p),
        PathDiff::Unrelated => Some(string_of(&chars_of(file))),
        PathDiff::Unreadable => None,
    }
}

/// The comments, each trimmed, as a set.
pub open spec fn trimmed(comments: Seq<Seq<char>>) -> Set<Seq<char>>
    decreases comments.len(),
{
    if comments.len() == 0 {
        Set::empty()
    } else {
        trimmed(comments.drop_last()).insert(trim(comments.last()))
    }
}

/// The metadata `m` with what one more place of the message adds: its
/// reference, if it has one, and its comments, trimmed.
pub open spec fn merged(m: Metadata, reference: Option<Seq<char>>, comments: Seq<Seq<char>>) -> Metadata {
    Metadata {
        references: match reference {
            Some(r) => m.references.insert(r),
            None => m.references,
        },
        translator_comments: m.translator_comments,
        extracted_comments: m.extracted_comments.union(trimmed(comments)),
        flags: m.flags,
    }
}

/// The catalog `c` after the message `e` was found at a place with the
/// reference `reference` and the comments `comments`.
pub open spec fn recorded(
    c: Catalog,
    e: Extracted,
    reference: Option<Seq<char>>,
    comments: Seq<Seq<char>>,
) -> Catalog {
    let name = c.domain_name(e.domain);
    c.with_message(name, e.key, merged(c.metadata(name, e.key), reference, comments))
}

/// A message found in a syntax tree: what the call states, the line of the
/// call, and the comments at the call.
pub struct Found {
    pub message: Extracted,
    pub line: nat,
    pub comments: Seq<Seq<char>>,
}

/// What a call at `site` contributes: the message that it states, if it
/// states one.
pub open spec fn found_at(message: Option<Extracted>, site: Site) -> Seq<Found> {
    match message {
        Some(m) => seq![
            Found { message: m, line: site.line as nat, comments: texts_of(site.comments@) },
        ],
        None => Seq::empty(),
    }
}

/// The messages that the calls and tagged templates of the tree `node`
/// state, however deep they stand in it; those inside a call come before
/// that of the call itself.
pub open spec fn found_in(node: Node) -> Seq<Found>
    decreases node,
{
    match node {
        Node::Ident(_) => Seq::empty(),
        Node::Str(_) => Seq::empty(),
        Node::Template { quasis, exprs } => found_in_all(exprs@),
        Node::Member { object, property } => found_in(*object) + (match property {
            Property::Name(_) => Seq::empty(),
            Property::Computed(e) => found_in(*e),
        }),
        Node::Call { callee, args, site } => found_in(*callee) + found_in_all(args@) + found_at(
            call_message(*callee, args@),
            site,
        ),
        Node::TaggedTemplate { tag, quasis, exprs, site } => found_in(*tag) + found_in_all(exprs@)
            + found_at(tagged_message(*tag, quasis@, exprs@), site),
        Node::Decorator(e) => found_in(*e),
        Node::Container(e) => found_in(*e),
        Node::Other(children) => found_in_all(children@),
    }
}

/// The messages that the trees `nodes` state, tree after tree.
pub open spec fn found_in_all(nodes: Seq<Node>) -> Seq<Found>
    decreases nodes,
{
    if nodes.len() == 0 {
        Seq::empty()
    } else {
        found_in_all(nodes.drop_last()) + found_in(nodes.last())
    }
}

/// The catalog `c` after the messages `found` were found, one after the
/// other, in the file that is shown as `path`.
pub open spec fn recorded_all(c: Catalog, found: Seq<Found>, path: Option<Seq<char>>) -> Catalog
    decreases found.len(),
{
    if found.len() == 0 {
        c
    } else {
        let f = found.last();
        recorded(
            recorded_all(c, found.drop_last(), path),
            f.message,
            reference_of(path, f.line),
            f.comments,
        )
    }
}

/// Recording one sequence of messages after another is recording both in a
/// row.
pub proof fn lemma_recorded_all_add(
    c: Catalog,
    a: Seq<Found>,
    b: Seq<Found>,
    path: Option<Seq<char>>,
)
    ensures
        recorded_all(c, a + b, path) == recorded_all(recorded_all(c, a, path), b, path),
    decreases b.len(),
{
    if b.len() == 0 {
        assert(a + b == a);
    } else {
        assert((a + b).drop_last() == a + b.drop_last());
        lemma_recorded_all_add(c, a, b.drop_last(), path);
    }
}

/// The number of nodes of the tree `node`; a call and a tagged template
/// count twice.
pub open spec fn size(node: Node) -> nat
    decreases node,
{
    match node {
        Node::Ident(_) => 1,
        Node::Str(_) => 1,
        Node::Template { quasis, exprs } => 1 + size_all(exprs@),
        Node::Member { object, property } => 1 + size(*object) + (match property {
            Property::Name(_) => 0,
            Property::Computed(e) => size(*e),
        }),
        Node::Call { callee, args, site } => 2 + size(*callee) + size_all(args@),
        Node::TaggedTemplate { tag, quasis, exprs, site } => 2 + size(*tag) + size_all(exprs@),
        Node::Decorator(e) => 1 + size(*e),
        Node::Container(e) => 1 + size(*e),
        Node::Other(children) => 1 + size_all(children@),
    }
}

/// The number of nodes of the trees `nodes`.
pub open spec fn size_all(nodes: Seq<Node>) -> nat
    decreases nodes,
{
    if nodes.len() == 0 {
        0
    } else {
        size_all(nodes.drop_last()) + size(nodes.last())
    }
}

/// A tree is no larger than the trees among which it stands.
proof fn lemma_size_of_one(nodes: Seq<Node>, i: int)
    requires
        0 <= i < nodes.len(),
    ensures
        size(nodes[i]) <= size_all(nodes),
    decreases nodes.len(),
{
    if i < nodes.len() - 1 {
        lemma_size_of_one(nodes.drop_last(), i);
    }
}

/// Extracts the messages of one file into a catalog.
#[derive(Debug)]
pub struct GettextVisitor {
    /// The path by which references name the file; `None` where they cannot
    /// name it, and then no reference is recorded.
    pub path: Option<String>,
}

impl GettextVisitor {
    /// The visitor for the file `file`, whose references are relative to the
    /// directory `references_relative_to`.
    pub fn new(file: &str, references_relative_to: &str) -> (r: GettextVisitor)
        ensures
            opt_text(r.path) == shown(file@, relative_of(file@, references_relative_to@)),
    {
        let diff = diff_paths(file, references_relative_to);
        GettextVisitor { path: shown_path(file, diff) }
    }

    /// Adds to `meta` what the place `site` of a message contributes: the
    /// reference to its line, and its comments, trimmed.
    pub fn add_message_meta(&self, site: &Site, meta: &mut POTMessageMeta)
        ensures
            final(meta)@ == merged(
                old(meta)@,
                reference_of(opt_text(self.path), site.line as nat),
                texts_of(site.comments@),
            ),
    {
        match format_reference(&self.path, site.line) {
            Some(reference) => {
                meta.references.insert(reference);
            },
            None => {},
        }
        let ghost before = meta.extracted_comments@;
        let mut i: usize = 0;
        while i < site.comments.len()
            invariant
                i <= site.comments.len(),
                meta@.references == merged(
                    old(meta)@,
                    reference_of(opt_text(self.path), site.line as nat),
                    texts_of(site.comments@),
                ).references,
                meta@.translator_comments == old(meta)@.translator_comments,
                meta@.flags == old(meta)@.flags,
                meta@.extracted_comments == old(meta)@.extracted_comments.union(
                    trimmed(texts_of(site.comments@).take(i as int)),
                ),
            decreases site.comments.len() - i,
        {
            proof {
                let t = texts_of(site.comments@);
                assert(t.take(i + 1).drop_last() == t.take(i as int));
                assert(t.take(i + 1).last() == site.comments@[i as int]@);
            }
            let text = trim_text(&chars_of(site.comments[i].as_str()));
            meta.extracted_comments.insert(string_of(&text));
            assert(meta@.extracted_comments =~= old(meta)@.extracted_comments.union(
                trimmed(texts_of(site.comments@).take(i + 1)),
            ));
            i = i + 1;
        }
        assert(texts_of(site.comments@).take(site.comments.len() as int) == texts_of(
            site.comments@,
        ));
    }

    /// Records in `pot` that the message `found` stands at `site`.
    pub fn record(&self, pot: &mut POT, found: Extraction, site: &Site)
        ensures
            final(pot)@ == recorded(
                old(pot)@,
                found@,
                reference_of(opt_text(self.path), site.line as nat),
                texts_of(site.comments@),
            ),
    {
        let Extraction { domain, message } = found;
        let meta = pot.add_message(domain, message);
        self.add_message_meta(site, meta);
    }

    /// Visits the trees `nodes`, one after the other.
    pub fn visit_all(&self, pot: &mut POT, nodes: &Vec<Node>)
        ensures
            final(pot)@ == recorded_all(old(pot)@, found_in_all(nodes@), opt_text(self.path)),
        decreases size_all(nodes@), 1int,
    {
        let mut i: usize = 0;
        while i < nodes.len()
            invariant
                i <= nodes.len(),
                pot@ == recorded_all(
                    old(pot)@,
                    found_in_all(nodes@.take(i as int)),
                    opt_text(self.path),
                ),
            decreases nodes.len() - i,
        {
            proof {
                assert(nodes@.take(i + 1).drop_last() == nodes@.take(i as int));
                lemma_size_of_one(nodes@, i as int);
                lemma_recorded_all_add(
                    old(pot)@,
                    found_in_all(nodes@.take(i as int)),
                    found_in(nodes@[i as int]),
                    opt_text(self.path),
                );
            }
            self.visit(pot, &nodes[i]);
            i = i + 1;
        }
        assert(nodes@.take(nodes.len() as int) == nodes@);
    }

    /// Records at `site` the message `message`, if there is one.
    fn record_found(&self, pot: &mut POT, message: Option<Extraction>, site: &Site)
        ensures
            final(pot)@ == recorded_all(
                old(pot)@,
                found_at(extracted(message), *site),
                opt_text(self.path),
            ),
    {
        match message {
            Some(found) => {
                proof {
                    let one = found_at(extracted(message), *site);
                    assert(one.drop_last() == Seq::<Found>::empty());
                    assert(recorded_all(old(pot)@, one.drop_last(), opt_text(self.path)) == old(
                        pot,
                    )@);
                }
                self.record(pot, found, site);
            },
            None => {},
        }
    }

    /// Visits the tree `node`: records in `pot` every message that a call or
    /// a tagged template of the tree states, wherever in the tree it stands.
    pub fn visit(&self, pot: &mut POT, node: &Node)
        ensures
            final(pot)@ == recorded_all(old(pot)@, found_in(*node), opt_text(self.path)),
        decreases size(*node), 0int,
    {
        let ghost path = opt_text(self.path);
        let ghost start = pot@;
        match node {
            Node::Ident(_) => {},
            Node::Str(_) => {},
            Node::Template { quasis, exprs } => {
                self.visit_all(pot, exprs);
            },
            Node::Member { object, property } => {
                self.visit(pot, object);
                match property {
                    Property::Name(_) => {
                        assert(found_in(*node) == found_in(**object));
                    },
                    Property::Computed(e) => {
                        self.visit(pot, e);
                        proof {
                            lemma_recorded_all_add(start, found_in(**object), found_in(**e), path);
                        }
                    },
                }
            },
            Node::Call { callee, args, site } => {
                self.visit_call_expr(pot, callee, args, site);
            },
            Node::TaggedTemplate { tag, quasis, exprs, site } => {
                self.visit_tagged_tpl(pot, tag, quasis, exprs, site);
            },
            Node::Decorator(e) => {
                self.visit_decorator(pot, e);
            },
            Node::Container(e) => {
                self.visit(pot, e);
            },
            Node::Other(children) => {
                self.visit_all(pot, children);
            },
        }
    }

    /// Visits a call: what stands inside it first, then the call itself.
    pub fn visit_call_expr(&self, pot: &mut POT, callee: &Node, args: &Vec<Node>, site: &Site)
        ensures
            final(pot)@ == recorded_all(
                old(pot)@,
                found_in(*callee) + found_in_all(args@) + found_at(
                    call_message(*callee, args@),
                    *site,
                ),
                opt_text(self.path),
            ),
        decreases 1 + size(*callee) + size_all(args@), 0int,
    {
        let ghost path = opt_text(self.path);
        let ghost start = pot@;
        self.visit(pot, callee);
        self.visit_all(pot, args);
        self.record_found(pot, recognize_call(callee, args), site);
        proof {
            let a = found_in(*callee);
            let b = found_in_all(args@);
            let c = found_at(call_message(*callee, args@), *site);
            lemma_recorded_all_add(start, a, b, path);
            lemma_recorded_all_add(start, a + b, c, path);
        }
    }

    /// Visits a tagged template: what stands inside it first, then the
    /// template itself.
    pub fn visit_tagged_tpl(
        &self,
        pot: &mut POT,
        tag: &Node,
        quasis: &Vec<Option<String>>,
        exprs: &Vec<Node>,
        site: &Site,
    )
        ensures
            final(pot)@ == recorded_all(
                old(pot)@,
                found_in(*tag) + found_in_all(exprs@) + found_at(
                    tagged_message(*tag, quasis@, exprs@),
                    *site,
                ),
                opt_text(self.path),
            ),
        decreases 1 + size(*tag) + size_all(exprs@), 0int,
    {
        let ghost path = opt_text(self.path);
        let ghost start = pot@;
        self.visit(pot, tag);
        self.visit_all(pot, exprs);
        self.record_found(pot, recognize_tagged(tag, quasis, exprs), site);
        proof {
            let a = found_in(*tag);
            let b = found_in_all(exprs@);
            let c = found_at(tagged_message(*tag, quasis@, exprs@), *site);
            lemma_recorded_all_add(start, a, b, path);
            lemma_recorded_all_add(start, a + b, c, path);
        }
    }

    /// Visits a decorator: the expression behind the `@` may hold calls.
    pub fn visit_decorator(&self, pot: &mut POT, expr: &Node)
        ensures
            final(pot)@ == recorded_all(old(pot)@, found_in(*expr), opt_text(self.path)),
        decreases size(*expr), 1int,
    {
        self.visit(pot, expr);
    }
}

/// A message that is found at two places is one message of its domain: its
/// references are those that it had and those of both places, its extracted
/// comments are those that it had and those of both places, and no other
/// message and no other domain has changed.
pub proof fn lemma_identity_merge(
    c: Catalog,
    e: Extracted,
    first: Option<Seq<char>>,
    first_comments: Seq<Seq<char>>,
    second: Option<Seq<char>>,
    second_comments: Seq<Seq<char>>,
)
    ensures
        ({
            let name = c.domain_name(e.domain);
            let twice = recorded(
                recorded(c, e, first, first_comments),
                e,
                second,
                second_comments,
            );
            let had = c.metadata(name, e.key);
            let has = twice.metadata(name, e.key);
            &&& twice.default_domain == c.default_domain
            &&& twice.domains.dom() == c.domains.dom().insert(name)
            &&& twice.messages(name).dom() == c.messages(name).dom().insert(e.key)
            &&& forall|r: Seq<char>|
                has.references.contains(r) <==> (had.references.contains(r) || first == Some(r)
                    || second == Some(r))
            &&& has.extracted_comments == had.extracted_comments.union(
                trimmed(first_comments),
            ).union(trimmed(second_comments))
            &&& has.translator_comments == had.translator_comments
            &&& has.flags == had.flags
            &&& forall|k: MessageKey| k != e.key ==> twice.metadata(name, k) == c.metadata(name, k)
            &&& forall|n: Seq<char>| n != name ==> twice.messages(n) == c.messages(n)
        }),
{
    let name = c.domain_name(e.domain);
    let once = recorded(c, e, first, first_comments);
    let twice = recorded(once, e, second, second_comments);
    assert(twice.domains.dom() =~= c.domains.dom().insert(name));
    assert(twice.messages(name).dom() =~= c.messages(name).dom().insert(e.key));
}

/// The order in which two messages are found does not show in the catalog.
pub proof fn lemma_recorded_commutes(
    c: Catalog,
    e1: Extracted,
    r1: Option<Seq<char>>,
    c1: Seq<Seq<char>>,
    e2: Extracted,
    r2: Option<Seq<char>>,
    c2: Seq<Seq<char>>,
)
    ensures
        recorded(recorded(c, e1, r1, c1), e2, r2, c2) == recorded(
            recorded(c, e2, r2, c2),
            e1,
            r1,
            c1,
        ),
{
    let a = recorded(recorded(c, e1, r1, c1), e2, r2, c2);
    let b = recorded(recorded(c, e2, r2, c2), e1, r1, c1);
    let n1 = c.domain_name(e1.domain);
    let n2 = c.domain_name(e2.domain);
    assert(a.domains.dom() =~= b.domains.dom());
    assert forall|n: Seq<char>| a.domains.dom().contains(n) implies a.domains[n] == b.domains[n] by {
        let x = a.domains[n];
        let y = b.domains[n];
        assert(x.dom() =~= y.dom());
        assert forall|k: MessageKey| x.dom().contains(k) implies x[k] == y[k] by {
            if n == n1 && n == n2 && k == e1.key && k == e2.key {
                let had = c.metadata(n, k);
                let one = merged(merged(had, r1, c1), r2, c2);
                let other = merged(merged(had, r2, c2), r1, c1);
                assert(one.references =~= other.references);
                assert(one.extracted_comments =~= other.extracted_comments);
            }
        }
        assert(x =~= y);
    }
    assert(a.domains =~= b.domains);
}

/// Two messages that are found one after the other may change places: the
/// catalog comes out the same. (So it does for every order in which the
/// messages of a tree may be found.)
pub proof fn lemma_recorded_all_swap(
    c: Catalog,
    before: Seq<Found>,
    x: Found,
    y: Found,
    after: Seq<Found>,
    path: Option<Seq<char>>,
)
    ensures
        recorded_all(c, before + seq![x, y] + after, path) == recorded_all(
            c,
            before + seq![y, x] + after,
            path,
        ),
{
    let start = recorded_all(c, before, path);
    lemma_recorded_all_add(c, before + seq![x, y], after, path);
    lemma_recorded_all_add(c, before + seq![y, x], after, path);
    lemma_recorded_all_add(c, before, seq![x, y], path);
    lemma_recorded_all_add(c, before, seq![y, x], path);
    assert(seq![x, y].drop_last() == seq![x]);
    assert(seq![y, x].drop_last() == seq![y]);
    assert(seq![x].drop_last() == Seq::<Found>::empty());
    assert(seq![y].drop_last() == Seq::<Found>::empty());
    assert(recorded_all(start, Seq::<Found>::empty(), path) == start);
    assert(recorded_all(start, seq![x], path) == recorded(
        start,
        x.message,
        reference_of(path, x.line),
        x.comments,
    ));
    assert(recorded_all(start, seq![y], path) == recorded(
        start,
        y.message,
        reference_of(path, y.line),
        y.comments,
    ));
    assert(recorded_all(start, seq![x, y], path) == recorded(
        recorded_all(start, seq![x], path),
        y.message,
        reference_of(path, y.line),
        y.comments,
    ));
    assert(recorded_all(start, seq![y, x], path) == recorded(
        recorded_all(start, seq![y], path),
        x.message,
        reference_of(path, x.line),
        x.comments,
    ));
    lemma_recorded_commutes(
        start,
        x.message,
        reference_of(path, x.line),
        x.comments,
        y.message,
        reference_of(path, y.line),
        y.comments,
    );
}

/// A call through a computed member states no message, whatever its
/// arguments are.
pub proof fn lemma_computed_member_states_nothing(object: Node, property: Node, args: Seq<Node>)
    ensures
        call_message(
            Node::Member {
                object: Box::new(object),
                property: Property::Computed(Box::new(property)),
            },
            args,
        ) is None,
{
}

/// A call states no message where one of the arguments that it needs is no
/// static string, as an identifier is none.
pub proof fn lemma_dynamic_argument_states_nothing(callee: Node, args: Seq<Node>, i: int)
    requires
        terminal_name(callee) is Some,
        call_shape(terminal_name(callee).unwrap()) is Some,
        0 <= i < call_shape(terminal_name(callee).unwrap()).unwrap().arity(),
        i < args.len() ==> static_text(args[i]) is None,
    ensures
        call_message(callee, args) is None,
        forall|name: String| static_text(Node::Ident(name)) is None,
{
    if i < args.len() {
        assert(static_texts(args)[i] is None);
    }
}

/// A call that states no message, and that holds none that does, leaves
/// the catalog as it was: so does `__(x)` where `x` is an identifier, and so
/// does a call through a computed member.
pub proof fn lemma_silent_call_records_nothing(
    c: Catalog,
    path: Option<Seq<char>>,
    callee: Node,
    args: Vec<Node>,
    site: Site,
)
    requires
        call_message(callee, args@) is None,
        found_in(callee) == Seq::<Found>::empty(),
        found_in_all(args@) == Seq::<Found>::empty(),
    ensures
        recorded_all(c, found_in(Node::Call { callee: Box::new(callee), args, site }), path) == c,
{
    let found = found_in(Node::Call { callee: Box::new(callee), args, site });
    assert(found =~= Seq::<Found>::empty());
}

} // verus!

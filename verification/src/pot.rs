//! The message catalog: identities, their metadata, domains, and the template
//! text of a domain.
//!
//! See <https://www.gnu.org/software/gettext/manual/html_node/PO-Files.html>
//! for the format of a template.

use crate::assoc::{assoc, lemma_assoc_at, lemma_assoc_dom, lemma_assoc_push, lemma_assoc_update};
use crate::chars::{
    append_str, chars_of, copy_opt_text, opt_text, same_opt_text, string_of, texts_of,
};
use crate::order::{
    in_order, lemma_in_order, lemma_opt_text_lt_connected, lemma_opt_text_lt_irreflexive,
    lemma_opt_text_lt_transitive, lemma_text_lt_connected, lemma_text_lt_irreflexive,
    lemma_text_lt_transitive, opt_text_before, opt_text_lt, text_before, text_lt, text_order,
};
use crate::string_set::StringSet;
use crate::wrap::{
    comment_text, message_text, quoted_line, write_comment, write_line, write_message,
};
use itertools::Itertools;
use std::cmp::Ordering;
use vstd::prelude::*;
use vstd::relations::{connected, irreflexive, sorted_by, transitive};

verus! {

/// What begins every template: an empty message whose translation declares
/// the character set and the plural forms.
pub const HEADER: &'static str =
    "msgid \"\"\nmsgstr \"\"\n\"Content-Type: text/plain; charset=utf-8\\n\"\n\"Plural-Forms: nplurals=2; plural=(n != 1);\\n\"\n";

/// What identifies a message, as plain text: two messages are the same
/// message exactly when their keys are equal.
pub struct MessageKey {
    pub context: Option<Seq<char>>,
    pub singular: Seq<char>,
    pub plural: Option<Seq<char>>,
}

/// What is known of a message besides its key, as plain text.
pub struct Metadata {
    pub references: Set<Seq<char>>,
    pub translator_comments: Set<Seq<char>>,
    pub extracted_comments: Set<Seq<char>>,
    pub flags: Set<Seq<char>>,
}

impl Metadata {
    /// The metadata of a message of which nothing is known yet.
    pub open spec fn empty() -> Metadata {
        Metadata {
            references: Set::empty(),
            translator_comments: Set::empty(),
            extracted_comments: Set::empty(),
            flags: Set::empty(),
        }
    }
}

/// Whether the key `a` comes before the key `b`: by context, then by
/// singular text, then by plural text; an absent context or plural text comes
/// before every present one.
pub open spec fn key_lt(a: MessageKey, b: MessageKey) -> bool {
    if a.context != b.context {
        opt_text_lt(a.context, b.context)
    } else if a.singular != b.singular {
        text_lt(a.singular, b.singular)
    } else {
        opt_text_lt(a.plural, b.plural)
    }
}

/// The order of keys as a relation.
pub open spec fn key_order() -> spec_fn(MessageKey, MessageKey) -> bool {
    |a: MessageKey, b: MessageKey| key_lt(a, b)
}

/// No key comes before itself.
pub proof fn lemma_key_lt_irreflexive(a: MessageKey)
    ensures
        !key_lt(a, a),
{
    lemma_opt_text_lt_irreflexive(a.plural);
}

/// If `a` comes before `b` and `b` before `c`, then `a` comes before `c`.
pub proof fn lemma_key_lt_transitive(a: MessageKey, b: MessageKey, c: MessageKey)
    requires
        key_lt(a, b),
        key_lt(b, c),
    ensures
        key_lt(a, c),
{
    if a.context != b.context {
        if b.context != c.context {
            lemma_opt_text_lt_transitive(a.context, b.context, c.context);
            lemma_opt_text_lt_irreflexive(a.context);
        }
    } else if b.context == c.context {
        if a.singular != b.singular {
            if b.singular != c.singular {
                lemma_text_lt_transitive(a.singular, b.singular, c.singular);
                lemma_text_lt_irreflexive(a.singular);
            }
        } else if b.singular == c.singular {
            lemma_opt_text_lt_transitive(a.plural, b.plural, c.plural);
        }
    }
}

/// Of two different keys, one comes before the other.
pub proof fn lemma_key_lt_connected(a: MessageKey, b: MessageKey)
    requires
        a != b,
    ensures
        key_lt(a, b) || key_lt(b, a),
{
    if a.context != b.context {
        lemma_opt_text_lt_connected(a.context, b.context);
    } else if a.singular != b.singular {
        lemma_text_lt_connected(a.singular, b.singular);
    } else {
        lemma_opt_text_lt_connected(a.plural, b.plural);
    }
}

/// The order of keys is a strict total order.
pub proof fn lemma_key_order()
    ensures
        irreflexive(key_order()),
        transitive(key_order()),
        connected(key_order()),
{
    assert forall|a: MessageKey| #[trigger] key_order()(a, a) == false by {
        lemma_key_lt_irreflexive(a);
    }
    assert forall|a: MessageKey, b: MessageKey, c: MessageKey| #[trigger]
        key_order()(a, b) && #[trigger] key_order()(b, c) implies key_order()(a, c) by {
        lemma_key_lt_transitive(a, b, c);
    }
    assert forall|a: MessageKey, b: MessageKey| a != b implies #[trigger] key_order()(a, b)
        || #[trigger] key_order()(b, a) by {
        lemma_key_lt_connected(a, b);
    }
}

/// The lines of a template that state the key `k`, the last without a line
/// break: the context, if there is one, on one line; the singular text,
/// wrapped where it is long; then either the plural text, wrapped where it is
/// long, and its two empty translations, or one empty translation.
pub open spec fn key_text(k: MessageKey) -> Seq<char> {
    (match k.context {
        Some(c) => quoted_line("msgctxt"@, c) + seq!['\n'],
        None => Seq::empty(),
    }) + message_text("msgid"@, k.singular) + seq!['\n'] + translations_text(k.plural)
}

/// The lines of a template behind the singular text of a key: the plural
/// text and two empty translations, or one empty translation.
pub open spec fn translations_text(plural: Option<Seq<char>>) -> Seq<char> {
    match plural {
        Some(p) => message_text("msgid_plural"@, p) + seq!['\n'] + quoted_line(
            "msgstr[0]"@,
            Seq::empty(),
        ) + seq!['\n'] + quoted_line("msgstr[1]"@, Seq::empty()),
        None => quoted_line("msgstr"@, Seq::empty()),
    }
}

/// The lines of the comments of the kind `mark`, in the order given.
pub open spec fn comments_text(mark: char, comments: Seq<Seq<char>>) -> Seq<char>
    decreases comments.len(),
{
    if comments.len() == 0 {
        Seq::empty()
    } else {
        comments_text(mark, comments.drop_last()) + comment_text(mark, comments.last())
    }
}

/// The lines of the references, in the order given: each reference on a line
/// of its own, however long it is.
pub open spec fn references_text(references: Seq<Seq<char>>) -> Seq<char>
    decreases references.len(),
{
    if references.len() == 0 {
        Seq::empty()
    } else {
        references_text(references.drop_last()) + seq!['#', ':', ' '] + references.last()
            + seq!['\n']
    }
}

/// The lines of a template that state the metadata `m`: the translator
/// comments, the extracted comments, the references and the flags, each kind
/// in ascending order.
pub open spec fn metadata_text(m: Metadata) -> Seq<char> {
    comments_text(' ', in_order(m.translator_comments, text_order())) + comments_text(
        '.',
        in_order(m.extracted_comments, text_order()),
    ) + references_text(in_order(m.references, text_order())) + comments_text(
        ',',
        in_order(m.flags, text_order()),
    )
}

/// The entry of a template for the key `k` with the metadata `m`: an empty
/// line, the metadata, and the key.
pub open spec fn entry_text(k: MessageKey, m: Metadata) -> Seq<char> {
    seq!['\n'] + metadata_text(m) + key_text(k) + seq!['\n']
}

/// The entries of a template for `keys`, in the order given.
pub open spec fn entries_text(keys: Seq<MessageKey>, messages: Map<MessageKey, Metadata>) -> Seq<
    char,
>
    decreases keys.len(),
{
    if keys.len() == 0 {
        Seq::empty()
    } else {
        entries_text(keys.drop_last(), messages) + entry_text(keys.last(), messages[keys.last()])
    }
}

/// The template of a domain that holds `messages`: the header, then the
/// entries of the messages in the ascending order of their keys.
pub open spec fn template_text(messages: Map<MessageKey, Metadata>) -> Seq<char> {
    HEADER@ + entries_text(in_order(messages.dom(), key_order()), messages)
}

/// An individual message of a template.
#[derive(Debug, Hash, Ord)]
pub struct POTMessageID {
    pub msgctx: Option<String>,
    pub msgid: String,
    pub msgid_plural: Option<String>,
}

impl View for POTMessageID {
    type V = MessageKey;

    open spec fn view(&self) -> MessageKey {
        MessageKey {
            context: opt_text(self.msgctx),
            singular: self.msgid@,
            plural: opt_text(self.msgid_plural),
        }
    }
}

impl PartialEq for POTMessageID {
    fn eq(&self, other: &POTMessageID) -> (r: bool) {
        same_opt_text(&self.msgctx, &other.msgctx) && self.msgid == other.msgid && same_opt_text(
            &self.msgid_plural,
            &other.msgid_plural,
        )
    }
}

impl vstd::std_specs::cmp::PartialEqSpecImpl for POTMessageID {
    open spec fn obeys_eq_spec() -> bool {
        true
    }

    open spec fn eq_spec(&self, other: &POTMessageID) -> bool {
        self@ == other@
    }
}

impl Eq for POTMessageID {

}

impl PartialOrd for POTMessageID {
    fn partial_cmp(&self, other: &POTMessageID) -> (r: Option<Ordering>) {
        Some(compare_keys(self, other))
    }
}

impl vstd::std_specs::cmp::PartialOrdSpecImpl for POTMessageID {
    open spec fn obeys_partial_cmp_spec() -> bool {
        true
    }

    open spec fn partial_cmp_spec(&self, other: &POTMessageID) -> Option<Ordering> {
        Some(key_ordering(self@, other@))
    }
}

impl Default for POTMessageID {
    fn default() -> (r: POTMessageID)
        ensures
            r@ == (MessageKey { context: None, singular: Seq::empty(), plural: None }),
    {
        POTMessageID { msgctx: None, msgid: String::new(), msgid_plural: None }
    }
}

impl Clone for POTMessageID {
    fn clone(&self) -> (r: POTMessageID)
        ensures
            r@ == self@,
    {
        POTMessageID {
            msgctx: copy_opt_text(&self.msgctx),
            msgid: self.msgid.clone(),
            msgid_plural: copy_opt_text(&self.msgid_plural),
        }
    }
}

impl POTMessageID {
    /// Whether this message comes before `other` in a template.
    pub fn before(&self, other: &POTMessageID) -> (r: bool)
        ensures
            r == key_lt(self@, other@),
    {
        if !same_opt_text(&self.msgctx, &other.msgctx) {
            opt_text_before(&self.msgctx, &other.msgctx)
        } else if !(self.msgid == other.msgid) {
            text_before(self.msgid.as_str(), other.msgid.as_str())
        } else {
            opt_text_before(&self.msgid_plural, &other.msgid_plural)
        }
    }

    /// Appends to `out` the lines that state this message.
    pub fn write(&self, out: &mut Vec<char>)
        ensures
            final(out)@ == old(out)@ + key_text(self@),
    {
        let empty: Vec<char> = Vec::new();
        if let Some(ctx) = &self.msgctx {
            write_line(out, &chars_of("msgctxt"), &chars_of(ctx.as_str()));
            out.push('\n');
        }
        let ghost context = out@;
        assert(context == old(out)@ + (match self@.context {
            Some(c) => quoted_line("msgctxt"@, c) + seq!['\n'],
            None => Seq::empty(),
        }));
        write_message(out, &chars_of("msgid"), &chars_of(self.msgid.as_str()));
        out.push('\n');
        let ghost singular = out@;
        assert(singular == context + message_text("msgid"@, self@.singular) + seq!['\n']);
        if let Some(plural) = &self.msgid_plural {
            write_message(out, &chars_of("msgid_plural"), &chars_of(plural.as_str()));
            out.push('\n');
            write_line(out, &chars_of("msgstr[0]"), &empty);
            out.push('\n');
            write_line(out, &chars_of("msgstr[1]"), &empty);
        } else {
            write_line(out, &chars_of("msgstr"), &empty);
        }
        assert(out@ == singular + translations_text(self@.plural));
    }

    /// The lines of a template that state this message, the last without a
    /// line break.
    pub fn convert_to_string(&self) -> (r: String)
        ensures
            r@ == key_text(self@),
    {
        let mut out: Vec<char> = Vec::new();
        self.write(&mut out);
        string_of(&out)
    }
}

/// Metadata of a message, which does not bear on its identity.
#[derive(Debug)]
pub struct POTMessageMeta {
    pub references: StringSet,
    pub translator_comments: StringSet,
    pub extracted_comments: StringSet,
    pub flags: StringSet,
}

impl View for POTMessageMeta {
    type V = Metadata;

    open spec fn view(&self) -> Metadata {
        Metadata {
            references: self.references@,
            translator_comments: self.translator_comments@,
            extracted_comments: self.extracted_comments@,
            flags: self.flags@,
        }
    }
}

/// Appends to `out` the lines of the comments of the kind `mark`.
fn write_comments(out: &mut Vec<char>, mark: char, comments: &Vec<String>)
    ensures
        final(out)@ == old(out)@ + comments_text(mark, texts_of(comments@)),
{
    let mut i: usize = 0;
    while i < comments.len()
        invariant
            i <= comments.len(),
            out@ == old(out)@ + comments_text(mark, texts_of(comments@).take(i as int)),
        decreases comments.len() - i,
    {
        proof {
            let t = texts_of(comments@).take(i + 1);
            assert(t.drop_last() == texts_of(comments@).take(i as int));
            assert(t.last() == comments@[i as int]@);
        }
        write_comment(out, mark, &chars_of(comments[i].as_str()));
        i = i + 1;
    }
    assert(texts_of(comments@).take(comments.len() as int) == texts_of(comments@));
}

/// Appends to `out` the lines of the references.
fn write_references(out: &mut Vec<char>, references: &Vec<String>)
    ensures
        final(out)@ == old(out)@ + references_text(texts_of(references@)),
{
    let mut i: usize = 0;
    while i < references.len()
        invariant
            i <= references.len(),
            out@ == old(out)@ + references_text(texts_of(references@).take(i as int)),
        decreases references.len() - i,
    {
        proof {
            let t = texts_of(references@).take(i + 1);
            assert(t.drop_last() == texts_of(references@).take(i as int));
            assert(t.last() == references@[i as int]@);
        }
        out.push('#');
        out.push(':');
        out.push(' ');
        append_str(out, references[i].as_str());
        out.push('\n');
        i = i + 1;
    }
    assert(texts_of(references@).take(references.len() as int) == texts_of(references@));
}

impl POTMessageMeta {
    /// The metadata of a message of which nothing is known yet.
    pub fn new() -> (r: POTMessageMeta)
        ensures
            r@ == Metadata::empty(),
    {
        POTMessageMeta {
            references: StringSet::new(),
            translator_comments: StringSet::new(),
            extracted_comments: StringSet::new(),
            flags: StringSet::new(),
        }
    }

    /// Appends to `out` the lines that state this metadata.
    pub fn write(&self, out: &mut Vec<char>)
        ensures
            final(out)@ == old(out)@ + metadata_text(self@),
    {
        write_comments(out, ' ', self.translator_comments.items());
        write_comments(out, '.', self.extracted_comments.items());
        write_references(out, self.references.items());
        write_comments(out, ',', self.flags.items());
    }

    /// The lines of a template that state this metadata, each ended by a line
    /// break.
    pub fn convert_to_string(&self) -> (r: String)
        ensures
            r@ == metadata_text(self@),
    {
        let mut out: Vec<char> = Vec::new();
        self.write(&mut out);
        string_of(&out)
    }
}

/// How the key `a` stands to the key `b` in the order of keys.
pub open spec fn key_ordering(a: MessageKey, b: MessageKey) -> Ordering {
    if key_lt(a, b) {
        Ordering::Less
    } else if key_lt(b, a) {
        Ordering::Greater
    } else {
        Ordering::Equal
    }
}

/// Two keys stand equal in the order of keys only where they are one key.
pub proof fn lemma_key_ordering_equal(a: MessageKey, b: MessageKey)
    ensures
        (key_ordering(a, b) == Ordering::Equal) <==> a == b,
{
    if a != b {
        lemma_key_lt_connected(a, b);
    } else {
        lemma_key_lt_irreflexive(a);
    }
}

/// How `a` and `b` stand in the order of a template.
pub fn compare_keys(a: &POTMessageID, b: &POTMessageID) -> (r: Ordering)
    ensures
        r == key_ordering(a@, b@),
        match r {
            Ordering::Less => key_lt(a@, b@),
            Ordering::Equal => a@ == b@,
            Ordering::Greater => key_lt(b@, a@),
        },
{
    if a.before(b) {
        proof {
            if key_lt(b@, a@) {
                lemma_key_lt_transitive(a@, b@, a@);
                lemma_key_lt_irreflexive(a@);
            }
        }
        Ordering::Less
    } else if b.before(a) {
        Ordering::Greater
    } else {
        proof {
            if a@ != b@ {
                lemma_key_lt_connected(a@, b@);
            }
        }
        Ordering::Equal
    }
}

/// The keys of a sequence of messages.
pub open spec fn keys_of(ids: Seq<POTMessageID>) -> Seq<MessageKey> {
    Seq::new(ids.len(), |i: int| ids[i]@)
}

/// The keys of a sequence of borrowed messages.
pub open spec fn keys_of_borrowed(ids: Seq<&POTMessageID>) -> Seq<MessageKey> {
    Seq::new(ids.len(), |i: int| ids[i]@)
}

/// `Itertools::sorted_by`, called with `compare_keys`, on the messages of
/// `ids`. It sorts its items in ascending order by the comparison: it hands
/// back the very messages it was given, each as often as it was given, and
/// none of them comes before one that stands earlier in the result. (The
/// comparison has to be a total order; `lemma_key_order` shows that it is.)
#[verifier::external_body]
fn sorted_messages(ids: &Vec<POTMessageID>) -> (sorted: Vec<&POTMessageID>)
    ensures
        keys_of_borrowed(sorted@).to_multiset() == keys_of(ids@).to_multiset(),
        forall|i: int, j: int|
            0 <= i < j < sorted@.len() ==> !key_lt(
                #[trigger] keys_of_borrowed(sorted@)[j],
                #[trigger] keys_of_borrowed(sorted@)[i],
            ),
{
    ids.iter().sorted_by(|a, b| compare_keys(a, b)).collect()
}

/// What a sequence of metadata holds, as plain text.
pub open spec fn metadata_in(metas: Seq<POTMessageMeta>) -> Seq<Metadata> {
    Seq::new(metas.len(), |i: int| metas[i]@)
}

/// The messages that a domain holds, each key with its metadata.
spec fn messages_of(ids: Seq<POTMessageID>, metas: Seq<POTMessageMeta>) -> Map<
    MessageKey,
    Metadata,
> {
    assoc(keys_of(ids), metadata_in(metas))
}

/// The metadata of the key `k` among `messages`; it is empty where `k` is no
/// key of them.
pub open spec fn metadata_of(messages: Map<MessageKey, Metadata>, k: MessageKey) -> Metadata {
    if messages.dom().contains(k) {
        messages[k]
    } else {
        Metadata::empty()
    }
}

/// The messages of one domain.
#[derive(Debug)]
pub struct POTFile {
    ids: Vec<POTMessageID>,
    metas: Vec<POTMessageMeta>,
}

impl View for POTFile {
    type V = Map<MessageKey, Metadata>;

    closed spec fn view(&self) -> Map<MessageKey, Metadata> {
        messages_of(self.ids@, self.metas@)
    }
}

impl POTFile {
    #[verifier::type_invariant]
    spec fn distinct(self) -> bool {
        &&& self.ids.len() == self.metas.len()
        &&& keys_of(self.ids@).no_duplicates()
    }

    /// A domain without messages.
    pub fn new() -> (r: POTFile)
        ensures
            r@ == Map::<MessageKey, Metadata>::empty(),
    {
        let r = POTFile { ids: Vec::new(), metas: Vec::new() };
        assert(r@ =~= Map::<MessageKey, Metadata>::empty());
        r
    }

    /// Where the message `id` stands, if the domain holds it.
    fn position(&self, id: &POTMessageID) -> (r: Option<usize>)
        ensures
            match r {
                Some(i) => i < self.ids.len() && keys_of(self.ids@)[i as int] == id@,
                None => !keys_of(self.ids@).contains(id@),
            },
    {
        let mut i: usize = 0;
        while i < self.ids.len()
            invariant
                i <= self.ids.len(),
                forall|j: int| 0 <= j < i ==> keys_of(self.ids@)[j] != id@,
            decreases self.ids.len() - i,
        {
            if self.ids[i] == *id {
                return Some(i);
            }
            i = i + 1;
        }
        None
    }

    /// The number of messages.
    pub fn len(&self) -> (n: usize)
        ensures
            self@.dom().finite(),
            n == self@.dom().len(),
    {
        proof {
            use_type_invariant(self);
            let keys = keys_of(self.ids@);
            keys.unique_seq_to_set();
            lemma_assoc_dom(keys, metadata_in(self.metas@));
        }
        self.ids.len()
    }

    /// The metadata of the message `id`, if the domain holds it.
    pub fn get(&self, id: &POTMessageID) -> (r: Option<&POTMessageMeta>)
        ensures
            match r {
                Some(m) => self@.dom().contains(id@) && m@ == self@[id@],
                None => !self@.dom().contains(id@),
            },
    {
        proof {
            use_type_invariant(self);
        }
        match self.position(id) {
            Some(i) => {
                proof {
                    lemma_assoc_at(keys_of(self.ids@), metadata_in(self.metas@), i as int);
                }
                Some(&self.metas[i])
            },
            None => None,
        }
    }

    /// The metadata of the message `id`, to be added to. A message that the
    /// domain does not hold yet is added with empty metadata.
    pub fn entry(&mut self, id: POTMessageID) -> (meta: &mut POTMessageMeta)
        ensures
            meta@ == metadata_of(old(self)@, id@),
            final(self)@ == old(self)@.insert(id@, final(meta)@),
    {
        proof {
            use_type_invariant(&*self);
        }
        let found = self.position(&id);
        let i: usize = match found {
            Some(i) => {
                proof {
                    lemma_assoc_at(keys_of(self.ids@), metadata_in(self.metas@), i as int);
                }
                i
            },
            None => {
                let mut taken = POTFile::new();
                std::mem::swap(self, &mut taken);
                let POTFile { mut ids, mut metas } = taken;
                let n: usize = ids.len();
                let fresh = POTMessageMeta::new();
                proof {
                    lemma_assoc_push(keys_of(ids@), metadata_in(metas@), id@, fresh@);
                    assert(keys_of(ids@.push(id)) == keys_of(ids@).push(id@));
                    assert(metadata_in(metas@.push(fresh)) == metadata_in(metas@).push(fresh@));
                }
                ids.push(id);
                metas.push(fresh);
                *self = POTFile { ids, metas };
                n
            },
        };
        proof {
            assert(keys_of(self.ids@)[i as int] == id@);
            assert forall|m: POTMessageMeta| #[trigger]
                messages_of(self.ids@, self.metas@.update(i as int, m)) == old(self)@.insert(
                    id@,
                    m@,
                ) by {
                lemma_assoc_update(keys_of(self.ids@), metadata_in(self.metas@), i as int, m@);
                assert(metadata_in(self.metas@.update(i as int, m)) == metadata_in(
                    self.metas@,
                ).update(i as int, m@));
                assert(self@.insert(id@, m@) =~= old(self)@.insert(id@, m@));
            }
        }
        &mut self.metas[i]
    }

    /// Appends to `out` the template of this domain.
    pub fn write(&self, out: &mut Vec<char>)
        ensures
            final(out)@ == old(out)@ + template_text(self@),
    {
        proof {
            use_type_invariant(self);
        }
        append_str(out, HEADER);
        let sorted = sorted_messages(&self.ids);
        let ghost keys = keys_of(self.ids@);
        let ghost order = keys_of_borrowed(sorted@);
        proof {
            broadcast use vstd::seq_lib::group_to_multiset_ensures;

            keys.lemma_multiset_has_no_duplicates();
            order.lemma_multiset_has_no_duplicates_conv();
            lemma_key_order();
            assert forall|i: int, j: int| 0 <= i < j < order.len() implies #[trigger] key_order()(
                order[i],
                order[j],
            ) by {
                lemma_key_lt_connected(order[i], order[j]);
            }
            assert forall|k: MessageKey| order.to_set().contains(k) <==> self@.dom().contains(
                k,
            ) by {
                assert(order.contains(k) <==> order.to_multiset().count(k) > 0);
                assert(keys.contains(k) <==> keys.to_multiset().count(k) > 0);
            }
            assert(order.to_set() =~= self@.dom());
            lemma_in_order(order, key_order());
        }
        let mut i: usize = 0;
        while i < sorted.len()
            invariant
                i <= sorted.len(),
                order == keys_of_borrowed(sorted@),
                order == in_order(self@.dom(), key_order()),
                order.to_set() == self@.dom(),
                out@ == old(out)@ + HEADER@ + entries_text(order.take(i as int), self@),
            decreases sorted.len() - i,
        {
            let id = sorted[i];
            proof {
                assert(order.take(i + 1).drop_last() == order.take(i as int));
                assert(order.take(i + 1).last() == id@);
                assert(order.to_set().contains(order[i as int]));
            }
            match self.get(id) {
                Some(meta) => {
                    out.push('\n');
                    meta.write(out);
                    id.write(out);
                    out.push('\n');
                },
                None => {},
            }
            i = i + 1;
        }
        assert(order.take(sorted.len() as int) == order);
    }

    /// The template of this domain.
    pub fn convert_to_string(&self) -> (r: String)
        ensures
            r@ == template_text(self@),
    {
        let mut out: Vec<char> = Vec::new();
        self.write(&mut out);
        string_of(&out)
    }
}

/// The state of a catalog, as plain text: the name of the default domain,
/// and the messages of each domain that holds a message.
pub struct Catalog {
    pub default_domain: Seq<char>,
    pub domains: Map<Seq<char>, Map<MessageKey, Metadata>>,
}

impl Catalog {
    /// The name of the domain that a message goes to: the domain given, or
    /// the default domain where none is given.
    pub open spec fn domain_name(self, domain: Option<Seq<char>>) -> Seq<char> {
        match domain {
            Some(d) => d,
            None => self.default_domain,
        }
    }

    /// The messages of the domain `name`; there are none where the catalog
    /// has no such domain.
    pub open spec fn messages(self, name: Seq<char>) -> Map<MessageKey, Metadata> {
        if self.domains.dom().contains(name) {
            self.domains[name]
        } else {
            Map::empty()
        }
    }

    /// The metadata of the key `k` in the domain `name`; it is empty where
    /// the domain holds no such message.
    pub open spec fn metadata(self, name: Seq<char>, k: MessageKey) -> Metadata {
        metadata_of(self.messages(name), k)
    }

    /// The template of the domain `domain` (of the default domain where none
    /// is given); there is none where the catalog has no such domain.
    pub open spec fn rendered(self, domain: Option<Seq<char>>) -> Option<Seq<char>> {
        let name = self.domain_name(domain);
        if self.domains.dom().contains(name) {
            Some(template_text(self.domains[name]))
        } else {
            None
        }
    }

    /// The catalog in which the key `k` of the domain `name` has the metadata
    /// `m`, and all else is as in this catalog.
    pub open spec fn with_message(self, name: Seq<char>, k: MessageKey, m: Metadata) -> Catalog {
        Catalog {
            default_domain: self.default_domain,
            domains: self.domains.insert(name, self.messages(name).insert(k, m)),
        }
    }
}

/// What a sequence of domains holds, as plain text.
pub open spec fn messages_in(files: Seq<POTFile>) -> Seq<Map<MessageKey, Metadata>> {
    Seq::new(files.len(), |i: int| files[i]@)
}

/// The catalog: the messages found, by domain.
#[derive(Debug)]
pub struct POT {
    default_domain: String,
    names: Vec<String>,
    files: Vec<POTFile>,
}

impl View for POT {
    type V = Catalog;

    closed spec fn view(&self) -> Catalog {
        Catalog {
            default_domain: self.default_domain@,
            domains: assoc(texts_of(self.names@), messages_in(self.files@)),
        }
    }
}

impl POT {
    #[verifier::type_invariant]
    spec fn distinct(self) -> bool {
        &&& self.names.len() == self.files.len()
        &&& texts_of(self.names@).no_duplicates()
    }

    /// A catalog without messages. Its default domain is `default_domain`,
    /// or `default` where none is given.
    pub fn new(default_domain: Option<String>) -> (r: POT)
        ensures
            r@ == (Catalog {
                default_domain: match default_domain {
                    Some(d) => d@,
                    None => "default"@,
                },
                domains: Map::empty(),
            }),
    {
        let name = match default_domain {
            Some(d) => d,
            None => string_of(&chars_of("default")),
        };
        let r = POT { default_domain: name, names: Vec::new(), files: Vec::new() };
        assert(r@.domains =~= Map::<Seq<char>, Map<MessageKey, Metadata>>::empty());
        r
    }

    /// The name of the default domain.
    pub fn default_domain(&self) -> (r: &String)
        ensures
            r@ == self@.default_domain,
    {
        &self.default_domain
    }

    /// Where the domain `name` stands, if the catalog has it.
    fn position(&self, name: &String) -> (r: Option<usize>)
        ensures
            match r {
                Some(i) => i < self.names.len() && texts_of(self.names@)[i as int] == name@,
                None => !texts_of(self.names@).contains(name@),
            },
    {
        let mut i: usize = 0;
        while i < self.names.len()
            invariant
                i <= self.names.len(),
                forall|j: int| 0 <= j < i ==> texts_of(self.names@)[j] != name@,
            decreases self.names.len() - i,
        {
            if self.names[i] == *name {
                return Some(i);
            }
            i = i + 1;
        }
        None
    }

    /// The domain `name`, if the catalog has it.
    pub fn domain(&self, name: &str) -> (r: Option<&POTFile>)
        ensures
            match r {
                Some(f) => self@.domains.dom().contains(name@) && f@ == self@.domains[name@],
                None => !self@.domains.dom().contains(name@),
            },
    {
        proof {
            use_type_invariant(self);
        }
        match self.position(&name.to_owned()) {
            Some(i) => {
                proof {
                    lemma_assoc_at(texts_of(self.names@), messages_in(self.files@), i as int);
                }
                Some(&self.files[i])
            },
            None => None,
        }
    }

    /// The names of the domains, in ascending order.
    pub fn domain_names(&self) -> (r: Vec<String>)
        ensures
            texts_of(r@) == in_order(self@.domains.dom(), text_order()),
    {
        let mut set = StringSet::new();
        let mut i: usize = 0;
        while i < self.names.len()
            invariant
                i <= self.names.len(),
                set@ == texts_of(self.names@).take(i as int).to_set(),
            decreases self.names.len() - i,
        {
            proof {
                let t = texts_of(self.names@);
                assert(t.take(i + 1) == t.take(i as int).push(t[i as int]));
                t.take(i as int).lemma_push_to_set_commute(t[i as int]);
            }
            set.insert(self.names[i].clone());
            i = i + 1;
        }
        proof {
            assert(texts_of(self.names@).take(self.names.len() as int) == texts_of(self.names@));
            lemma_assoc_dom(texts_of(self.names@), messages_in(self.files@));
        }
        let items = set.items();
        let mut r: Vec<String> = Vec::new();
        let mut j: usize = 0;
        while j < items.len()
            invariant
                j <= items.len(),
                texts_of(r@) == texts_of(items@).take(j as int),
            decreases items.len() - j,
        {
            let ghost before = texts_of(r@);
            r.push(items[j].clone());
            assert(texts_of(r@) == before.push(items@[j as int]@));
            j = j + 1;
        }
        assert(texts_of(items@).take(items.len() as int) == texts_of(items@));
        r
    }

    /// The metadata of `message` in the domain `domain` (in the default
    /// domain where none is given), to be added to. A domain that the catalog
    /// does not have yet is added, and so is a message that the domain does
    /// not hold yet, with empty metadata.
    pub fn add_message(&mut self, domain: Option<String>, message: POTMessageID) -> (meta:
        &mut POTMessageMeta)
        ensures
            meta@ == old(self)@.metadata(old(self)@.domain_name(opt_text(domain)), message@),
            final(self)@ == old(self)@.with_message(
                old(self)@.domain_name(opt_text(domain)),
                message@,
                final(meta)@,
            ),
    {
        proof {
            use_type_invariant(&*self);
        }
        let name = match domain {
            Some(d) => d,
            None => self.default_domain.clone(),
        };
        let ghost n = name@;
        assert(n == old(self)@.domain_name(opt_text(domain)));
        let found = self.position(&name);
        let i: usize = match found {
            Some(i) => {
                proof {
                    lemma_assoc_at(texts_of(self.names@), messages_in(self.files@), i as int);
                }
                i
            },
            None => {
                let mut taken = POT {
                    default_domain: String::new(),
                    names: Vec::new(),
                    files: Vec::new(),
                };
                std::mem::swap(self, &mut taken);
                let POT { default_domain, mut names, mut files } = taken;
                let at: usize = names.len();
                let fresh = POTFile::new();
                proof {
                    lemma_assoc_dom(texts_of(names@), messages_in(files@));
                    lemma_assoc_push(texts_of(names@), messages_in(files@), n, fresh@);
                    assert(texts_of(names@.push(name)) == texts_of(names@).push(n));
                    assert(messages_in(files@.push(fresh)) == messages_in(files@).push(fresh@));
                }
                names.push(name);
                files.push(fresh);
                *self = POT { default_domain, names, files };
                proof {
                    lemma_assoc_at(texts_of(self.names@), messages_in(self.files@), at as int);
                }
                at
            },
        };
        proof {
            assert(texts_of(self.names@)[i as int] == n);
            assert(self.files@[i as int]@ == old(self)@.messages(n));
            assert(self@.domains == old(self)@.domains.insert(n, old(self)@.messages(n)));
            assert forall|f: POTFile| #[trigger]
                assoc(texts_of(self.names@), messages_in(self.files@.update(i as int, f)))
                    == old(self)@.domains.insert(n, f@) by {
                lemma_assoc_update(
                    texts_of(self.names@),
                    messages_in(self.files@),
                    i as int,
                    f@,
                );
                assert(messages_in(self.files@.update(i as int, f)) == messages_in(
                    self.files@,
                ).update(i as int, f@));
                assert(self@.domains.insert(n, f@) =~= old(self)@.domains.insert(n, f@));
            }
        }
        self.files[i].entry(message)
    }

    /// The template of the domain `domain` (of the default domain where none
    /// is given), or `None` where the catalog has no such domain.
    pub fn to_string(&self, domain: Option<&str>) -> (r: Option<String>)
        ensures
            opt_text(r) == self@.rendered(opt_str_text(domain)),
    {
        let file = match domain {
            Some(name) => self.domain(name),
            None => self.domain(self.default_domain.as_str()),
        };
        match file {
            Some(f) => Some(f.convert_to_string()),
            None => None,
        }
    }
}

/// The text of an optional string slice.
pub open spec fn opt_str_text(s: Option<&str>) -> Option<Seq<char>> {
    match s {
        Some(t) => Some(t@),
        None => None,
    }
}

/// Two catalogs in the same state have the same templates, however each of
/// them came to that state.
pub proof fn lemma_rendering_is_determined(a: POT, b: POT, domain: Option<Seq<char>>)
    requires
        a@ == b@,
    ensures
        a@.rendered(domain) == b@.rendered(domain),
{
}

/// The order in which two messages get their metadata does not show in the
/// catalog.
pub proof fn lemma_with_message_commutes(
    c: Catalog,
    n1: Seq<char>,
    k1: MessageKey,
    m1: Metadata,
    n2: Seq<char>,
    k2: MessageKey,
    m2: Metadata,
)
    requires
        n1 != n2 || k1 != k2,
    ensures
        c.with_message(n1, k1, m1).with_message(n2, k2, m2) == c.with_message(
            n2,
            k2,
            m2,
        ).with_message(n1, k1, m1),
{
    let a = c.with_message(n1, k1, m1).with_message(n2, k2, m2);
    let b = c.with_message(n2, k2, m2).with_message(n1, k1, m1);
    assert(a.domains.dom() =~= b.domains.dom());
    assert forall|n: Seq<char>| a.domains.dom().contains(n) implies a.domains[n] == b.domains[n] by {
        assert(a.domains[n] =~= b.domains[n]);
    }
    assert(a.domains =~= b.domains);
}

} // verus!

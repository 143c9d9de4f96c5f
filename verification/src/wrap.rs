//! Escaping and line wrapping of message texts and comments.

use crate::chars::{append, append_range, chars_of, string_of};
use vstd::prelude::*;

verus! {

/// The number of characters that a line of a template should not exceed.
pub const MAX_LINE_LENGTH: usize = 80;

/// The texts of a vector of words.
pub open spec fn texts(words: Seq<Vec<char>>) -> Seq<Seq<char>> {
    Seq::new(words.len(), |i: int| words[i]@)
}

/// What the character at `i` of `s` becomes in a quoted text: a quote gets a
/// backslash in front, and a line break (`\r\n`, `\r` or `\n`) becomes one
/// space.
pub open spec fn escaped_at(s: Seq<char>, i: int) -> Seq<char> {
    let c = s[i];
    if c == '"' {
        seq!['\\', '"']
    } else if c == '\r' {
        seq![' ']
    } else if c == '\n' {
        if i > 0 && s[i - 1] == '\r' {
            Seq::empty()
        } else {
            seq![' ']
        }
    } else {
        seq![c]
    }
}

/// The text `s` as it stands between the quotes of a template line.
pub open spec fn escape(s: Seq<char>) -> Seq<char>
    decreases s.len(),
{
    if s.len() == 0 {
        Seq::empty()
    } else {
        escape(s.drop_last()) + escaped_at(s, s.len() - 1)
    }
}

/// The pieces of `s` between the occurrences of `sep`: one more piece than
/// there are occurrences.
pub open spec fn split(s: Seq<char>, sep: char) -> Seq<Seq<char>>
    decreases s.len(),
{
    if s.len() == 0 {
        seq![Seq::empty()]
    } else {
        let before = split(s.drop_last(), sep);
        if s.last() == sep {
            before.push(Seq::empty())
        } else {
            before.update(before.len() - 1, before.last().push(s.last()))
        }
    }
}

/// Whether `c` is white space (the characters with the Unicode property
/// `White_Space`).
pub open spec fn is_space(c: char) -> bool {
    let n = c as u32;
    (0x09 <= n <= 0x0d) || n == 0x20 || n == 0x85 || n == 0xa0 || n == 0x1680 || (0x2000 <= n
        <= 0x200a) || n == 0x2028 || n == 0x2029 || n == 0x202f || n == 0x205f || n == 0x3000
}

/// The words of `s`: its maximal runs of characters that are no white space.
pub open spec fn words(s: Seq<char>) -> Seq<Seq<char>>
    decreases s.len(),
{
    if s.len() == 0 {
        Seq::empty()
    } else {
        let before = words(s.drop_last());
        if is_space(s.last()) {
            before
        } else if s.len() >= 2 && !is_space(s[s.len() - 2]) {
            before.update(before.len() - 1, before.last().push(s.last()))
        } else {
            before.push(seq![s.last()])
        }
    }
}

/// `s` without the white space at its end.
pub open spec fn trim_end(s: Seq<char>) -> Seq<char>
    decreases s.len(),
{
    if s.len() > 0 && is_space(s.last()) {
        trim_end(s.drop_last())
    } else {
        s
    }
}

/// `s` without the white space at its start.
pub open spec fn trim_start(s: Seq<char>) -> Seq<char>
    decreases s.len(),
{
    if s.len() > 0 && is_space(s.first()) {
        trim_start(s.drop_first())
    } else {
        s
    }
}

/// `s` without the white space at its start and at its end.
pub open spec fn trim(s: Seq<char>) -> Seq<char> {
    trim_start(trim_end(s))
}

/// Lines under construction: the finished lines and the line being filled.
pub struct Packed {
    pub done: Seq<Seq<char>>,
    pub line: Seq<char>,
}

/// Packs `words` greedily into lines. A line begins with `start`; each word is
/// followed by one space. A word goes to the line being filled unless the
/// line, the word and its space together exceed `limit`: then the line is
/// finished and the word begins the next one.
pub open spec fn pack(words: Seq<Seq<char>>, start: Seq<char>, limit: int) -> Packed
    decreases words.len(),
{
    if words.len() == 0 {
        Packed { done: Seq::empty(), line: start }
    } else {
        let p = pack(words.drop_last(), start, limit);
        let w = words.last();
        if p.line.len() + w.len() + 1 > limit {
            Packed { done: p.done.push(p.line), line: start + w + seq![' '] }
        } else {
            Packed { done: p.done, line: p.line + w + seq![' '] }
        }
    }
}

/// `line` between quotes.
pub open spec fn quoted(line: Seq<char>) -> Seq<char> {
    seq!['"'] + line + seq!['"']
}

/// The lines, each between quotes and ended by a line break.
pub open spec fn quoted_lines(lines: Seq<Seq<char>>) -> Seq<char>
    decreases lines.len(),
{
    if lines.len() == 0 {
        Seq::empty()
    } else {
        quoted_lines(lines.drop_last()) + quoted(lines.last()) + seq!['\n']
    }
}

/// The lines, each trimmed and ended by a line break.
pub open spec fn trimmed_lines(lines: Seq<Seq<char>>) -> Seq<char>
    decreases lines.len(),
{
    if lines.len() == 0 {
        Seq::empty()
    } else {
        trimmed_lines(lines.drop_last()) + trim(lines.last()) + seq!['\n']
    }
}

/// The one line `key "escaped text"`, however long it is, without a line
/// break at the end.
pub open spec fn quoted_line(key: Seq<char>, text: Seq<char>) -> Seq<char> {
    key + seq![' ', '"'] + escape(text) + seq!['"']
}

/// The lines that a template holds for the keyword `key` and the text `msg`,
/// without a line break at the end.
///
/// Where `key "escaped text"` fits in `MAX_LINE_LENGTH` characters, that is
/// the line. Otherwise the first line is `key ""`, and the words of the
/// escaped text (its pieces between single spaces) follow in quoted lines,
/// packed so that a line with its quotes and the space after its last word
/// takes `MAX_LINE_LENGTH - 1` characters at most, unless a single word is
/// longer; the space after the very last word is left out.
#[verifier::opaque]
pub open spec fn message_text(key: Seq<char>, msg: Seq<char>) -> Seq<char> {
    let esc = escape(msg);
    if key.len() + 3 + esc.len() > MAX_LINE_LENGTH {
        let p = pack(split(esc, ' '), Seq::empty(), MAX_LINE_LENGTH - 3);
        key + seq![' ', '"', '"', '\n'] + quoted_lines(p.done) + quoted(p.line.drop_last())
    } else {
        quoted_line(key, msg)
    }
}

/// What begins each line of a comment of the kind `mark`.
pub open spec fn comment_prefix(mark: char) -> Seq<char> {
    seq!['#', mark, ' ']
}

/// The lines that a template holds for the comment `msg` of the kind `mark`,
/// each ended by a line break.
///
/// Where the prefix and `msg` fit in `MAX_LINE_LENGTH` characters, they make
/// the one line, `msg` unchanged. Otherwise the words of `msg` are packed into
/// lines that begin with the prefix and take `MAX_LINE_LENGTH` characters at
/// most, the space after the last word of a line counted; every line but the
/// last is trimmed.
#[verifier::opaque]
pub open spec fn comment_text(mark: char, msg: Seq<char>) -> Seq<char> {
    let prefix = comment_prefix(mark);
    if prefix.len() + msg.len() > MAX_LINE_LENGTH {
        let p = pack(words(msg), prefix, MAX_LINE_LENGTH as int);
        trimmed_lines(p.done) + p.line + seq!['\n']
    } else {
        prefix + msg + seq!['\n']
    }
}

/// Whether `c` is white space.
pub fn is_whitespace(c: char) -> (r: bool)
    ensures
        r == is_space(c),
{
    let n: u32 = c as u32;
    (0x09 <= n && n <= 0x0d) || n == 0x20 || n == 0x85 || n == 0xa0 || n == 0x1680 || (0x2000 <= n
        && n <= 0x200a) || n == 0x2028 || n == 0x2029 || n == 0x202f || n == 0x205f || n == 0x3000
}

/// The text `msg` as it stands between the quotes of a template line.
pub fn escape_text(msg: &Vec<char>) -> (r: Vec<char>)
    ensures
        r@ == escape(msg@),
{
    let mut r: Vec<char> = Vec::new();
    let mut i: usize = 0;
    while i < msg.len()
        invariant
            i <= msg.len(),
            r@ == escape(msg@.take(i as int)),
        decreases msg.len() - i,
    {
        let c = msg[i];
        proof {
            let t = msg@.take(i + 1);
            assert(t.drop_last() == msg@.take(i as int));
            assert(escaped_at(t, i as int) == escaped_at(msg@, i as int));
        }
        if c == '"' {
            r.push('\\');
            r.push('"');
        } else if c == '\r' {
            r.push(' ');
        } else if c == '\n' {
            if !(i > 0 && msg[i - 1] == '\r') {
                r.push(' ');
            }
        } else {
            r.push(c);
        }
        i = i + 1;
    }
    assert(msg@.take(msg.len() as int) == msg@);
    r
}

/// The pieces of `s` between the occurrences of `sep`.
pub fn split_text(s: &Vec<char>, sep: char) -> (r: Vec<Vec<char>>)
    ensures
        texts(r@) == split(s@, sep),
{
    let mut r: Vec<Vec<char>> = Vec::new();
    let mut piece: Vec<char> = Vec::new();
    let mut i: usize = 0;
    while i < s.len()
        invariant
            i <= s.len(),
            texts(r@).push(piece@) == split(s@.take(i as int), sep),
        decreases s.len() - i,
    {
        let c = s[i];
        proof {
            assert(s@.take(i + 1).drop_last() == s@.take(i as int));
        }
        if c == sep {
            let ghost before = texts(r@);
            r.push(piece);
            assert(texts(r@) == before.push(piece@));
            piece = Vec::new();
        } else {
            piece.push(c);
        }
        i = i + 1;
    }
    assert(s@.take(s.len() as int) == s@);
    let ghost before = texts(r@);
    r.push(piece);
    assert(texts(r@) == before.push(piece@));
    r
}

/// The words of `s`: its maximal runs of characters that are no white space.
pub fn words_of(s: &Vec<char>) -> (r: Vec<Vec<char>>)
    ensures
        texts(r@) == words(s@),
{
    let mut r: Vec<Vec<char>> = Vec::new();
    let mut word: Vec<char> = Vec::new();
    let mut i: usize = 0;
    while i < s.len()
        invariant
            i <= s.len(),
            word@.len() > 0 <==> (i > 0 && !is_space(s@[i - 1])),
            word@.len() == 0 ==> texts(r@) == words(s@.take(i as int)),
            word@.len() > 0 ==> texts(r@).push(word@) == words(s@.take(i as int)),
        decreases s.len() - i,
    {
        let c = s[i];
        proof {
            assert(s@.take(i + 1).drop_last() == s@.take(i as int));
        }
        if is_whitespace(c) {
            if word.len() > 0 {
                let ghost before = texts(r@);
                r.push(word);
                assert(texts(r@) == before.push(word@));
                word = Vec::new();
            }
        } else {
            proof {
                let t = s@.take(i + 1);
                let before = words(s@.take(i as int));
                if i > 0 {
                    assert(t[t.len() - 2] == s@[i - 1]);
                }
                if word@.len() > 0 {
                    assert(before.last() == word@);
                    assert(texts(r@).push(word@.push(c)) == before.update(
                        before.len() - 1,
                        before.last().push(c),
                    ));
                } else {
                    assert(seq![c] == word@.push(c));
                }
            }
            word.push(c);
        }
        i = i + 1;
    }
    assert(s@.take(s.len() as int) == s@);
    if word.len() > 0 {
        let ghost before = texts(r@);
        r.push(word);
        assert(texts(r@) == before.push(word@));
    }
    r
}

/// `s` without the white space at its start and at its end.
pub fn trim_text(s: &Vec<char>) -> (r: Vec<char>)
    ensures
        r@ == trim(s@),
{
    let mut end: usize = s.len();
    assert(s@.take(end as int) == s@);
    while end > 0 && is_whitespace(s[end - 1])
        invariant
            end <= s.len(),
            trim_end(s@) == trim_end(s@.take(end as int)),
        decreases end,
    {
        assert(s@.take(end as int).drop_last() == s@.take(end - 1));
        end = end - 1;
    }
    let mut start: usize = 0;
    assert(s@.subrange(0, end as int) == s@.take(end as int));
    while start < end && is_whitespace(s[start])
        invariant
            start <= end <= s.len(),
            trim(s@) == trim_start(s@.subrange(start as int, end as int)),
        decreases end - start,
    {
        assert(s@.subrange(start as int, end as int).drop_first() == s@.subrange(
            start + 1,
            end as int,
        ));
        start = start + 1;
    }
    let mut r: Vec<char> = Vec::new();
    append_range(&mut r, s, start, end);
    r
}

/// Whether `a + b + 1` exceeds `limit`.
fn overflows(a: usize, b: usize, limit: usize) -> (r: bool)
    requires
        limit <= MAX_LINE_LENGTH,
    ensures
        r == (a + b + 1 > limit),
{
    a > limit || b > limit || a + b + 1 > limit
}

/// With one word, or more, a line is being filled, and it ends in the space
/// after its last word.
proof fn lemma_pack_line(words: Seq<Seq<char>>, start: Seq<char>, limit: int)
    requires
        words.len() > 0,
    ensures
        pack(words, start, limit).line.len() > 0,
        pack(words, start, limit).line.last() == ' ',
{
}

/// Appends to `out` the one line `key "escaped text"`.
pub fn write_line(out: &mut Vec<char>, key: &Vec<char>, text: &Vec<char>)
    ensures
        final(out)@ == old(out)@ + quoted_line(key@, text@),
{
    let esc = escape_text(text);
    append(out, key);
    out.push(' ');
    out.push('"');
    append(out, &esc);
    out.push('"');
}

/// Appends to `out` the lines for the keyword `key` and the text `msg`.
pub fn write_message(out: &mut Vec<char>, key: &Vec<char>, msg: &Vec<char>)
    ensures
        final(out)@ == old(out)@ + message_text(key@, msg@),
{
    reveal(message_text);
    let esc = escape_text(msg);
    append(out, key);
    if key.len() > MAX_LINE_LENGTH || esc.len() > MAX_LINE_LENGTH || key.len() + 3 + esc.len()
        > MAX_LINE_LENGTH {
        out.push(' ');
        out.push('"');
        out.push('"');
        out.push('\n');
        let ghost head = old(out)@ + key@ + seq![' ', '"', '"', '\n'];
        assert(out@ == head);
        let words = split_text(&esc, ' ');
        let mut line: Vec<char> = Vec::new();
        let mut k: usize = 0;
        while k < words.len()
            invariant
                k <= words.len(),
                out@ == head + quoted_lines(
                    pack(texts(words@).take(k as int), Seq::empty(), MAX_LINE_LENGTH - 3).done,
                ),
                line@ == pack(texts(words@).take(k as int), Seq::empty(), MAX_LINE_LENGTH - 3).line,
            decreases words.len() - k,
        {
            let word = &words[k];
            proof {
                let t = texts(words@).take(k + 1);
                assert(t.drop_last() == texts(words@).take(k as int));
                assert(t.last() == word@);
            }
            if overflows(line.len(), word.len(), MAX_LINE_LENGTH - 3) {
                let ghost before = pack(
                    texts(words@).take(k as int),
                    Seq::empty(),
                    MAX_LINE_LENGTH - 3,
                ).done;
                out.push('"');
                append(out, &line);
                out.push('"');
                out.push('\n');
                assert(before.push(line@).drop_last() == before);
                assert(out@ == head + quoted_lines(before.push(line@)));
                line = Vec::new();
                assert(line@ + word@ == word@);
            }
            append(&mut line, word);
            line.push(' ');
            k = k + 1;
        }
        proof {
            assert(texts(words@).take(words.len() as int) == texts(words@));
            lemma_split_joins(esc@, ' ');
            lemma_pack_line(texts(words@), Seq::empty(), MAX_LINE_LENGTH - 3);
        }
        out.push('"');
        append_range(out, &line, 0, line.len() - 1);
        out.push('"');
        assert(line@.subrange(0, line.len() - 1) == line@.drop_last());
    } else {
        out.push(' ');
        out.push('"');
        append(out, &esc);
        out.push('"');
    }
}

/// Appends to `out` the lines for the comment `msg` of the kind `mark`.
pub fn write_comment(out: &mut Vec<char>, mark: char, msg: &Vec<char>)
    ensures
        final(out)@ == old(out)@ + comment_text(mark, msg@),
{
    reveal(comment_text);
    if msg.len() > MAX_LINE_LENGTH - 3 {
        let words = words_of(msg);
        let mut line: Vec<char> = Vec::new();
        line.push('#');
        line.push(mark);
        line.push(' ');
        assert(line@ == comment_prefix(mark));
        let mut k: usize = 0;
        while k < words.len()
            invariant
                k <= words.len(),
                out@ == old(out)@ + trimmed_lines(
                    pack(
                        texts(words@).take(k as int),
                        comment_prefix(mark),
                        MAX_LINE_LENGTH as int,
                    ).done,
                ),
                line@ == pack(
                    texts(words@).take(k as int),
                    comment_prefix(mark),
                    MAX_LINE_LENGTH as int,
                ).line,
            decreases words.len() - k,
        {
            let word = &words[k];
            proof {
                let t = texts(words@).take(k + 1);
                assert(t.drop_last() == texts(words@).take(k as int));
                assert(t.last() == word@);
            }
            if overflows(line.len(), word.len(), MAX_LINE_LENGTH) {
                let ghost before = pack(
                    texts(words@).take(k as int),
                    comment_prefix(mark),
                    MAX_LINE_LENGTH as int,
                ).done;
                let trimmed = trim_text(&line);
                append(out, &trimmed);
                out.push('\n');
                assert(before.push(line@).drop_last() == before);
                assert(out@ == old(out)@ + trimmed_lines(before.push(line@)));
                line = Vec::new();
                line.push('#');
                line.push(mark);
                line.push(' ');
                assert(line@ == comment_prefix(mark));
            }
            append(&mut line, word);
            line.push(' ');
            k = k + 1;
        }
        assert(texts(words@).take(words.len() as int) == texts(words@));
        append(out, &line);
        out.push('\n');
    } else {
        out.push('#');
        out.push(mark);
        out.push(' ');
        append(out, msg);
        out.push('\n');
    }
}

/// The lines that a template holds for the keyword `key` and the text `msg`,
/// without a line break at the end.
pub fn format_po_message(key: &str, msg: &str) -> (r: String)
    ensures
        r@ == message_text(key@, msg@),
{
    let mut out: Vec<char> = Vec::new();
    write_message(&mut out, &chars_of(key), &chars_of(msg));
    string_of(&out)
}

/// The lines that a template holds for the comment `msg` of the kind
/// `prefix`, each ended by a line break.
pub fn format_po_comment(prefix: &char, msg: &str) -> (r: String)
    ensures
        r@ == comment_text(*prefix, msg@),
{
    let mut out: Vec<char> = Vec::new();
    write_comment(&mut out, *prefix, &chars_of(msg));
    string_of(&out)
}

/// A message that fits in one line is that line.
pub proof fn lemma_short_message(key: Seq<char>, msg: Seq<char>)
    requires
        key.len() + 3 + escape(msg).len() <= MAX_LINE_LENGTH,
    ensures
        message_text(key, msg) == quoted_line(key, msg),
{
    reveal(message_text);
}

/// An escaped text holds no line break.
pub proof fn lemma_escape_has_no_line_break(s: Seq<char>)
    ensures
        !escape(s).contains('\n'),
        !escape(s).contains('\r'),
    decreases s.len(),
{
    if s.len() > 0 {
        lemma_escape_has_no_line_break(s.drop_last());
        let before = escape(s.drop_last());
        let piece = escaped_at(s, s.len() - 1);
        assert forall|i: int| 0 <= i < escape(s).len() implies escape(s)[i] != '\n' && escape(
            s,
        )[i] != '\r' by {
            if i < before.len() {
                assert(before.contains(before[i]));
            } else {
                assert(escape(s)[i] == piece[i - before.len()]);
            }
        }
    }
}

/// In an escaped text a backslash stands before every quote.
pub proof fn lemma_escape_guards_quotes(s: Seq<char>)
    ensures
        forall|i: int|
            0 <= i < escape(s).len() && #[trigger] escape(s)[i] == '"' ==> i > 0 && escape(s)[i
                - 1] == '\\',
    decreases s.len(),
{
    if s.len() > 0 {
        lemma_escape_guards_quotes(s.drop_last());
        let before = escape(s.drop_last());
        let piece = escaped_at(s, s.len() - 1);
        assert forall|i: int| 0 <= i < escape(s).len() && #[trigger] escape(s)[i]
            == '"' implies i > 0 && escape(s)[i - 1] == '\\' by {
            if i < before.len() {
                assert(escape(s)[i] == before[i]);
                assert(escape(s)[i - 1] == before[i - 1]);
            } else {
                assert(escape(s)[i] == piece[i - before.len()]);
                assert(i - before.len() == 1);
                assert(escape(s)[i - 1] == piece[0]);
            }
        }
    }
}

/// The words, each followed by `sep`.
pub open spec fn spaced(words: Seq<Seq<char>>, sep: char) -> Seq<char>
    decreases words.len(),
{
    if words.len() == 0 {
        Seq::empty()
    } else {
        spaced(words.drop_last(), sep) + words.last() + seq![sep]
    }
}

/// The lines, one after the other.
pub open spec fn concat(lines: Seq<Seq<char>>) -> Seq<char>
    decreases lines.len(),
{
    if lines.len() == 0 {
        Seq::empty()
    } else {
        concat(lines.drop_last()) + lines.last()
    }
}

/// The pieces of a text, each followed by the separator, are the text
/// followed by the separator: splitting loses nothing, and no piece holds
/// the separator.
pub proof fn lemma_split_joins(s: Seq<char>, sep: char)
    ensures
        split(s, sep).len() > 0,
        spaced(split(s, sep), sep) == s + seq![sep],
        forall|i: int| 0 <= i < split(s, sep).len() ==> !(#[trigger] split(s, sep)[i]).contains(sep),
    decreases s.len(),
{
    let pieces = split(s, sep);
    if s.len() == 0 {
        assert(pieces.drop_last() == Seq::<Seq<char>>::empty());
        assert(pieces.last() == Seq::<char>::empty());
        assert(spaced(pieces.drop_last(), sep) == Seq::<char>::empty());
        assert(spaced(pieces, sep) =~= s + seq![sep]);
    } else {
        let before = split(s.drop_last(), sep);
        lemma_split_joins(s.drop_last(), sep);
        assert(s == s.drop_last().push(s.last()));
        if s.last() == sep {
            assert(pieces.drop_last() == before);
            assert(spaced(pieces, sep) == s + seq![sep]);
        } else {
            assert(pieces.drop_last() == before.drop_last());
            let head = spaced(before.drop_last(), sep);
            assert(head + before.last() + seq![sep] == s.drop_last() + seq![sep]);
            assert((head + before.last() + seq![sep]).drop_last() == head + before.last());
            assert((s.drop_last() + seq![sep]).drop_last() == s.drop_last());
            assert(spaced(pieces, sep) == head + before.last().push(s.last()) + seq![sep]);
            assert(spaced(pieces, sep) == s + seq![sep]);
            assert forall|i: int| 0 <= i < pieces.len() implies !(#[trigger] pieces[i]).contains(
                sep,
            ) by {
                if i < pieces.len() - 1 {
                    assert(pieces[i] == before[i]);
                } else {
                    let last = before.last().push(s.last());
                    if last.contains(sep) {
                        let k = last.index_of(sep);
                        assert(last[k] == sep);
                        assert(before.last()[k] == sep);
                    }
                }
            }
        }
    }
}

/// Packing loses nothing: the lines, one after the other, are the words,
/// each followed by one space.
pub proof fn lemma_pack_keeps_words(words: Seq<Seq<char>>, limit: int)
    ensures
        concat(pack(words, Seq::empty(), limit).done) + pack(words, Seq::empty(), limit).line
            == spaced(words, ' '),
    decreases words.len(),
{
    if words.len() > 0 {
        lemma_pack_keeps_words(words.drop_last(), limit);
        let p = pack(words.drop_last(), Seq::empty(), limit);
        let w = words.last();
        if p.line.len() + w.len() + 1 > limit {
            assert(p.done.push(p.line).drop_last() == p.done);
            assert(concat(p.done.push(p.line)) + (Seq::<char>::empty() + w + seq![' '])
                == concat(p.done) + p.line + w + seq![' ']);
        } else {
            assert(concat(p.done) + (p.line + w + seq![' ']) == concat(p.done) + p.line + w
                + seq![' ']);
        }
    }
}

/// As long as no line is finished, the line being filled holds all the
/// words, and it is within the limit.
proof fn lemma_pack_one_line(words: Seq<Seq<char>>, limit: int)
    requires
        pack(words, Seq::empty(), limit).done.len() == 0,
        words.len() > 0,
    ensures
        pack(words, Seq::empty(), limit).line == spaced(words, ' '),
        spaced(words, ' ').len() <= limit,
    decreases words.len(),
{
    lemma_pack_keeps_words(words, limit);
    let p = pack(words.drop_last(), Seq::empty(), limit);
    assert(concat(Seq::<Seq<char>>::empty()) == Seq::<char>::empty());
    assert(pack(words, Seq::empty(), limit).done == Seq::<Seq<char>>::empty());
    assert(p.done.len() == 0);
    assert(p.done == Seq::<Seq<char>>::empty());
    lemma_pack_keeps_words(words.drop_last(), limit);
    assert(p.line == spaced(words.drop_last(), ' '));
}

/// Words that do not fit in one line take more than one.
pub proof fn lemma_pack_needs_lines(words: Seq<Seq<char>>, limit: int)
    requires
        0 <= limit,
        spaced(words, ' ').len() > limit,
    ensures
        pack(words, Seq::empty(), limit).done.len() > 0,
{
    if words.len() > 0 && pack(words, Seq::empty(), limit).done.len() == 0 {
        lemma_pack_one_line(words, limit);
    }
}

/// Whether each of the words fits in a line of `limit` characters with the
/// space behind it, where the last word has no space behind it.
pub open spec fn words_fit(words: Seq<Seq<char>>, limit: int) -> bool {
    &&& forall|i: int| 0 <= i < words.len() - 1 ==> (#[trigger] words[i]).len() <= limit
    &&& words.len() > 0 ==> words.last().len() <= limit + 1
}

/// Where every word but the last is within `limit` characters, so is, but
/// for the space after its last word, every line.
proof fn lemma_pack_lines_fit(words: Seq<Seq<char>>, limit: int)
    requires
        0 <= limit,
        forall|i: int| 0 <= i < words.len() ==> (#[trigger] words[i]).len() <= limit,
    ensures
        forall|i: int|
            0 <= i < pack(words, Seq::empty(), limit).done.len() ==> (#[trigger] pack(
                words,
                Seq::empty(),
                limit,
            ).done[i]).len() <= limit + 1,
        pack(words, Seq::empty(), limit).line.len() <= limit + 1,
    decreases words.len(),
{
    if words.len() > 0 {
        assert forall|i: int| 0 <= i < words.drop_last().len() implies (#[trigger] words.drop_last()[i]).len()
            <= limit by {
            assert(words.drop_last()[i] == words[i]);
        }
        lemma_pack_lines_fit(words.drop_last(), limit);
    }
}

/// Where the words fit, every line that packing makes has `limit + 1`
/// characters at most, the last line taken without the space at its end.
pub proof fn lemma_pack_fits(words: Seq<Seq<char>>, limit: int)
    requires
        0 <= limit,
        words.len() > 0,
        words_fit(words, limit),
    ensures
        forall|i: int|
            0 <= i < pack(words, Seq::empty(), limit).done.len() ==> (#[trigger] pack(
                words,
                Seq::empty(),
                limit,
            ).done[i]).len() <= limit + 1,
        pack(words, Seq::empty(), limit).line.drop_last().len() <= limit + 1,
{
    assert forall|i: int| 0 <= i < words.drop_last().len() implies (#[trigger] words.drop_last()[i]).len()
        <= limit by {
        assert(words.drop_last()[i] == words[i]);
    }
    lemma_pack_lines_fit(words.drop_last(), limit);
    lemma_pack_line(words, Seq::empty(), limit);
}

/// A message that does not fit in one line is wrapped. Where its escaped
/// text has `MAX_LINE_LENGTH - 3` characters or more, and its words fit, the
/// keyword stands before an empty text, two lines or more follow it, no line
/// has more than `MAX_LINE_LENGTH` characters, a line break stands only
/// between the lines, and the lines, one after the other without their
/// quotes, are the escaped text.
pub proof fn lemma_wrapped_message(key: Seq<char>, msg: Seq<char>)
    requires
        key.len() + 3 + escape(msg).len() > MAX_LINE_LENGTH,
        key.len() + 3 <= MAX_LINE_LENGTH,
        escape(msg).len() >= MAX_LINE_LENGTH - 3,
        words_fit(split(escape(msg), ' '), MAX_LINE_LENGTH - 3),
    ensures
        ({
            let p = pack(split(escape(msg), ' '), Seq::empty(), MAX_LINE_LENGTH - 3);
            &&& message_text(key, msg) == key + seq![' ', '"', '"', '\n'] + quoted_lines(p.done)
                + quoted(p.line.drop_last())
            &&& p.done.len() >= 1
            &&& forall|i: int|
                0 <= i < p.done.len() ==> quoted(#[trigger] p.done[i]).len() <= MAX_LINE_LENGTH
            &&& quoted(p.line.drop_last()).len() <= MAX_LINE_LENGTH
            &&& concat(p.done) + p.line.drop_last() == escape(msg)
            &&& !concat(p.done).contains('\n') && !p.line.contains('\n')
        }),
{
    reveal(message_text);
    let esc = escape(msg);
    let words = split(esc, ' ');
    let p = pack(words, Seq::empty(), MAX_LINE_LENGTH - 3);
    lemma_split_joins(esc, ' ');
    lemma_pack_keeps_words(words, MAX_LINE_LENGTH - 3);
    lemma_pack_needs_lines(words, MAX_LINE_LENGTH - 3);
    lemma_pack_fits(words, MAX_LINE_LENGTH - 3);
    lemma_pack_line(words, Seq::empty(), MAX_LINE_LENGTH - 3);
    lemma_escape_has_no_line_break(msg);
    let all = concat(p.done) + p.line;
    assert(all == esc + seq![' ']);
    assert(all.drop_last() == concat(p.done) + p.line.drop_last());
    assert((esc + seq![' ']).drop_last() == esc);
    if concat(p.done).contains('\n') {
        let k = concat(p.done).index_of('\n');
        assert(all[k] == '\n');
        assert(esc[k] == '\n');
    }
    if p.line.contains('\n') {
        let k = p.line.index_of('\n');
        assert(all[concat(p.done).len() + k] == '\n');
        assert(esc.contains('\n') || (esc + seq![' '])[esc.len() as int] == '\n');
        assert(esc[concat(p.done).len() + k] == '\n');
    }
}

} // verus!

//! The sidecar document format. A document is a single `[mapping]` section;
//! each entry line maps a file base name to an ordered list of tags, a tag
//! being either a quoted string (`Simple`) or a two-element list of quoted
//! strings (`KV`):
//!
//! ```text
//! [mapping]
//! "report.txt" = ["Draft", ["Due", "Friday"]]
//! ```
//!
//! Serialization is specified exactly, character by character; parsing is
//! specified as a total recursive function that also admits blank lines and
//! flexible spacing inside a line. Lists that are not two-element lists of
//! strings are rejected. The round trip is proved in `roundtrip`.

use vstd::prelude::*;

use crate::tag::Tag;
use crate::tag::TagView;
use crate::text::string_from_chars;

verus! {

// ---------------------------------------------------------------------------
// Character classes
// ---------------------------------------------------------------------------
/// Characters that may appear in an unquoted key.
pub open spec fn is_bare_key_char(c: char) -> bool {
    ('a' <= c && c <= 'z') || ('A' <= c && c <= 'Z') || ('0' <= c && c <= '9') || c == '-' || c
        == '_'
}

/// Horizontal whitespace inside a line.
pub open spec fn is_ws_char(c: char) -> bool {
    c == ' ' || c == '\t'
}

/// A key that can be written without quotes.
pub open spec fn is_bare_key(s: Seq<char>) -> bool {
    s.len() > 0 && forall|i: int| 0 <= i < s.len() ==> is_bare_key_char(#[trigger] s[i])
}

pub fn ex_is_bare_key_char(c: char) -> (r: bool)
    ensures
        r == is_bare_key_char(c),
{
    ('a' <= c && c <= 'z') || ('A' <= c && c <= 'Z') || ('0' <= c && c <= '9') || c == '-' || c
        == '_'
}

pub fn ex_is_ws_char(c: char) -> (r: bool)
    ensures
        r == is_ws_char(c),
{
    c == ' ' || c == '\t'
}

// ---------------------------------------------------------------------------
// Serialization, specified
// ---------------------------------------------------------------------------
/// How one character is written inside a quoted string. Only the quote, the
/// backslash and the newline need escaping to keep the framing unambiguous.
pub open spec fn esc_char(c: char) -> Seq<char> {
    if c == '"' {
        seq!['\\', '"']
    } else if c == '\\' {
        seq!['\\', '\\']
    } else if c == '\n' {
        seq!['\\', 'n']
    } else {
        seq![c]
    }
}

/// A string's characters with escapes applied.
pub open spec fn esc(s: Seq<char>) -> Seq<char>
    decreases s.len(),
{
    if s.len() == 0 {
        Seq::empty()
    } else {
        esc_char(s[0]) + esc(s.drop_first())
    }
}

/// A quoted string.
pub open spec fn quoted(s: Seq<char>) -> Seq<char> {
    seq!['"'] + esc(s) + seq!['"']
}

/// A key: bare when possible, quoted otherwise.
pub open spec fn ser_key(s: Seq<char>) -> Seq<char> {
    if is_bare_key(s) {
        s
    } else {
        quoted(s)
    }
}

/// One tag: a quoted string, or a two-element list of quoted strings.
pub open spec fn ser_tag(t: TagView) -> Seq<char> {
    match t {
        TagView::Simple(s) => quoted(s),
        TagView::KV(k, v) => seq!['['] + quoted(k) + seq![',', ' '] + quoted(v) + seq![']'],
    }
}

/// `", tag"` for each element, in order.
pub open spec fn ser_items(ts: Seq<TagView>) -> Seq<char>
    decreases ts.len(),
{
    if ts.len() == 0 {
        Seq::empty()
    } else {
        seq![',', ' '] + ser_tag(ts[0]) + ser_items(ts.drop_first())
    }
}

/// What follows the first tag of a list: the remaining items and the
/// closing bracket.
pub open spec fn ser_tags_rest(ts: Seq<TagView>) -> Seq<char> {
    ser_items(ts) + seq![']']
}

/// A whole tag list, brackets included.
pub open spec fn ser_tag_list(ts: Seq<TagView>) -> Seq<char> {
    if ts.len() == 0 {
        seq!['[', ']']
    } else {
        seq!['['] + ser_tag(ts[0]) + ser_tags_rest(ts.drop_first())
    }
}

/// One entry line, without its terminating newline.
pub open spec fn ser_line_body(name: Seq<char>, ts: Seq<TagView>) -> Seq<char> {
    ser_key(name) + seq![' ', '=', ' '] + ser_tag_list(ts)
}

/// One entry line, newline included.
pub open spec fn ser_line(name: Seq<char>, ts: Seq<TagView>) -> Seq<char> {
    ser_line_body(name, ts) + seq!['\n']
}

/// The section header, `[mapping]`.
pub open spec fn header() -> Seq<char> {
    seq!['[', 'm', 'a', 'p', 'p', 'i', 'n', 'g', ']']
}

/// All entry lines of a mapping, in order.
pub open spec fn ser_lines(m: Seq<(Seq<char>, Seq<TagView>)>) -> Seq<char>
    decreases m.len(),
{
    if m.len() == 0 {
        Seq::empty()
    } else {
        ser_line(m[0].0, m[0].1) + ser_lines(m.drop_first())
    }
}

/// The whole document for a mapping.
pub open spec fn ser_doc(m: Seq<(Seq<char>, Seq<TagView>)>) -> Seq<char> {
    header() + seq!['\n'] + ser_lines(m)
}

// ---------------------------------------------------------------------------
// Small laws of the serializer, used by the executable writers below
// ---------------------------------------------------------------------------
pub proof fn lemma_esc_push(s: Seq<char>, c: char)
    ensures
        esc(s.push(c)) == esc(s) + esc_char(c),
    decreases s.len(),
{
    if s.len() == 0 {
        assert(s.push(c)[0] == c);
        assert(s.push(c).drop_first() =~= Seq::<char>::empty());
        assert(esc(Seq::<char>::empty()) == Seq::<char>::empty());
        assert(esc(s) == Seq::<char>::empty());
        assert(esc(s.push(c)) =~= esc_char(c));
        assert(esc(s) + esc_char(c) =~= esc_char(c));
    } else {
        assert(s.push(c).drop_first() =~= s.drop_first().push(c));
        lemma_esc_push(s.drop_first(), c);
        assert(esc(s.push(c)) =~= esc(s) + esc_char(c));
    }
}

pub proof fn lemma_ser_items_push(ts: Seq<TagView>, t: TagView)
    ensures
        ser_items(ts.push(t)) == ser_items(ts) + seq![',', ' '] + ser_tag(t),
    decreases ts.len(),
{
    if ts.len() == 0 {
        assert(ts.push(t)[0] == t);
        assert(ts.push(t).drop_first() =~= Seq::<TagView>::empty());
        assert(ser_items(Seq::<TagView>::empty()) == Seq::<char>::empty());
        assert(ser_items(ts) == Seq::<char>::empty());
        assert(ser_items(ts.push(t)) =~= ser_items(ts) + seq![',', ' '] + ser_tag(t));
    } else {
        assert(ts.push(t).drop_first() =~= ts.drop_first().push(t));
        lemma_ser_items_push(ts.drop_first(), t);
        assert(ser_items(ts.push(t)) =~= ser_items(ts) + seq![',', ' '] + ser_tag(t));
    }
}

pub proof fn lemma_ser_lines_push(m: Seq<(Seq<char>, Seq<TagView>)>, e: (Seq<char>, Seq<TagView>))
    ensures
        ser_lines(m.push(e)) == ser_lines(m) + ser_line(e.0, e.1),
    decreases m.len(),
{
    if m.len() == 0 {
        assert(m.push(e)[0] == e);
        assert(m.push(e).drop_first() =~= Seq::<(Seq<char>, Seq<TagView>)>::empty());
        assert(ser_lines(Seq::<(Seq<char>, Seq<TagView>)>::empty()) == Seq::<char>::empty());
        assert(ser_lines(m) == Seq::<char>::empty());
        assert(ser_lines(m.push(e)) =~= ser_lines(m) + ser_line(e.0, e.1));
    } else {
        assert(m.push(e).drop_first() =~= m.drop_first().push(e));
        lemma_ser_lines_push(m.drop_first(), e);
        assert(ser_lines(m.push(e)) =~= ser_lines(m) + ser_line(e.0, e.1));
    }
}

// ---------------------------------------------------------------------------
// Executable writers
// ---------------------------------------------------------------------------
/// Appends the characters of `s` unchanged.
pub fn push_raw(out: &mut Vec<char>, s: &str)
    ensures
        final(out)@ == old(out)@ + s@,
{
    let mut cs = crate::text::chars_of(s);
    out.append(&mut cs);
}

/// Appends `esc(s@)`.
pub fn push_escaped(out: &mut Vec<char>, s: &str)
    ensures
        final(out)@ == old(out)@ + esc(s@),
{
    let cs = crate::text::chars_of(s);
    let mut i: usize = 0;
    proof {
        assert(s@.take(0) =~= Seq::<char>::empty());
        assert(out@ =~= old(out)@ + esc(s@.take(0)));
    }
    while i < cs.len()
        invariant
            i <= cs@.len(),
            cs@ == s@,
            out@ == old(out)@ + esc(s@.take(i as int)),
        decreases cs@.len() - i,
    {
        let c = cs[i];
        if c == '"' {
            out.push('\\');
            out.push('"');
        } else if c == '\\' {
            out.push('\\');
            out.push('\\');
        } else if c == '\n' {
            out.push('\\');
            out.push('n');
        } else {
            out.push(c);
        }
        proof {
            lemma_esc_push(s@.take(i as int), s@[i as int]);
            assert(s@.take(i + 1 as int) =~= s@.take(i as int).push(s@[i as int]));
            assert(out@ =~= old(out)@ + esc(s@.take(i + 1 as int)));
        }
        i = i + 1;
    }
    proof {
        assert(s@.take(s@.len() as int) =~= s@);
    }
}

/// Appends `quoted(s@)`.
pub fn push_quoted(out: &mut Vec<char>, s: &str)
    ensures
        final(out)@ == old(out)@ + quoted(s@),
{
    out.push('"');
    push_escaped(out, s);
    out.push('"');
    proof {
        assert(out@ =~= old(out)@ + quoted(s@));
    }
}

/// Whether `s@` can be written as a bare key.
pub fn is_bare_key_str(s: &str) -> (r: bool)
    ensures
        r == is_bare_key(s@),
{
    let cs = crate::text::chars_of(s);
    if cs.len() == 0 {
        return false;
    }
    let mut i: usize = 0;
    while i < cs.len()
        invariant
            i <= cs@.len(),
            cs@ == s@,
            forall|j: int| 0 <= j < i ==> is_bare_key_char(#[trigger] s@[j]),
        decreases cs@.len() - i,
    {
        if !ex_is_bare_key_char(cs[i]) {
            return false;
        }
        i = i + 1;
    }
    true
}

/// Appends `ser_key(s@)`.
pub fn push_key(out: &mut Vec<char>, s: &str)
    ensures
        final(out)@ == old(out)@ + ser_key(s@),
{
    if is_bare_key_str(s) {
        push_raw(out, s);
    } else {
        push_quoted(out, s);
    }
}

/// Appends `ser_tag(t@)`.
pub fn push_tag(out: &mut Vec<char>, t: &Tag)
    ensures
        final(out)@ == old(out)@ + ser_tag(t@),
{
    match t {
        Tag::Simple(s) => {
            push_quoted(out, s.as_str());
        },
        Tag::KV(k, v) => {
            out.push('[');
            push_quoted(out, k.as_str());
            out.push(',');
            out.push(' ');
            push_quoted(out, v.as_str());
            out.push(']');
            proof {
                assert(out@ =~= old(out)@ + ser_tag(t@));
            }
        },
    }
}

/// Appends `ser_tag_list(ts.deep_view())`.
pub fn push_tag_list(out: &mut Vec<char>, ts: &Vec<Tag>)
    ensures
        final(out)@ == old(out)@ + ser_tag_list(ts.deep_view()),
{
    out.push('[');
    if ts.len() == 0 {
        out.push(']');
        proof {
            assert(ts.deep_view().len() == 0);
            assert(out@ =~= old(out)@ + ser_tag_list(ts.deep_view()));
        }
        return ;
    }
    push_tag(out, &ts[0]);
    let ghost dv = ts.deep_view();
    let mut i: usize = 1;
    proof {
        assert(dv.subrange(1, 1) =~= Seq::<TagView>::empty());
        assert(out@ =~= old(out)@ + seq!['['] + ser_tag(dv[0]) + ser_items(dv.subrange(1, 1)));
    }
    while i < ts.len()
        invariant
            1 <= i <= dv.len(),
            dv == ts.deep_view(),
            dv.len() == ts@.len(),
            out@ == old(out)@ + seq!['['] + ser_tag(dv[0]) + ser_items(dv.subrange(1, i as int)),
        decreases dv.len() - i,
    {
        out.push(',');
        out.push(' ');
        push_tag(out, &ts[i]);
        proof {
            lemma_ser_items_push(dv.subrange(1, i as int), dv[i as int]);
            assert(dv.subrange(1, i + 1 as int) =~= dv.subrange(1, i as int).push(dv[i as int]));
            assert(out@ =~= old(out)@ + seq!['['] + ser_tag(dv[0]) + ser_items(
                dv.subrange(1, i + 1 as int),
            ));
        }
        i = i + 1;
    }
    out.push(']');
    proof {
        assert(dv.subrange(1, dv.len() as int) =~= dv.drop_first());
        assert(out@ =~= old(out)@ + ser_tag_list(dv));
    }
}

// ---------------------------------------------------------------------------
// Parsing, specified
// ---------------------------------------------------------------------------
/// What a backslash escape stands for; `None` for an unknown escape.
pub open spec fn unesc_char(c: char) -> Option<char> {
    if c == '"' {
        Some('"')
    } else if c == '\\' {
        Some('\\')
    } else if c == 'n' {
        Some('\n')
    } else if c == 't' {
        Some('\t')
    } else if c == 'r' {
        Some('\r')
    } else {
        None
    }
}

/// How many whitespace characters run from position `i`.
pub open spec fn ws_count(l: Seq<char>, i: int) -> nat
    decreases l.len() - i,
{
    if 0 <= i < l.len() && is_ws_char(l[i]) {
        1 + ws_count(l, i + 1)
    } else {
        0
    }
}

/// How many bare-key characters run from position `i`.
pub open spec fn bare_count(l: Seq<char>, i: int) -> nat
    decreases l.len() - i,
{
    if 0 <= i < l.len() && is_bare_key_char(l[i]) {
        1 + bare_count(l, i + 1)
    } else {
        0
    }
}

/// The content of a quoted string whose opening quote sits just before `i`,
/// together with the number of characters consumed, closing quote included.
pub open spec fn parse_qstring(l: Seq<char>, i: int) -> Option<(Seq<char>, nat)>
    decreases l.len() - i,
{
    if !(0 <= i < l.len()) {
        None
    } else if l[i] == '"' {
        Some((Seq::empty(), 1 as nat))
    } else if l[i] == '\\' {
        if i + 1 < l.len() {
            match unesc_char(l[i + 1]) {
                Some(c) => match parse_qstring(l, i + 2) {
                    Some(r) => Some((seq![c] + r.0, (2 + r.1) as nat)),
                    None => None,
                },
                None => None,
            }
        } else {
            None
        }
    } else {
        match parse_qstring(l, i + 1) {
            Some(r) => Some((seq![l[i]] + r.0, (1 + r.1) as nat)),
            None => None,
        }
    }
}

/// A quoted string starting at `i`, quotes included in the count.
pub open spec fn parse_string_at(l: Seq<char>, i: int) -> Option<(Seq<char>, nat)> {
    if 0 <= i < l.len() && l[i] == '"' {
        match parse_qstring(l, i + 1) {
            Some(r) => Some((r.0, (1 + r.1) as nat)),
            None => None,
        }
    } else {
        None
    }
}

/// A key starting at `i`: quoted, or a nonempty run of bare characters.
pub open spec fn parse_key_at(l: Seq<char>, i: int) -> Option<(Seq<char>, nat)> {
    if 0 <= i < l.len() && l[i] == '"' {
        parse_string_at(l, i)
    } else if 0 <= i && bare_count(l, i) > 0 {
        Some((l.subrange(i, i + bare_count(l, i)), bare_count(l, i)))
    } else {
        None
    }
}

/// One tag starting at `i`: a quoted string, or a bracketed pair of quoted
/// strings. A bracketed list with any other element count or element kind
/// is rejected.
pub open spec fn parse_tag_at(l: Seq<char>, i: int) -> Option<(TagView, nat)> {
    if 0 <= i < l.len() && l[i] == '"' {
        match parse_string_at(l, i) {
            Some(r) => Some((TagView::Simple(r.0), r.1)),
            None => None,
        }
    } else if 0 <= i < l.len() && l[i] == '[' {
        let w1 = ws_count(l, i + 1);
        match parse_string_at(l, i + 1 + w1) {
            Some(k) => {
                let j2 = i + 1 + w1 + k.1;
                let w2 = ws_count(l, j2);
                if j2 + w2 < l.len() && l[j2 + w2] == ',' {
                    let w3 = ws_count(l, j2 + w2 + 1);
                    match parse_string_at(l, j2 + w2 + 1 + w3) {
                        Some(v) => {
                            let j5 = j2 + w2 + 1 + w3 + v.1;
                            let w4 = ws_count(l, j5);
                            if j5 + w4 < l.len() && l[j5 + w4] == ']' {
                                Some(
                                    (
                                        TagView::KV(k.0, v.0),
                                        (1 + w1 + k.1 + w2 + 1 + w3 + v.1 + w4 + 1) as nat,
                                    ),
                                )
                            } else {
                                None
                            }
                        },
                        None => None,
                    }
                } else {
                    None
                }
            },
            None => None,
        }
    } else {
        None
    }
}

/// What follows a tag inside a list: either the closing bracket, or a comma
/// and a further tag, repeated.
pub open spec fn parse_tags_rest_at(l: Seq<char>, i: int) -> Option<(Seq<TagView>, nat)>
    decreases l.len() - i,
{
    let w = ws_count(l, i);
    if !(0 <= i) {
        None
    } else if i + w < l.len() && l[i + w] == ']' {
        Some((Seq::empty(), (w + 1) as nat))
    } else if i + w < l.len() && l[i + w] == ',' {
        let w2 = ws_count(l, i + w + 1);
        match parse_tag_at(l, i + w + 1 + w2) {
            Some(t) => {
                let j = i + w + 1 + w2 + t.1;
                if j <= l.len() {
                    match parse_tags_rest_at(l, j) {
                        Some(r) => Some((seq![t.0] + r.0, (w + 1 + w2 + t.1 + r.1) as nat)),
                        None => None,
                    }
                } else {
                    None
                }
            },
            None => None,
        }
    } else {
        None
    }
}

/// A whole bracketed tag list starting at `i`.
pub open spec fn parse_tag_list_at(l: Seq<char>, i: int) -> Option<(Seq<TagView>, nat)> {
    if 0 <= i < l.len() && l[i] == '[' {
        let w = ws_count(l, i + 1);
        if i + 1 + w < l.len() && l[i + 1 + w] == ']' {
            Some((Seq::empty(), (1 + w + 1) as nat))
        } else {
            match parse_tag_at(l, i + 1 + w) {
                Some(t) => {
                    let j = i + 1 + w + t.1;
                    if j <= l.len() {
                        match parse_tags_rest_at(l, j) {
                            Some(r) => Some((seq![t.0] + r.0, (1 + w + t.1 + r.1) as nat)),
                            None => None,
                        }
                    } else {
                        None
                    }
                },
                None => None,
            }
        }
    } else {
        None
    }
}

/// One entry line: a key, `=`, a tag list, and nothing but whitespace after.
pub open spec fn parse_line(l: Seq<char>) -> Option<(Seq<char>, Seq<TagView>)> {
    match parse_key_at(l, 0) {
        Some(k) => {
            let w1 = ws_count(l, k.1 as int);
            let j = (k.1 + w1) as int;
            if j < l.len() && l[j] == '=' {
                let w2 = ws_count(l, j + 1);
                match parse_tag_list_at(l, j + 1 + w2) {
                    Some(ts) => {
                        let e = j + 1 + w2 + ts.1;
                        if e + ws_count(l, e) == l.len() {
                            Some((k.0, ts.0))
                        } else {
                            None
                        }
                    },
                    None => None,
                }
            } else {
                None
            }
        },
        None => None,
    }
}

/// A line holding only whitespace.
pub open spec fn is_blank_line(l: Seq<char>) -> bool {
    ws_count(l, 0) == l.len()
}

/// The document split at newlines; always at least one line.
pub open spec fn split_lines(s: Seq<char>) -> Seq<Seq<char>>
    decreases s.len(),
{
    if s.len() == 0 {
        seq![Seq::<char>::empty()]
    } else if s[0] == '\n' {
        seq![Seq::<char>::empty()] + split_lines(s.drop_first())
    } else {
        let r = split_lines(s.drop_first());
        seq![seq![s[0]] + r[0]] + r.drop_first()
    }
}

/// Skips blank lines; the first other line must be the `[mapping]` header.
/// Returns the index of the line after it.
pub open spec fn find_header_from(ls: Seq<Seq<char>>, i: int) -> Option<int>
    decreases ls.len() - i,
{
    if !(0 <= i < ls.len()) {
        None
    } else if is_blank_line(ls[i]) {
        find_header_from(ls, i + 1)
    } else if ls[i] == header() {
        Some(i + 1)
    } else {
        None
    }
}

/// The entries of the lines from `i` on, blank lines skipped; `None` as
/// soon as one line fails to parse.
pub open spec fn parse_entry_lines_from(ls: Seq<Seq<char>>, i: int) -> Option<
    Seq<(Seq<char>, Seq<TagView>)>,
>
    decreases ls.len() - i,
{
    if !(0 <= i < ls.len()) {
        Some(Seq::empty())
    } else if is_blank_line(ls[i]) {
        parse_entry_lines_from(ls, i + 1)
    } else {
        match parse_line(ls[i]) {
            Some(e) => match parse_entry_lines_from(ls, i + 1) {
                Some(m) => Some(seq![(e.0, e.1)] + m),
                None => None,
            },
            None => None,
        }
    }
}

/// No two entries share a file name.
pub open spec fn distinct_keys(m: Seq<(Seq<char>, Seq<TagView>)>) -> bool {
    forall|i: int, j: int| 0 <= i < j < m.len() ==> m[i].0 != m[j].0
}

/// The mapping a whole document denotes: header, entry lines, distinct
/// keys. Blank lines are admitted anywhere.
pub open spec fn parse_doc(s: Seq<char>) -> Option<Seq<(Seq<char>, Seq<TagView>)>> {
    let ls = split_lines(s);
    match find_header_from(ls, 0) {
        Some(j) => match parse_entry_lines_from(ls, j) {
            Some(m) => if distinct_keys(m) {
                Some(m)
            } else {
                None
            },
            None => None,
        },
        None => None,
    }
}

// ---------------------------------------------------------------------------
// Executable parser
// ---------------------------------------------------------------------------
pub fn ex_unesc_char(c: char) -> (r: Option<char>)
    ensures
        r == unesc_char(c),
{
    if c == '"' {
        Some('"')
    } else if c == '\\' {
        Some('\\')
    } else if c == 'n' {
        Some('\n')
    } else if c == 't' {
        Some('\t')
    } else if c == 'r' {
        Some('\r')
    } else {
        None
    }
}

pub fn ex_ws_count(l: &Vec<char>, i: usize) -> (r: usize)
    requires
        i <= l@.len(),
    ensures
        r == ws_count(l@, i as int),
        i + r <= l@.len(),
{
    let mut j = i;
    while j < l.len() && ex_is_ws_char(l[j])
        invariant
            i <= j <= l@.len(),
            ws_count(l@, i as int) == (j - i) + ws_count(l@, j as int),
        decreases l@.len() - j,
    {
        proof {
            assert(ws_count(l@, j as int) == 1 + ws_count(l@, j + 1 as int));
        }
        j = j + 1;
    }
    proof {
        assert(ws_count(l@, j as int) == 0);
    }
    j - i
}

pub fn ex_bare_count(l: &Vec<char>, i: usize) -> (r: usize)
    requires
        i <= l@.len(),
    ensures
        r == bare_count(l@, i as int),
        i + r <= l@.len(),
{
    let mut j = i;
    while j < l.len() && ex_is_bare_key_char(l[j])
        invariant
            i <= j <= l@.len(),
            bare_count(l@, i as int) == (j - i) + bare_count(l@, j as int),
        decreases l@.len() - j,
    {
        proof {
            assert(bare_count(l@, j as int) == 1 + bare_count(l@, j + 1 as int));
        }
        j = j + 1;
    }
    proof {
        assert(bare_count(l@, j as int) == 0);
    }
    j - i
}

pub fn ex_parse_qstring(l: &Vec<char>, i: usize) -> (r: Option<(Vec<char>, usize)>)
    requires
        i <= l@.len(),
    ensures
        match parse_qstring(l@, i as int) {
            Some(s) => r matches Some(x) && x.0@ == s.0 && x.1 == s.1 && i + s.1 <= l@.len(),
            None => r is None,
        },
{
    let mut acc: Vec<char> = Vec::new();
    let mut j: usize = i;
    loop
        invariant
            i <= j <= l@.len(),
            match parse_qstring(l@, j as int) {
                Some(s) => parse_qstring(l@, i as int) matches Some(w) && w.0 == acc@ + s.0
                    && w.1 == (j - i) + s.1,
                None => parse_qstring(l@, i as int) is None,
            },
        decreases l@.len() - j,
    {
        if j >= l.len() {
            proof {
                assert(parse_qstring(l@, j as int) is None);
            }
            return None;
        }
        let c = l[j];
        if c == '"' {
            proof {
                assert(parse_qstring(l@, j as int) matches Some(s) && s.0 == Seq::<char>::empty()
                    && s.1 == 1);
                assert(acc@ + Seq::<char>::empty() =~= acc@);
            }
            return Some((acc, j + 1 - i));
        }
        if c == '\\' {
            if j + 1 >= l.len() {
                proof {
                    assert(parse_qstring(l@, j as int) is None);
                }
                return None;
            }
            let d = l[j + 1];
            match ex_unesc_char(d) {
                Some(cc) => {
                    proof {
                        let jn = j + 2 as int;
                        match parse_qstring(l@, jn) {
                            Some(s) => {
                                assert(acc@ + (seq![cc] + s.0) =~= acc@.push(cc) + s.0);
                            },
                            None => {},
                        }
                    }
                    acc.push(cc);
                    j = j + 2;
                },
                None => {
                    proof {
                        assert(parse_qstring(l@, j as int) is None);
                    }
                    return None;
                },
            }
        } else {
            proof {
                let jn = j + 1 as int;
                match parse_qstring(l@, jn) {
                    Some(s) => {
                        assert(acc@ + (seq![l@[j as int]] + s.0) =~= acc@.push(l@[j as int]) + s.0);
                    },
                    None => {},
                }
            }
            acc.push(c);
            j = j + 1;
        }
    }
}

pub fn ex_parse_string_at(l: &Vec<char>, i: usize) -> (r: Option<(Vec<char>, usize)>)
    requires
        i <= l@.len(),
    ensures
        match parse_string_at(l@, i as int) {
            Some(s) => r matches Some(x) && x.0@ == s.0 && x.1 == s.1 && i + s.1 <= l@.len(),
            None => r is None,
        },
{
    if i < l.len() && l[i] == '"' {
        match ex_parse_qstring(l, i + 1) {
            Some((v, n)) => Some((v, n + 1)),
            None => None,
        }
    } else {
        None
    }
}

/// Copies `l[i .. i + n]`.
fn copy_range(l: &Vec<char>, i: usize, n: usize) -> (r: Vec<char>)
    requires
        i + n <= l@.len(),
    ensures
        r@ == l@.subrange(i as int, i + n),
{
    let ll = l.len();
    let mut v: Vec<char> = Vec::new();
    let mut k: usize = 0;
    while k < n
        invariant
            k <= n,
            ll == l@.len(),
            i + n <= ll,
            v@ == l@.subrange(i as int, i + k),
        decreases n - k,
    {
        v.push(l[i + k]);
        proof {
            assert(v@ =~= l@.subrange(i as int, i + k + 1));
        }
        k = k + 1;
    }
    v
}

pub fn ex_parse_key_at(l: &Vec<char>, i: usize) -> (r: Option<(Vec<char>, usize)>)
    requires
        i <= l@.len(),
    ensures
        match parse_key_at(l@, i as int) {
            Some(s) => r matches Some(x) && x.0@ == s.0 && x.1 == s.1 && i + s.1 <= l@.len(),
            None => r is None,
        },
{
    if i < l.len() && l[i] == '"' {
        ex_parse_string_at(l, i)
    } else {
        let b = ex_bare_count(l, i);
        if b > 0 {
            Some((copy_range(l, i, b), b))
        } else {
            None
        }
    }
}

pub fn ex_parse_tag_at(l: &Vec<char>, i: usize) -> (r: Option<(Tag, usize)>)
    requires
        i <= l@.len(),
    ensures
        match parse_tag_at(l@, i as int) {
            Some(s) => r matches Some(x) && x.0@ == s.0 && x.1 == s.1 && i + s.1 <= l@.len(),
            None => r is None,
        },
{
    if i < l.len() && l[i] == '"' {
        match ex_parse_string_at(l, i) {
            Some((v, n)) => Some((Tag::Simple(string_from_chars(&v)), n)),
            None => None,
        }
    } else if i < l.len() && l[i] == '[' {
        let w1 = ex_ws_count(l, i + 1);
        let (k, n1) = match ex_parse_string_at(l, i + 1 + w1) {
            Some(x) => x,
            None => {
                return None;
            },
        };
        let j2 = i + 1 + w1 + n1;
        let w2 = ex_ws_count(l, j2);
        if !(j2 + w2 < l.len() && l[j2 + w2] == ',') {
            return None;
        }
        let w3 = ex_ws_count(l, j2 + w2 + 1);
        let (v, n2) = match ex_parse_string_at(l, j2 + w2 + 1 + w3) {
            Some(x) => x,
            None => {
                return None;
            },
        };
        let j5 = j2 + w2 + 1 + w3 + n2;
        let w4 = ex_ws_count(l, j5);
        if !(j5 + w4 < l.len() && l[j5 + w4] == ']') {
            return None;
        }
        Some(
            (
                Tag::KV(string_from_chars(&k), string_from_chars(&v)),
                1 + w1 + n1 + w2 + 1 + w3 + n2 + w4 + 1,
            ),
        )
    } else {
        None
    }
}

pub fn ex_parse_tags_rest_at(l: &Vec<char>, i: usize) -> (r: Option<(Vec<Tag>, usize)>)
    requires
        i <= l@.len(),
    ensures
        match parse_tags_rest_at(l@, i as int) {
            Some(s) => r matches Some(x) && x.0.deep_view() == s.0 && x.1 == s.1 && i + s.1
                <= l@.len(),
            None => r is None,
        },
{
    let ll = l.len();
    let mut acc: Vec<Tag> = Vec::new();
    let mut j: usize = i;
    proof {
        assert(acc.deep_view() =~= Seq::<TagView>::empty());
    }
    loop
        invariant
            ll == l@.len(),
            i <= j <= l@.len(),
            match parse_tags_rest_at(l@, j as int) {
                Some(s) => parse_tags_rest_at(l@, i as int) matches Some(w) && w.0
                    == acc.deep_view() + s.0 && w.1 == (j - i) + s.1,
                None => parse_tags_rest_at(l@, i as int) is None,
            },
        decreases l@.len() - j,
    {
        let w = ex_ws_count(l, j);
        if j + w < l.len() && l[j + w] == ']' {
            proof {
                assert(parse_tags_rest_at(l@, j as int) matches Some(s) && s.0 == Seq::<
                    TagView,
                >::empty() && s.1 == w + 1);
                assert(acc.deep_view() + Seq::<TagView>::empty() =~= acc.deep_view());
            }
            return Some((acc, j + w + 1 - i));
        }
        if !(j + w < l.len() && l[j + w] == ',') {
            proof {
                assert(parse_tags_rest_at(l@, j as int) is None);
            }
            return None;
        }
        let w2 = ex_ws_count(l, j + w + 1);
        match ex_parse_tag_at(l, j + w + 1 + w2) {
            Some((t, c)) => {
                proof {
                    let jn = (j + w + 1 + w2 + c) as int;
                    match parse_tags_rest_at(l@, jn) {
                        Some(s) => {
                            assert(acc.deep_view() + (seq![t@] + s.0) =~= acc.deep_view().push(t@)
                                + s.0);
                        },
                        None => {},
                    }
                }
                let ghost old_acc = acc;
                acc.push(t);
                proof {
                    assert(acc.deep_view() =~= old_acc.deep_view().push(t@));
                }
                j = j + w + 1 + w2 + c;
            },
            None => {
                proof {
                    assert(parse_tags_rest_at(l@, j as int) is None);
                }
                return None;
            },
        }
    }
}

pub fn ex_parse_tag_list_at(l: &Vec<char>, i: usize) -> (r: Option<(Vec<Tag>, usize)>)
    requires
        i <= l@.len(),
    ensures
        match parse_tag_list_at(l@, i as int) {
            Some(s) => r matches Some(x) && x.0.deep_view() == s.0 && x.1 == s.1 && i + s.1
                <= l@.len(),
            None => r is None,
        },
{
    if !(i < l.len() && l[i] == '[') {
        return None;
    }
    let w = ex_ws_count(l, i + 1);
    if i + 1 + w < l.len() && l[i + 1 + w] == ']' {
        let empty_tags: Vec<Tag> = Vec::new();
        proof {
            assert(empty_tags.deep_view() =~= Seq::<TagView>::empty());
        }
        return Some((empty_tags, 1 + w + 1));
    }
    let (t, c) = match ex_parse_tag_at(l, i + 1 + w) {
        Some(x) => x,
        None => {
            return None;
        },
    };
    match ex_parse_tags_rest_at(l, i + 1 + w + c) {
        Some((ts, c2)) => {
            let mut out: Vec<Tag> = Vec::new();
            out.push(t);
            let mut rest = ts;
            let ghost spec_rest = rest.deep_view();
            let ghost tv = out.deep_view();
            out.append(&mut rest);
            proof {
                assert(out.deep_view() =~= tv + spec_rest);
                assert(tv =~= seq![t@]);
            }
            Some((out, 1 + w + c + c2))
        },
        None => None,
    }
}

pub fn ex_parse_line(l: &Vec<char>) -> (r: Option<(String, Vec<Tag>)>)
    ensures
        match parse_line(l@) {
            Some(e) => r matches Some(x) && x.0@ == e.0 && x.1.deep_view() == e.1,
            None => r is None,
        },
{
    let (k, c) = match ex_parse_key_at(l, 0) {
        Some(x) => x,
        None => {
            return None;
        },
    };
    let ll = l.len();
    let w1 = ex_ws_count(l, c);
    let j = c + w1;
    if !(j < l.len() && l[j] == '=') {
        return None;
    }
    let w2 = ex_ws_count(l, j + 1);
    let (ts, c2) = match ex_parse_tag_list_at(l, j + 1 + w2) {
        Some(x) => x,
        None => {
            return None;
        },
    };
    let e = j + 1 + w2 + c2;
    let w3 = ex_ws_count(l, e);
    if e + w3 != l.len() {
        return None;
    }
    Some((string_from_chars(&k), ts))
}

pub fn ex_is_blank_line(l: &Vec<char>) -> (r: bool)
    ensures
        r == is_blank_line(l@),
{
    let w = ex_ws_count(l, 0);
    w == l.len()
}

/// Whether a line is exactly the `[mapping]` header.
pub fn ex_is_header_line(l: &Vec<char>) -> (r: bool)
    ensures
        r == (l@ == header()),
{
    if l.len() != 9 {
        return false;
    }
    let r = l[0] == '[' && l[1] == 'm' && l[2] == 'a' && l[3] == 'p' && l[4] == 'p' && l[5] == 'i'
        && l[6] == 'n' && l[7] == 'g' && l[8] == ']';
    proof {
        if r {
            assert(l@ =~= header());
        } else {
            assert(l@ != header());
        }
    }
    r
}

/// `ls` with `p` prepended to its first line.
pub open spec fn prepend_first(p: Seq<char>, ls: Seq<Seq<char>>) -> Seq<Seq<char>> {
    seq![p + ls[0]] + ls.drop_first()
}

pub proof fn lemma_split_lines_nonempty(s: Seq<char>)
    ensures
        split_lines(s).len() >= 1,
    decreases s.len(),
{
    if s.len() == 0 {
    } else if s[0] == '\n' {
        lemma_split_lines_nonempty(s.drop_first());
    } else {
        lemma_split_lines_nonempty(s.drop_first());
    }
}

pub fn ex_split_lines(s: &Vec<char>) -> (r: Vec<Vec<char>>)
    ensures
        r.deep_view() == split_lines(s@),
{
    let mut done: Vec<Vec<char>> = Vec::new();
    let mut cur: Vec<char> = Vec::new();
    let mut j: usize = 0;
    proof {
        lemma_split_lines_nonempty(s@);
        assert(s@.skip(0) =~= s@);
        assert(done.deep_view() =~= Seq::<Seq<char>>::empty());
        assert(Seq::<char>::empty() + split_lines(s@)[0] =~= split_lines(s@)[0]);
        assert(prepend_first(cur@, split_lines(s@.skip(0))) =~= split_lines(s@));
    }
    while j < s.len()
        invariant
            j <= s@.len(),
            split_lines(s@) == done.deep_view() + prepend_first(cur@, split_lines(s@.skip(j as int))),
        decreases s@.len() - j,
    {
        let c = s[j];
        let ghost pre_done = done.deep_view();
        let ghost pre_cur = cur@;
        let ghost jj = j as int;
        if c == '\n' {
            done.push(cur);
            cur = Vec::new();
        } else {
            cur.push(c);
        }
        j = j + 1;
        proof {
            let rest = s@.skip(jj);
            let rest2 = s@.skip(jj + 1);
            assert(rest[0] == s@[jj]);
            assert(rest.drop_first() =~= rest2);
            lemma_split_lines_nonempty(rest2);
            if c == '\n' {
                assert(split_lines(rest) == seq![Seq::<char>::empty()] + split_lines(rest2));
                assert(prepend_first(pre_cur, split_lines(rest)) =~= seq![pre_cur] + split_lines(
                    rest2,
                ));
                assert(done.deep_view() =~~= pre_done.push(pre_cur));
                assert(pre_done + (seq![pre_cur] + split_lines(rest2)) =~= done.deep_view()
                    + split_lines(rest2));
                assert(Seq::<char>::empty() + split_lines(rest2)[0] =~= split_lines(rest2)[0]);
                assert(prepend_first(cur@, split_lines(rest2)) =~= split_lines(rest2));
            } else {
                let rr = split_lines(rest2);
                assert(split_lines(rest) == seq![seq![rest[0]] + rr[0]] + rr.drop_first());
                assert(pre_cur + (seq![s@[jj]] + rr[0]) =~= pre_cur.push(s@[jj]) + rr[0]);
                assert(cur@ == pre_cur.push(s@[jj]));
                assert(prepend_first(pre_cur, split_lines(rest)) =~= prepend_first(cur@, rr));
            }
        }
    }
    let ghost pre_done = done.deep_view();
    let ghost pre_cur = cur@;
    done.push(cur);
    proof {
        assert(s@.skip(s@.len() as int) =~= Seq::<char>::empty());
        assert(split_lines(Seq::<char>::empty()) == seq![Seq::<char>::empty()]);
        assert(pre_cur + Seq::<char>::empty() =~= pre_cur);
        assert(prepend_first(pre_cur, split_lines(s@.skip(s@.len() as int))) =~= seq![pre_cur]);
        assert(done.deep_view() =~~= pre_done.push(pre_cur));
        assert(pre_done + seq![pre_cur] =~= done.deep_view());
    }
    done
}

/// The whole document for a mapping, as text.
pub fn write_document(m: &Vec<(String, Vec<Tag>)>) -> (r: String)
    ensures
        r@ == ser_doc(m.deep_view()),
{
    let ghost dv = m.deep_view();
    let mut out: Vec<char> = Vec::new();
    out.push('[');
    out.push('m');
    out.push('a');
    out.push('p');
    out.push('p');
    out.push('i');
    out.push('n');
    out.push('g');
    out.push(']');
    out.push('\n');
    proof {
        assert(out@ =~= header() + seq!['\n']);
        assert(dv.take(0) =~= Seq::<(Seq<char>, Seq<TagView>)>::empty());
        assert(ser_lines(dv.take(0)) == Seq::<char>::empty());
        assert(out@ =~= header() + seq!['\n'] + ser_lines(dv.take(0)));
    }
    let mut i: usize = 0;
    while i < m.len()
        invariant
            i <= dv.len(),
            dv == m.deep_view(),
            dv.len() == m@.len(),
            out@ == header() + seq!['\n'] + ser_lines(dv.take(i as int)),
        decreases dv.len() - i,
    {
        push_line(&mut out, m[i].0.as_str(), &m[i].1);
        proof {
            assert(dv[i as int] == (m@[i as int].0@, m@[i as int].1.deep_view()));
            lemma_ser_lines_push(dv.take(i as int), dv[i as int]);
            assert(dv.take(i + 1 as int) =~= dv.take(i as int).push(dv[i as int]));
            assert(out@ =~= header() + seq!['\n'] + ser_lines(dv.take(i + 1 as int)));
        }
        i = i + 1;
    }
    proof {
        assert(dv.take(dv.len() as int) =~= dv);
    }
    string_from_chars(&out)
}

/// Reads a whole document back into its entries, in document order.
/// `None` when the text is not a well-formed document, or when two entries
/// share a file name.
pub fn parse_document(doc: &str) -> (r: Option<Vec<(String, Vec<Tag>)>>)
    ensures
        match parse_doc(doc@) {
            Some(m) => r matches Some(v) && v.deep_view() == m,
            None => r is None,
        },
{
    let cs = crate::text::chars_of(doc);
    let lines = ex_split_lines(&cs);
    let ghost ls = lines.deep_view();
    // Find the header line.
    let mut j: usize = 0;
    let mut he: usize = 0;
    loop
        invariant_except_break
            j <= ls.len(),
            find_header_from(ls, 0) == find_header_from(ls, j as int),
        invariant
            ls == split_lines(doc@),
            ls == lines.deep_view(),
            ls.len() == lines@.len(),
            forall|k: int| 0 <= k < ls.len() ==> #[trigger] ls[k] == lines@[k]@,
        ensures
            find_header_from(ls, 0) == Some(he as int),
            he <= ls.len(),
        decreases ls.len() - j,
    {
        if j >= lines.len() {
            proof {
                assert(find_header_from(ls, j as int) is None);
            }
            return None;
        }
        if ex_is_blank_line(&lines[j]) {
            proof {
                assert(find_header_from(ls, j as int) == find_header_from(ls, j + 1 as int));
            }
            j = j + 1;
            continue ;
        }
        if ex_is_header_line(&lines[j]) {
            proof {
                assert(find_header_from(ls, j as int) == Some(j + 1 as int));
            }
            he = j + 1;
            break ;
        }
        proof {
            assert(find_header_from(ls, j as int) is None);
        }
        return None;
    }
    // Parse the entry lines.
    let mut out: Vec<(String, Vec<Tag>)> = Vec::new();
    let mut i: usize = he;
    proof {
        assert(out.deep_view() =~= Seq::<(Seq<char>, Seq<TagView>)>::empty());
    }
    loop
        invariant_except_break
            he <= i <= ls.len(),
            match parse_entry_lines_from(ls, i as int) {
                Some(m) => parse_entry_lines_from(ls, he as int) matches Some(w) && w
                    == out.deep_view() + m,
                None => parse_entry_lines_from(ls, he as int) is None,
            },
        invariant
            he <= ls.len(),
            ls == split_lines(doc@),
            find_header_from(ls, 0) == Some(he as int),
            ls == lines.deep_view(),
            ls.len() == lines@.len(),
            forall|k: int| 0 <= k < ls.len() ==> #[trigger] ls[k] == lines@[k]@,
        ensures
            parse_entry_lines_from(ls, he as int) == Some(out.deep_view()),
        decreases ls.len() - i,
    {
        if i >= lines.len() {
            proof {
                assert(parse_entry_lines_from(ls, i as int) == Some(
                    Seq::<(Seq<char>, Seq<TagView>)>::empty(),
                ));
                assert(out.deep_view() + Seq::<(Seq<char>, Seq<TagView>)>::empty()
                    =~= out.deep_view());
            }
            break ;
        }
        if ex_is_blank_line(&lines[i]) {
            proof {
                assert(parse_entry_lines_from(ls, i as int) == parse_entry_lines_from(
                    ls,
                    i + 1 as int,
                ));
            }
            i = i + 1;
            continue ;
        }
        match ex_parse_line(&lines[i]) {
            Some((name, tags)) => {
                proof {
                    let e = parse_line(ls[i as int])->0;
                    match parse_entry_lines_from(ls, i + 1 as int) {
                        Some(m2) => {
                            assert(out.deep_view() + (seq![(e.0, e.1)] + m2) =~= out.deep_view().push(
                                (e.0, e.1),
                            ) + m2);
                        },
                        None => {},
                    }
                }
                let ghost pre = out.deep_view();
                out.push((name, tags));
                proof {
                    assert(out.deep_view() =~= pre.push(
                        (out@[out@.len() - 1].0@, out@[out@.len() - 1].1.deep_view()),
                    ));
                }
                i = i + 1;
            },
            None => {
                proof {
                    assert(parse_entry_lines_from(ls, i as int) is None);
                }
                return None;
            },
        }
    }
    // Reject duplicate file names.
    let mut a: usize = 0;
    while a < out.len()
        invariant
            a <= out@.len(),
            ls == split_lines(doc@),
            find_header_from(ls, 0) == Some(he as int),
            parse_entry_lines_from(ls, he as int) == Some(out.deep_view()),
            forall|x: int, y: int|
                0 <= x < y < out@.len() && x < a ==> #[trigger] out.deep_view()[x].0
                    != #[trigger] out.deep_view()[y].0,
        decreases out@.len() - a,
    {
        let mut b: usize = a + 1;
        while b < out.len()
            invariant
                a < b,
                b <= out@.len() || b == a + 1,
                a < out@.len(),
                ls == split_lines(doc@),
                find_header_from(ls, 0) == Some(he as int),
                parse_entry_lines_from(ls, he as int) == Some(out.deep_view()),
                forall|y: int|
                    a < y < b ==> #[trigger] out.deep_view()[a as int].0 != out.deep_view()[y].0,
            decreases out@.len() - b,
        {
            if crate::text::str_eq(out[a].0.as_str(), out[b].0.as_str()) {
                proof {
                    assert(out.deep_view()[a as int].0 == out.deep_view()[b as int].0);
                    assert(!distinct_keys(out.deep_view()));
                }
                return None;
            }
            b = b + 1;
        }
        a = a + 1;
    }
    proof {
        assert(distinct_keys(out.deep_view()));
    }
    Some(out)
}

/// Appends `ser_line(name@, tags.deep_view())`: one entry line with its
/// newline.
pub fn push_line(out: &mut Vec<char>, name: &str, tags: &Vec<Tag>)
    ensures
        final(out)@ == old(out)@ + ser_line(name@, tags.deep_view()),
{
    push_key(out, name);
    out.push(' ');
    out.push('=');
    out.push(' ');
    push_tag_list(out, tags);
    out.push('\n');
    proof {
        assert(out@ =~= old(out)@ + ser_line(name@, tags.deep_view()));
    }
}

} // verus!

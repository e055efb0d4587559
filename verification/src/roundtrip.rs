//! The round trip law of the document format: serializing any mapping with
//! distinct keys and parsing the result gives the mapping back, each file's
//! tag order preserved exactly. The proof walks the grammar: escaped
//! strings, keys, tags, tag lists, lines, and finally whole documents.

use vstd::prelude::*;

use crate::codec::{
    bare_count, distinct_keys, esc, esc_char, find_header_from, header, is_bare_key,
    is_bare_key_char, is_blank_line, is_ws_char, parse_doc, parse_entry_lines_from, parse_key_at,
    parse_line, parse_qstring, parse_string_at, parse_tag_at, parse_tag_list_at,
    parse_tags_rest_at, quoted, ser_doc, ser_items, ser_key, ser_line_body, ser_lines, ser_tag,
    ser_tag_list, ser_tags_rest, split_lines, unesc_char, ws_count,
};
use crate::tag::TagView;

verus! {

/// `pat` occurs in `l` exactly at position `i`.
pub open spec fn matches_at(l: Seq<char>, i: int, pat: Seq<char>) -> bool {
    0 <= i && i + pat.len() <= l.len() && l.subrange(i, i + pat.len() as int) == pat
}

/// No newline anywhere in `s`.
pub open spec fn no_nl(s: Seq<char>) -> bool {
    forall|k: int| 0 <= k < s.len() ==> #[trigger] s[k] != '\n'
}

proof fn lemma_matches_concat(l: Seq<char>, i: int, a: Seq<char>, b: Seq<char>)
    ensures
        matches_at(l, i, a + b) <==> (matches_at(l, i, a) && matches_at(l, i + a.len(), b)),
{
    if matches_at(l, i, a + b) {
        assert(l.subrange(i, i + a.len() as int) =~= a);
        assert forall|k: int|
            0 <= k < b.len() implies l.subrange(i + a.len(), i + a.len() + b.len() as int)[k]
            == b[k] by {
            assert(l.subrange(i, i + (a + b).len() as int)[a.len() + k] == l[i + a.len() + k]);
            assert((a + b)[a.len() + k] == b[k]);
        }
        assert(l.subrange(i + a.len(), i + a.len() + b.len() as int) =~= b);
    }
    if matches_at(l, i, a) && matches_at(l, i + a.len(), b) {
        assert(l.subrange(i, i + (a + b).len() as int) =~= a + b);
    }
}

/// Every matched character equals the pattern's.
proof fn lemma_matches_index(l: Seq<char>, i: int, pat: Seq<char>, k: int)
    requires
        matches_at(l, i, pat),
        0 <= k < pat.len(),
    ensures
        l[i + k] == pat[k],
{
    assert(l.subrange(i, i + pat.len() as int)[k] == l[i + k]);
}

proof fn lemma_ws_zero(l: Seq<char>, i: int)
    requires
        !(0 <= i < l.len()) || !is_ws_char(l[i]),
    ensures
        ws_count(l, i) == 0,
{
}

proof fn lemma_ws_one(l: Seq<char>, i: int)
    requires
        0 <= i < l.len(),
        is_ws_char(l[i]),
        i + 1 == l.len() || !is_ws_char(l[i + 1]),
    ensures
        ws_count(l, i) == 1,
{
    assert(ws_count(l, i + 1) == 0);
}

// ---------------------------------------------------------------------------
// Strings
// ---------------------------------------------------------------------------
proof fn lemma_qstring_rt(l: Seq<char>, i: int, s: Seq<char>)
    requires
        matches_at(l, i, esc(s) + seq!['"']),
    ensures
        parse_qstring(l, i) == Some((s, (esc(s).len() + 1) as nat)),
    decreases s.len(),
{
    if s.len() == 0 {
        assert(esc(s) == Seq::<char>::empty());
        assert((esc(s) + seq!['"'])[0] == '"');
        lemma_matches_index(l, i, esc(s) + seq!['"'], 0);
        assert(l[i] == '"');
        assert(s =~= Seq::<char>::empty());
    } else {
        let c = s[0];
        let s2 = s.drop_first();
        assert(esc(s) == esc_char(c) + esc(s2));
        assert(esc(s) + seq!['"'] =~= esc_char(c) + (esc(s2) + seq!['"']));
        lemma_matches_concat(l, i, esc_char(c), esc(s2) + seq!['"']);
        let i2 = i + esc_char(c).len();
        assert(matches_at(l, i2, esc(s2) + seq!['"']));
        lemma_qstring_rt(l, i2, s2);
        assert(seq![c] + s2 =~= s);
        if c == '"' || c == '\\' || c == '\n' {
            lemma_matches_index(l, i, esc_char(c), 0);
            lemma_matches_index(l, i, esc_char(c), 1);
            assert(l[i] == '\\');
            assert(i + 1 < l.len());
            if c == '"' {
                assert(l[i + 1] == '"');
                assert(unesc_char(l[i + 1]) == Some('"'));
            } else if c == '\\' {
                assert(l[i + 1] == '\\');
                assert(unesc_char(l[i + 1]) == Some('\\'));
            } else {
                assert(l[i + 1] == 'n');
                assert(unesc_char(l[i + 1]) == Some('\n'));
            }
            assert(parse_qstring(l, i) == Some((s, (esc(s).len() + 1) as nat)));
        } else {
            lemma_matches_index(l, i, esc_char(c), 0);
            assert(l[i] == c);
            assert(parse_qstring(l, i) == Some((s, (esc(s).len() + 1) as nat)));
        }
    }
}

proof fn lemma_string_rt(l: Seq<char>, i: int, s: Seq<char>)
    requires
        matches_at(l, i, quoted(s)),
    ensures
        parse_string_at(l, i) == Some((s, quoted(s).len() as nat)),
{
    assert(quoted(s) =~= seq!['"'] + (esc(s) + seq!['"']));
    lemma_matches_concat(l, i, seq!['"'], esc(s) + seq!['"']);
    lemma_matches_index(l, i, seq!['"'], 0);
    assert(l[i] == '"');
    lemma_qstring_rt(l, i + 1, s);
}

// ---------------------------------------------------------------------------
// Keys
// ---------------------------------------------------------------------------
proof fn lemma_bare_rt(l: Seq<char>, i: int, s: Seq<char>)
    requires
        matches_at(l, i, s),
        forall|k: int| 0 <= k < s.len() ==> is_bare_key_char(#[trigger] s[k]),
        i + s.len() == l.len() || !is_bare_key_char(l[i + s.len()]),
    ensures
        bare_count(l, i) == s.len(),
    decreases s.len(),
{
    if s.len() == 0 {
        assert(bare_count(l, i) == 0);
    } else {
        lemma_matches_index(l, i, s, 0);
        assert(l[i] == s[0]);
        assert(is_bare_key_char(l[i]));
        assert(s =~= seq![s[0]] + s.drop_first());
        lemma_matches_concat(l, i, seq![s[0]], s.drop_first());
        lemma_bare_rt(l, i + 1, s.drop_first());
    }
}

proof fn lemma_key_rt(l: Seq<char>, i: int, name: Seq<char>)
    requires
        matches_at(l, i, ser_key(name)),
        i + ser_key(name).len() == l.len() || (!is_bare_key_char(l[i + ser_key(name).len()]) && l[i
            + ser_key(name).len()] != '"'),
    ensures
        parse_key_at(l, i) == Some((name, ser_key(name).len() as nat)),
{
    if is_bare_key(name) {
        assert(ser_key(name) == name);
        lemma_matches_index(l, i, name, 0);
        assert(l[i] == name[0]);
        assert(is_bare_key_char(l[i]));
        assert(l[i] != '"');
        lemma_bare_rt(l, i, name);
        assert(l.subrange(i, i + bare_count(l, i)) == name);
    } else {
        assert(ser_key(name) == quoted(name));
        lemma_matches_index(l, i, quoted(name), 0);
        assert(quoted(name)[0] == '"');
        assert(l[i] == '"');
        lemma_string_rt(l, i, name);
    }
}

// ---------------------------------------------------------------------------
// Tags and tag lists
// ---------------------------------------------------------------------------
proof fn lemma_ser_tag_first(t: TagView)
    ensures
        ser_tag(t).len() >= 2,
        ser_tag(t)[0] == '"' || ser_tag(t)[0] == '[',
{
    match t {
        TagView::Simple(s) => {
            assert(ser_tag(t)[0] == '"');
        },
        TagView::KV(k, v) => {
            assert(ser_tag(t)[0] == '[');
        },
    }
}

proof fn lemma_tag_rt(l: Seq<char>, i: int, t: TagView)
    requires
        matches_at(l, i, ser_tag(t)),
    ensures
        parse_tag_at(l, i) == Some((t, ser_tag(t).len() as nat)),
{
    match t {
        TagView::Simple(s) => {
            lemma_matches_index(l, i, ser_tag(t), 0);
            assert(quoted(s)[0] == '"');
            assert(l[i] == '"');
            lemma_string_rt(l, i, s);
        },
        TagView::KV(k, v) => {
            let qk = quoted(k);
            let qv = quoted(v);
            assert(ser_tag(t) =~= seq!['['] + (qk + (seq![',', ' '] + (qv + seq![']']))));
            lemma_matches_concat(l, i, seq!['['], qk + (seq![',', ' '] + (qv + seq![']'])));
            lemma_matches_index(l, i, seq!['['], 0);
            assert(l[i] == '[');
            assert(l[i] != '"');
            let j1 = i + 1;
            lemma_matches_concat(l, j1, qk, seq![',', ' '] + (qv + seq![']']));
            assert(matches_at(l, j1, qk));
            lemma_matches_index(l, j1, qk, 0);
            assert(qk[0] == '"');
            assert(l[j1] == '"');
            lemma_ws_zero(l, j1);
            lemma_string_rt(l, j1, k);
            let j2 = j1 + qk.len();
            lemma_matches_concat(l, j2, seq![',', ' '], qv + seq![']']);
            lemma_matches_index(l, j2, seq![',', ' '], 0);
            lemma_matches_index(l, j2, seq![',', ' '], 1);
            assert(l[j2] == ',');
            assert(l[j2 + 1] == ' ');
            lemma_ws_zero(l, j2);
            let j3 = j2 + 2;
            lemma_matches_concat(l, j3, qv, seq![']']);
            assert(matches_at(l, j3, qv));
            lemma_matches_index(l, j3, qv, 0);
            assert(qv[0] == '"');
            assert(l[j3] == '"');
            lemma_ws_one(l, j2 + 1);
            lemma_string_rt(l, j3, v);
            let j4 = j3 + qv.len();
            lemma_matches_index(l, j4, seq![']'], 0);
            assert(l[j4] == ']');
            lemma_ws_zero(l, j4);
            assert(parse_tag_at(l, i) == Some((t, ser_tag(t).len() as nat)));
        },
    }
}

proof fn lemma_tags_rest_rt(l: Seq<char>, i: int, ts: Seq<TagView>)
    requires
        matches_at(l, i, ser_tags_rest(ts)),
    ensures
        parse_tags_rest_at(l, i) == Some((ts, ser_tags_rest(ts).len() as nat)),
    decreases ts.len(),
{
    if ts.len() == 0 {
        assert(ser_items(ts) == Seq::<char>::empty());
        assert(ser_tags_rest(ts) =~= seq![']']);
        lemma_matches_index(l, i, ser_tags_rest(ts), 0);
        assert(l[i] == ']');
        lemma_ws_zero(l, i);
        assert(ts =~= Seq::<TagView>::empty());
    } else {
        let t0 = ts[0];
        let ts2 = ts.drop_first();
        assert(ser_items(ts) == seq![',', ' '] + ser_tag(t0) + ser_items(ts2));
        assert(ser_tags_rest(ts) =~= seq![',', ' '] + (ser_tag(t0) + ser_tags_rest(ts2)));
        lemma_matches_concat(l, i, seq![',', ' '], ser_tag(t0) + ser_tags_rest(ts2));
        lemma_matches_index(l, i, seq![',', ' '], 0);
        lemma_matches_index(l, i, seq![',', ' '], 1);
        assert(l[i] == ',');
        assert(l[i + 1] == ' ');
        lemma_ws_zero(l, i);
        let j1 = i + 2;
        lemma_matches_concat(l, j1, ser_tag(t0), ser_tags_rest(ts2));
        lemma_ser_tag_first(t0);
        lemma_matches_index(l, j1, ser_tag(t0), 0);
        assert(!is_ws_char(l[j1]));
        lemma_ws_one(l, i + 1);
        lemma_tag_rt(l, j1, t0);
        let j2 = j1 + ser_tag(t0).len();
        lemma_tags_rest_rt(l, j2, ts2);
        assert(seq![t0] + ts2 =~= ts);
        assert(parse_tags_rest_at(l, i) == Some((ts, ser_tags_rest(ts).len() as nat)));
    }
}

proof fn lemma_tag_list_rt(l: Seq<char>, i: int, ts: Seq<TagView>)
    requires
        matches_at(l, i, ser_tag_list(ts)),
    ensures
        parse_tag_list_at(l, i) == Some((ts, ser_tag_list(ts).len() as nat)),
{
    if ts.len() == 0 {
        assert(ser_tag_list(ts) == seq!['[', ']']);
        lemma_matches_index(l, i, ser_tag_list(ts), 0);
        lemma_matches_index(l, i, ser_tag_list(ts), 1);
        assert(l[i] == '[');
        assert(l[i + 1] == ']');
        lemma_ws_zero(l, i + 1);
        assert(ts =~= Seq::<TagView>::empty());
    } else {
        let t0 = ts[0];
        let ts2 = ts.drop_first();
        assert(ser_tag_list(ts) =~= seq!['['] + (ser_tag(t0) + ser_tags_rest(ts2)));
        lemma_matches_concat(l, i, seq!['['], ser_tag(t0) + ser_tags_rest(ts2));
        lemma_matches_index(l, i, seq!['['], 0);
        assert(l[i] == '[');
        let j1 = i + 1;
        lemma_matches_concat(l, j1, ser_tag(t0), ser_tags_rest(ts2));
        lemma_ser_tag_first(t0);
        lemma_matches_index(l, j1, ser_tag(t0), 0);
        assert(!is_ws_char(l[j1]));
        assert(l[j1] != ']');
        lemma_ws_zero(l, j1);
        lemma_tag_rt(l, j1, t0);
        let j2 = j1 + ser_tag(t0).len();
        lemma_tags_rest_rt(l, j2, ts2);
        assert(seq![t0] + ts2 =~= ts);
        assert(parse_tag_list_at(l, i) == Some((ts, ser_tag_list(ts).len() as nat)));
    }
}

// ---------------------------------------------------------------------------
// Lines
// ---------------------------------------------------------------------------
proof fn lemma_ser_key_first(name: Seq<char>)
    ensures
        ser_key(name).len() >= 1,
        is_bare_key_char(ser_key(name)[0]) || ser_key(name)[0] == '"',
        !is_ws_char(ser_key(name)[0]),
{
    if is_bare_key(name) {
        assert(is_bare_key_char(name[0]));
        assert(!is_ws_char(name[0]));
    } else {
        assert(ser_key(name)[0] == '"');
    }
}

/// A canonical entry line parses back to exactly its entry.
proof fn lemma_line_rt(name: Seq<char>, ts: Seq<TagView>)
    ensures
        parse_line(ser_line_body(name, ts)) == Some((name, ts)),
{
    let l = ser_line_body(name, ts);
    let sk = ser_key(name);
    let stl = ser_tag_list(ts);
    assert(l =~= sk + (seq![' ', '=', ' '] + stl));
    assert(l.subrange(0, l.len() as int) =~= l);
    assert(matches_at(l, 0, l));
    lemma_matches_concat(l, 0, sk, seq![' ', '=', ' '] + stl);
    let j1 = sk.len() as int;
    lemma_matches_concat(l, j1, seq![' ', '=', ' '], stl);
    lemma_matches_index(l, j1, seq![' ', '=', ' '], 0);
    lemma_matches_index(l, j1, seq![' ', '=', ' '], 1);
    lemma_matches_index(l, j1, seq![' ', '=', ' '], 2);
    assert(l[j1] == ' ');
    assert(l[j1 + 1] == '=');
    assert(l[j1 + 2] == ' ');
    lemma_key_rt(l, 0, name);
    lemma_ws_one(l, j1);
    let j2 = j1 + 3;
    lemma_matches_index(l, j2, stl, 0);
    assert(stl[0] == '[');
    assert(l[j2] == '[');
    lemma_ws_one(l, j1 + 2);
    lemma_tag_list_rt(l, j2, ts);
    let e = j2 + stl.len();
    assert(e == l.len());
    lemma_ws_zero(l, e);
    assert(parse_line(l) == Some((name, ts)));
}

// ---------------------------------------------------------------------------
// Newlines never appear inside a serialized line
// ---------------------------------------------------------------------------
proof fn lemma_no_nl_concat(a: Seq<char>, b: Seq<char>)
    requires
        no_nl(a),
        no_nl(b),
    ensures
        no_nl(a + b),
{
    assert forall|k: int| 0 <= k < (a + b).len() implies #[trigger] (a + b)[k] != '\n' by {
        if k < a.len() {
            assert((a + b)[k] == a[k]);
        } else {
            assert((a + b)[k] == b[k - a.len()]);
        }
    }
}

proof fn lemma_esc_no_nl(s: Seq<char>)
    ensures
        no_nl(esc(s)),
    decreases s.len(),
{
    if s.len() == 0 {
    } else {
        lemma_esc_no_nl(s.drop_first());
        assert(no_nl(esc_char(s[0])));
        lemma_no_nl_concat(esc_char(s[0]), esc(s.drop_first()));
    }
}

proof fn lemma_quoted_no_nl(s: Seq<char>)
    ensures
        no_nl(quoted(s)),
{
    lemma_esc_no_nl(s);
    assert(no_nl(seq!['"']));
    lemma_no_nl_concat(seq!['"'], esc(s));
    lemma_no_nl_concat(seq!['"'] + esc(s), seq!['"']);
    assert(quoted(s) =~= (seq!['"'] + esc(s)) + seq!['"']);
}

proof fn lemma_ser_tag_no_nl(t: TagView)
    ensures
        no_nl(ser_tag(t)),
{
    match t {
        TagView::Simple(s) => {
            lemma_quoted_no_nl(s);
        },
        TagView::KV(k, v) => {
            lemma_quoted_no_nl(k);
            lemma_quoted_no_nl(v);
            assert(no_nl(seq!['[']));
            assert(no_nl(seq![',', ' ']));
            assert(no_nl(seq![']']));
            lemma_no_nl_concat(seq!['['], quoted(k));
            lemma_no_nl_concat(seq!['['] + quoted(k), seq![',', ' ']);
            lemma_no_nl_concat(seq!['['] + quoted(k) + seq![',', ' '], quoted(v));
            lemma_no_nl_concat(seq!['['] + quoted(k) + seq![',', ' '] + quoted(v), seq![']']);
        },
    }
}

proof fn lemma_ser_items_no_nl(ts: Seq<TagView>)
    ensures
        no_nl(ser_items(ts)),
    decreases ts.len(),
{
    if ts.len() == 0 {
    } else {
        lemma_ser_tag_no_nl(ts[0]);
        lemma_ser_items_no_nl(ts.drop_first());
        assert(no_nl(seq![',', ' ']));
        lemma_no_nl_concat(seq![',', ' '], ser_tag(ts[0]));
        lemma_no_nl_concat(seq![',', ' '] + ser_tag(ts[0]), ser_items(ts.drop_first()));
    }
}

proof fn lemma_ser_line_body_no_nl(name: Seq<char>, ts: Seq<TagView>)
    ensures
        no_nl(ser_line_body(name, ts)),
{
    if is_bare_key(name) {
        assert(no_nl(ser_key(name))) by {
            assert(forall|k: int| 0 <= k < name.len() ==> is_bare_key_char(#[trigger] name[k]));
        }
    } else {
        lemma_quoted_no_nl(name);
    }
    lemma_ser_items_no_nl(if ts.len() == 0 {
        Seq::<TagView>::empty()
    } else {
        ts.drop_first()
    });
    assert(no_nl(ser_tag_list(ts))) by {
        if ts.len() == 0 {
            assert(no_nl(seq!['[', ']']));
        } else {
            lemma_ser_tag_no_nl(ts[0]);
            lemma_no_nl_concat(ser_items(ts.drop_first()), seq![']']);
            lemma_no_nl_concat(seq!['['], ser_tag(ts[0]));
            lemma_no_nl_concat(seq!['['] + ser_tag(ts[0]), ser_tags_rest(ts.drop_first()));
        }
    }
    assert(no_nl(seq![' ', '=', ' ']));
    lemma_no_nl_concat(ser_key(name), seq![' ', '=', ' ']);
    lemma_no_nl_concat(ser_key(name) + seq![' ', '=', ' '], ser_tag_list(ts));
}

// ---------------------------------------------------------------------------
// Documents
// ---------------------------------------------------------------------------
proof fn lemma_split_prepend(a: Seq<char>, rest: Seq<char>)
    requires
        no_nl(a),
    ensures
        split_lines(a + seq!['\n'] + rest) == seq![a] + split_lines(rest),
    decreases a.len(),
{
    let s = a + seq!['\n'] + rest;
    if a.len() == 0 {
        assert(s[0] == '\n');
        assert(s.drop_first() =~= rest);
        assert(a =~= Seq::<char>::empty());
        assert(split_lines(s) =~= seq![a] + split_lines(rest));
    } else {
        assert(s[0] == a[0]);
        assert(a[0] != '\n');
        assert(s.drop_first() =~= a.drop_first() + seq!['\n'] + rest);
        lemma_split_prepend(a.drop_first(), rest);
        let r = split_lines(s.drop_first());
        assert(r == seq![a.drop_first()] + split_lines(rest));
        assert(r[0] == a.drop_first());
        assert(seq![s[0]] + r[0] =~= a);
        assert(r.drop_first() =~= split_lines(rest));
        assert(split_lines(s) =~= seq![a] + split_lines(rest));
    }
}

/// The entry lines of a mapping, in order, without their newlines.
pub open spec fn lines_of(m: Seq<(Seq<char>, Seq<TagView>)>) -> Seq<Seq<char>>
    decreases m.len(),
{
    if m.len() == 0 {
        Seq::empty()
    } else {
        seq![ser_line_body(m[0].0, m[0].1)] + lines_of(m.drop_first())
    }
}

proof fn lemma_lines_of_len(m: Seq<(Seq<char>, Seq<TagView>)>)
    ensures
        lines_of(m).len() == m.len(),
        forall|k: int|
            0 <= k < m.len() ==> #[trigger] lines_of(m)[k] == ser_line_body(m[k].0, m[k].1),
    decreases m.len(),
{
    if m.len() == 0 {
    } else {
        lemma_lines_of_len(m.drop_first());
        assert forall|k: int| 0 <= k < m.len() implies #[trigger] lines_of(m)[k] == ser_line_body(
            m[k].0,
            m[k].1,
        ) by {
            if k > 0 {
                assert(lines_of(m)[k] == lines_of(m.drop_first())[k - 1]);
                assert(m.drop_first()[k - 1] == m[k]);
            }
        }
    }
}

proof fn lemma_split_ser_lines(m: Seq<(Seq<char>, Seq<TagView>)>)
    ensures
        split_lines(ser_lines(m)) == lines_of(m) + seq![Seq::<char>::empty()],
    decreases m.len(),
{
    if m.len() == 0 {
        assert(ser_lines(m) == Seq::<char>::empty());
        assert(split_lines(Seq::<char>::empty()) == seq![Seq::<char>::empty()]);
        assert(lines_of(m) + seq![Seq::<char>::empty()] =~= seq![Seq::<char>::empty()]);
    } else {
        let body = ser_line_body(m[0].0, m[0].1);
        lemma_ser_line_body_no_nl(m[0].0, m[0].1);
        assert(ser_lines(m) =~= body + seq!['\n'] + ser_lines(m.drop_first()));
        lemma_split_prepend(body, ser_lines(m.drop_first()));
        lemma_split_ser_lines(m.drop_first());
        assert(split_lines(ser_lines(m)) =~= lines_of(m) + seq![Seq::<char>::empty()]);
    }
}

proof fn lemma_header_no_nl()
    ensures
        no_nl(header()),
{
    assert forall|k: int| 0 <= k < header().len() implies #[trigger] header()[k] != '\n' by {
        if k == 0 {
            assert(header()[0] != '\n');
        } else if k == 1 {
            assert(header()[1] != '\n');
        } else if k == 2 {
            assert(header()[2] != '\n');
        } else if k == 3 {
            assert(header()[3] != '\n');
        } else if k == 4 {
            assert(header()[4] != '\n');
        } else if k == 5 {
            assert(header()[5] != '\n');
        } else if k == 6 {
            assert(header()[6] != '\n');
        } else if k == 7 {
            assert(header()[7] != '\n');
        } else {
            assert(header()[8] != '\n');
        }
    }
}

/// A serialized line body is never taken for a blank line.
proof fn lemma_body_not_blank(name: Seq<char>, ts: Seq<TagView>)
    ensures
        !is_blank_line(ser_line_body(name, ts)),
{
    let l = ser_line_body(name, ts);
    lemma_ser_key_first(name);
    assert(l[0] == ser_key(name)[0]);
    assert(!is_ws_char(l[0]));
    lemma_ws_zero(l, 0);
    assert(l.len() > 0);
}

#[verifier::rlimit(100)]
#[verifier::spinoff_prover]
proof fn lemma_entries_at(ls: Seq<Seq<char>>, i: int, m: Seq<(Seq<char>, Seq<TagView>)>)
    requires
        0 <= i,
        i + m.len() + 1 == ls.len(),
        forall|k: int|
            0 <= k < m.len() ==> #[trigger] ls[i + k] == ser_line_body(m[k].0, m[k].1),
        ls[ls.len() - 1] == Seq::<char>::empty(),
    ensures
        parse_entry_lines_from(ls, i) == Some(m),
    decreases m.len(),
{
    if m.len() == 0 {
        assert(ls[i] == Seq::<char>::empty());
        assert(ws_count(Seq::<char>::empty(), 0) == 0);
        assert(is_blank_line(ls[i]));
        assert(parse_entry_lines_from(ls, i + 1) == Some(Seq::<(Seq<char>, Seq<TagView>)>::empty()));
        assert(m =~= Seq::<(Seq<char>, Seq<TagView>)>::empty());
    } else {
        assert(ls[i + 0] == ser_line_body(m[0].0, m[0].1));
        lemma_body_not_blank(m[0].0, m[0].1);
        lemma_line_rt(m[0].0, m[0].1);
        assert(parse_line(ls[i]) == Some((m[0].0, m[0].1)));
        let m2 = m.drop_first();
        assert forall|k: int|
            0 <= k < m2.len() implies #[trigger] ls[i + 1 + k] == ser_line_body(
            m2[k].0,
            m2[k].1,
        ) by {
            assert(ls[i + (k + 1)] == ser_line_body(m[k + 1].0, m[k + 1].1));
            assert(m2[k] == m[k + 1]);
        }
        lemma_entries_at(ls, i + 1, m2);
        assert(seq![(m[0].0, m[0].1)] + m2 =~= m);
        assert(parse_entry_lines_from(ls, i) == Some(m));
    }
}

/// A parsed document always has distinct file names.
proof fn lemma_parse_doc_distinct(s: Seq<char>)
    requires
        parse_doc(s) is Some,
    ensures
        distinct_keys(parse_doc(s)->0),
{
}

/// Reading a document and writing it again keeps what it says: the
/// rewritten text denotes the very same mapping, every file's tag order
/// included, whatever order the file entries stood in.
pub proof fn lemma_reserialize_preserves_mapping(doc: Seq<char>)
    requires
        parse_doc(doc) is Some,
    ensures
        parse_doc(ser_doc(parse_doc(doc)->0)) == parse_doc(doc),
{
    lemma_parse_doc_distinct(doc);
    lemma_doc_round_trip(parse_doc(doc)->0);
}

/// The round trip of the document format: a mapping with distinct keys,
/// serialized and parsed back, is recovered exactly — every file's tag
/// order included.
pub proof fn lemma_doc_round_trip(m: Seq<(Seq<char>, Seq<TagView>)>)
    requires
        distinct_keys(m),
    ensures
        parse_doc(ser_doc(m)) == Some(m),
{
    lemma_header_no_nl();
    assert(ser_doc(m) =~= header() + seq!['\n'] + ser_lines(m));
    lemma_split_prepend(header(), ser_lines(m));
    lemma_split_ser_lines(m);
    let ls = split_lines(ser_doc(m));
    assert(ls == seq![header()] + (lines_of(m) + seq![Seq::<char>::empty()]));
    lemma_lines_of_len(m);
    assert(ls[0] == header());
    assert(header()[0] == '[');
    assert(!is_ws_char(header()[0]));
    lemma_ws_zero(header(), 0);
    assert(!is_blank_line(header()));
    assert(find_header_from(ls, 0) == Some(1int));
    assert forall|k: int|
        0 <= k < m.len() implies #[trigger] ls[1 + k] == ser_line_body(m[k].0, m[k].1) by {
        assert(ls[1 + k] == (lines_of(m) + seq![Seq::<char>::empty()])[k]);
        assert((lines_of(m) + seq![Seq::<char>::empty()])[k] == lines_of(m)[k]);
    }
    assert(ls[ls.len() - 1] == Seq::<char>::empty());
    lemma_entries_at(ls, 1, m);
}

} // verus!

//! One sidecar document for one directory: an in-memory mapping from file
//! base name to its ordered tag list, together with the document path it
//! persists to. Invariants: no duplicate tag within one file's list, no
//! file name mapped to an empty list, no file name mapped twice; list
//! order is insertion order and survives the save/load round trip.
//!
//! Persistence itself is the caller's: `to_document` yields the exact text
//! to write, `from_document` reads text back.

use vstd::prelude::*;
use vstd::pervasive::VecAdditionalExecFns;
use vstd::string::StringExecFns;

use crate::codec;
use crate::codec::distinct_keys;
use crate::codec::parse_doc;
use crate::codec::ser_doc;
use crate::errors::TagFileError;
use crate::paths;
use crate::tag::Tag;
use crate::tag::TagView;
use crate::text::add_literal;
use crate::text::distinct_texts;
use crate::text::str_eq;

verus! {

// ---------------------------------------------------------------------------
// The mathematical model of a mapping and its operations
// ---------------------------------------------------------------------------
/// One file's tag list is well-formed: nonempty and free of duplicates.
pub open spec fn tags_wf(ts: Seq<TagView>) -> bool {
    ts.len() > 0 && forall|j: int, k: int| 0 <= j < k < ts.len() ==> ts[j] != ts[k]
}

/// A whole mapping is well-formed: distinct file names, each list
/// well-formed.
pub open spec fn wf_mapping(m: Seq<(Seq<char>, Seq<TagView>)>) -> bool {
    distinct_keys(m) && forall|i: int| 0 <= i < m.len() ==> tags_wf(#[trigger] m[i].1)
}

/// The tag list mapped to `name`, if any.
pub open spec fn lookup(m: Seq<(Seq<char>, Seq<TagView>)>, name: Seq<char>) -> Option<
    Seq<TagView>,
>
    decreases m.len(),
{
    if m.len() == 0 {
        None
    } else if m[0].0 == name {
        Some(m[0].1)
    } else {
        lookup(m.drop_first(), name)
    }
}

/// The tag list mapped to `name`, or the empty sequence.
pub open spec fn tags_of(m: Seq<(Seq<char>, Seq<TagView>)>, name: Seq<char>) -> Seq<TagView> {
    match lookup(m, name) {
        Some(ts) => ts,
        None => Seq::empty(),
    }
}

/// Adding `t` under `name`: appended if the list lacks it, no change if it
/// is already there, a fresh singleton entry at the end if `name` is
/// unmapped.
pub open spec fn map_add(
    m: Seq<(Seq<char>, Seq<TagView>)>,
    name: Seq<char>,
    t: TagView,
) -> Seq<(Seq<char>, Seq<TagView>)>
    decreases m.len(),
{
    if m.len() == 0 {
        seq![(name, seq![t])]
    } else if m[0].0 == name {
        seq![
            (
                m[0].0,
                if m[0].1.contains(t) {
                    m[0].1
                } else {
                    m[0].1.push(t)
                },
            ),
        ] + m.drop_first()
    } else {
        seq![m[0]] + map_add(m.drop_first(), name, t)
    }
}

/// `ts` with its first occurrence of `t` removed.
pub open spec fn remove_first(ts: Seq<TagView>, t: TagView) -> Seq<TagView>
    decreases ts.len(),
{
    if ts.len() == 0 {
        ts
    } else if ts[0] == t {
        ts.drop_first()
    } else {
        seq![ts[0]] + remove_first(ts.drop_first(), t)
    }
}

/// Removing `t` under `name`: the first occurrence leaves the list, and a
/// list left empty takes its entry with it. Unmapped names are untouched.
pub open spec fn map_remove(
    m: Seq<(Seq<char>, Seq<TagView>)>,
    name: Seq<char>,
    t: TagView,
) -> Seq<(Seq<char>, Seq<TagView>)>
    decreases m.len(),
{
    if m.len() == 0 {
        m
    } else if m[0].0 == name {
        if remove_first(m[0].1, t).len() == 0 {
            m.drop_first()
        } else {
            seq![(m[0].0, remove_first(m[0].1, t))] + m.drop_first()
        }
    } else {
        seq![m[0]] + map_remove(m.drop_first(), name, t)
    }
}

/// `t` carries the literal `s`: its text, its key, or its value.
pub open spec fn tag_has_literal(t: TagView, s: Seq<char>) -> bool {
    match t {
        TagView::Simple(x) => x == s,
        TagView::KV(k, v) => k == s || v == s,
    }
}

/// `s` appears as a literal somewhere in the mapping.
pub open spec fn literal_in(m: Seq<(Seq<char>, Seq<TagView>)>, s: Seq<char>) -> bool {
    exists|i: int, j: int|
        0 <= i < m.len() && 0 <= j < m[i].1.len() && tag_has_literal(#[trigger] m[i].1[j], s)
}

// ---------------------------------------------------------------------------
// Bridges between first-occurrence indices and the recursive operations
// ---------------------------------------------------------------------------
proof fn lemma_lookup_at(m: Seq<(Seq<char>, Seq<TagView>)>, name: Seq<char>, fi: int)
    requires
        0 <= fi < m.len(),
        m[fi].0 == name,
        forall|j: int| 0 <= j < fi ==> (#[trigger] m[j]).0 != name,
    ensures
        lookup(m, name) == Some(m[fi].1),
    decreases fi,
{
    if fi == 0 {
    } else {
        assert(m[0].0 != name);
        assert forall|j: int| 0 <= j < fi - 1 implies (#[trigger] m.drop_first()[j]).0 != name by {
            assert(m.drop_first()[j] == m[j + 1]);
        }
        assert(m.drop_first()[fi - 1] == m[fi]);
        lemma_lookup_at(m.drop_first(), name, fi - 1);
    }
}

proof fn lemma_lookup_none(m: Seq<(Seq<char>, Seq<TagView>)>, name: Seq<char>)
    requires
        forall|j: int| 0 <= j < m.len() ==> (#[trigger] m[j]).0 != name,
    ensures
        lookup(m, name) is None,
    decreases m.len(),
{
    if m.len() == 0 {
    } else {
        assert(m[0].0 != name);
        assert forall|j: int| 0 <= j < m.drop_first().len() implies (#[trigger] m.drop_first()[j]).0
            != name by {
            assert(m.drop_first()[j] == m[j + 1]);
        }
        lemma_lookup_none(m.drop_first(), name);
    }
}

proof fn lemma_map_add_at(m: Seq<(Seq<char>, Seq<TagView>)>, name: Seq<char>, t: TagView, fi: int)
    requires
        0 <= fi < m.len(),
        m[fi].0 == name,
        forall|j: int| 0 <= j < fi ==> (#[trigger] m[j]).0 != name,
    ensures
        map_add(m, name, t) == m.update(
            fi,
            (
                m[fi].0,
                if m[fi].1.contains(t) {
                    m[fi].1
                } else {
                    m[fi].1.push(t)
                },
            ),
        ),
    decreases fi,
{
    if fi == 0 {
        assert(map_add(m, name, t) =~= m.update(
            0,
            (
                m[0].0,
                if m[0].1.contains(t) {
                    m[0].1
                } else {
                    m[0].1.push(t)
                },
            ),
        ));
    } else {
        assert(m[0].0 != name);
        assert forall|j: int| 0 <= j < fi - 1 implies (#[trigger] m.drop_first()[j]).0 != name by {
            assert(m.drop_first()[j] == m[j + 1]);
        }
        assert(m.drop_first()[fi - 1] == m[fi]);
        lemma_map_add_at(m.drop_first(), name, t, fi - 1);
        assert(seq![m[0]] + m.drop_first().update(
            fi - 1,
            (
                m[fi].0,
                if m[fi].1.contains(t) {
                    m[fi].1
                } else {
                    m[fi].1.push(t)
                },
            ),
        ) =~= m.update(
            fi,
            (
                m[fi].0,
                if m[fi].1.contains(t) {
                    m[fi].1
                } else {
                    m[fi].1.push(t)
                },
            ),
        ));
    }
}

proof fn lemma_map_add_none(m: Seq<(Seq<char>, Seq<TagView>)>, name: Seq<char>, t: TagView)
    requires
        forall|j: int| 0 <= j < m.len() ==> (#[trigger] m[j]).0 != name,
    ensures
        map_add(m, name, t) == m.push((name, seq![t])),
    decreases m.len(),
{
    if m.len() == 0 {
        assert(map_add(m, name, t) =~= m.push((name, seq![t])));
    } else {
        assert(m[0].0 != name);
        assert forall|j: int| 0 <= j < m.drop_first().len() implies (#[trigger] m.drop_first()[j]).0
            != name by {
            assert(m.drop_first()[j] == m[j + 1]);
        }
        lemma_map_add_none(m.drop_first(), name, t);
        assert(seq![m[0]] + m.drop_first().push((name, seq![t])) =~= m.push((name, seq![t])));
    }
}

proof fn lemma_remove_first_at(ts: Seq<TagView>, t: TagView, pos: int)
    requires
        0 <= pos < ts.len(),
        ts[pos] == t,
        forall|j: int| 0 <= j < pos ==> ts[j] != t,
    ensures
        remove_first(ts, t) == ts.remove(pos),
    decreases pos,
{
    if pos == 0 {
        assert(remove_first(ts, t) =~= ts.remove(0));
    } else {
        assert(ts[0] != t);
        assert forall|j: int| 0 <= j < pos - 1 implies ts.drop_first()[j] != t by {
            assert(ts.drop_first()[j] == ts[j + 1]);
        }
        assert(ts.drop_first()[pos - 1] == ts[pos]);
        lemma_remove_first_at(ts.drop_first(), t, pos - 1);
        assert(seq![ts[0]] + ts.drop_first().remove(pos - 1) =~= ts.remove(pos));
    }
}

proof fn lemma_remove_first_absent(ts: Seq<TagView>, t: TagView)
    requires
        forall|j: int| 0 <= j < ts.len() ==> ts[j] != t,
    ensures
        remove_first(ts, t) == ts,
    decreases ts.len(),
{
    if ts.len() == 0 {
    } else {
        assert(ts[0] != t);
        assert forall|j: int| 0 <= j < ts.drop_first().len() implies ts.drop_first()[j] != t by {
            assert(ts.drop_first()[j] == ts[j + 1]);
        }
        lemma_remove_first_absent(ts.drop_first(), t);
        assert(seq![ts[0]] + ts.drop_first() =~= ts);
    }
}

proof fn lemma_map_remove_at(
    m: Seq<(Seq<char>, Seq<TagView>)>,
    name: Seq<char>,
    t: TagView,
    fi: int,
)
    requires
        0 <= fi < m.len(),
        m[fi].0 == name,
        forall|j: int| 0 <= j < fi ==> (#[trigger] m[j]).0 != name,
    ensures
        map_remove(m, name, t) == if remove_first(m[fi].1, t).len() == 0 {
            m.remove(fi)
        } else {
            m.update(fi, (m[fi].0, remove_first(m[fi].1, t)))
        },
    decreases fi,
{
    if fi == 0 {
        if remove_first(m[0].1, t).len() == 0 {
            assert(map_remove(m, name, t) =~= m.remove(0));
        } else {
            assert(map_remove(m, name, t) =~= m.update(0, (m[0].0, remove_first(m[0].1, t))));
        }
    } else {
        assert(m[0].0 != name);
        assert forall|j: int| 0 <= j < fi - 1 implies (#[trigger] m.drop_first()[j]).0 != name by {
            assert(m.drop_first()[j] == m[j + 1]);
        }
        assert(m.drop_first()[fi - 1] == m[fi]);
        lemma_map_remove_at(m.drop_first(), name, t, fi - 1);
        if remove_first(m[fi].1, t).len() == 0 {
            assert(seq![m[0]] + m.drop_first().remove(fi - 1) =~= m.remove(fi));
        } else {
            assert(seq![m[0]] + m.drop_first().update(fi - 1, (m[fi].0, remove_first(m[fi].1, t)))
                =~= m.update(fi, (m[fi].0, remove_first(m[fi].1, t))));
        }
    }
}

proof fn lemma_map_remove_none(m: Seq<(Seq<char>, Seq<TagView>)>, name: Seq<char>, t: TagView)
    requires
        forall|j: int| 0 <= j < m.len() ==> (#[trigger] m[j]).0 != name,
    ensures
        map_remove(m, name, t) == m,
    decreases m.len(),
{
    if m.len() == 0 {
    } else {
        assert(m[0].0 != name);
        assert forall|j: int| 0 <= j < m.drop_first().len() implies (#[trigger] m.drop_first()[j]).0
            != name by {
            assert(m.drop_first()[j] == m[j + 1]);
        }
        lemma_map_remove_none(m.drop_first(), name, t);
        assert(seq![m[0]] + m.drop_first() =~= m);
    }
}

// ---------------------------------------------------------------------------
// The type
// ---------------------------------------------------------------------------
/// One directory's sidecar document, in memory.
#[derive(Debug)]
pub struct TagFile {
    /// Where this document lives on disk.
    pub full_path_to_tagfile: String,
    /// File base name, each with its ordered tags.
    pub mapping: Vec<(String, Vec<Tag>)>,
}

impl View for TagFile {
    type V = Seq<(Seq<char>, Seq<TagView>)>;

    open spec fn view(&self) -> Seq<(Seq<char>, Seq<TagView>)> {
        self.mapping.deep_view()
    }
}

/// Finds the entry for `name`, reporting that earlier entries miss it.
pub(crate) fn find_entry(mapping: &Vec<(String, Vec<Tag>)>, name: &str) -> (r: Option<usize>)
    ensures
        match r {
            Some(i) => i < mapping@.len() && mapping.deep_view()[i as int].0 == name@ && forall|
                j: int,
            | 0 <= j < i ==> (#[trigger] mapping.deep_view()[j]).0 != name@,
            None => forall|j: int|
                0 <= j < mapping@.len() ==> (#[trigger] mapping.deep_view()[j]).0 != name@,
        },
{
    let mut i: usize = 0;
    while i < mapping.len()
        invariant
            i <= mapping@.len(),
            forall|j: int| 0 <= j < i ==> (#[trigger] mapping.deep_view()[j]).0 != name@,
        decreases mapping@.len() - i,
    {
        if str_eq(mapping[i].0.as_str(), name) {
            proof {
                assert(mapping.deep_view()[i as int].0 == mapping@[i as int].0@);
            }
            return Some(i);
        }
        proof {
            assert(mapping.deep_view()[i as int].0 == mapping@[i as int].0@);
        }
        i = i + 1;
    }
    None
}

/// A copy of a tag list.
fn clone_tags(v: &Vec<Tag>) -> (r: Vec<Tag>)
    ensures
        r.deep_view() == v.deep_view(),
{
    let mut r: Vec<Tag> = Vec::new();
    let mut i: usize = 0;
    proof {
        assert(r.deep_view() =~= v.deep_view().take(0));
    }
    while i < v.len()
        invariant
            i <= v@.len(),
            r.deep_view() == v.deep_view().take(i as int),
        decreases v@.len() - i,
    {
        let ghost pre = r.deep_view();
        r.push(v[i].clone());
        proof {
            assert(r.deep_view() =~= pre.push(v@[i as int]@));
            assert(v.deep_view().take(i + 1 as int) =~= v.deep_view().take(i as int).push(
                v.deep_view()[i as int],
            ));
        }
        i = i + 1;
    }
    proof {
        assert(v.deep_view().take(v@.len() as int) =~= v.deep_view());
    }
    r
}

/// Whether `tag` already occurs in `v`, by structural equality.
fn tags_contain(v: &Vec<Tag>, tag: &Tag) -> (r: bool)
    ensures
        r == v.deep_view().contains(tag@),
{
    let mut i: usize = 0;
    while i < v.len()
        invariant
            i <= v@.len(),
            forall|j: int| 0 <= j < i ==> v.deep_view()[j] != tag@,
        decreases v@.len() - i,
    {
        if v[i] == *tag {
            proof {
                assert(v.deep_view()[i as int] == tag@);
            }
            return true;
        }
        proof {
            assert(v.deep_view()[i as int] == v@[i as int]@);
        }
        i = i + 1;
    }
    proof {
        if v.deep_view().contains(tag@) {
            let j = choose|j: int| 0 <= j < v.deep_view().len() && v.deep_view()[j] == tag@;
            assert(v.deep_view()[j] != tag@);
        }
    }
    false
}

/// The position of the first occurrence of `tag` in `v`, if any.
fn tags_position(v: &Vec<Tag>, tag: &Tag) -> (r: Option<usize>)
    ensures
        match r {
            Some(p) => p < v@.len() && v.deep_view()[p as int] == tag@ && forall|j: int|
                0 <= j < p ==> v.deep_view()[j] != tag@,
            None => forall|j: int| 0 <= j < v@.len() ==> v.deep_view()[j] != tag@,
        },
{
    let mut i: usize = 0;
    while i < v.len()
        invariant
            i <= v@.len(),
            forall|j: int| 0 <= j < i ==> v.deep_view()[j] != tag@,
        decreases v@.len() - i,
    {
        if v[i] == *tag {
            proof {
                assert(v.deep_view()[i as int] == tag@);
            }
            return Some(i);
        }
        proof {
            assert(v.deep_view()[i as int] == v@[i as int]@);
        }
        i = i + 1;
    }
    None
}

/// Whether every entry's tag list is nonempty and free of duplicates.
fn check_entries(v: &Vec<(String, Vec<Tag>)>) -> (r: bool)
    ensures
        r == forall|i: int| 0 <= i < v.deep_view().len() ==> tags_wf(#[trigger] v.deep_view()[i].1),
{
    let mut i: usize = 0;
    while i < v.len()
        invariant
            i <= v@.len(),
            forall|ii: int| 0 <= ii < i ==> tags_wf(#[trigger] v.deep_view()[ii].1),
        decreases v@.len() - i,
    {
        let ghost ts = v.deep_view()[i as int].1;
        let tags = &v[i].1;
        proof {
            assert(ts == v@[i as int].1.deep_view());
        }
        if tags.len() == 0 {
            proof {
                assert(!tags_wf(v.deep_view()[i as int].1));
            }
            return false;
        }
        let mut j: usize = 0;
        while j < tags.len()
            invariant
                j <= tags@.len(),
                ts == tags.deep_view(),
                ts == v.deep_view()[i as int].1,
                i < v@.len(),
                ts.len() == tags@.len(),
                forall|a: int, b: int| 0 <= a < b < ts.len() && a < j ==> ts[a] != ts[b],
            decreases tags@.len() - j,
        {
            let mut k: usize = j + 1;
            while k < tags.len()
                invariant
                    j < k,
                    k <= tags@.len() || k == j + 1,
                    j < tags@.len(),
                    i < v@.len(),
                    ts == v.deep_view()[i as int].1,
                    ts == tags.deep_view(),
                    ts.len() == tags@.len(),
                    forall|b: int| j < b < k ==> ts[j as int] != ts[b],
                decreases tags@.len() - k,
            {
                if tags[j] == tags[k] {
                    proof {
                        assert(ts[j as int] == tags@[j as int]@);
                        assert(ts[k as int] == tags@[k as int]@);
                        assert(!tags_wf(ts));
                        assert((i as int) < v.deep_view().len() && !tags_wf(
                            v.deep_view()[i as int].1,
                        ));
                    }
                    return false;
                }
                proof {
                    assert(ts[j as int] == tags@[j as int]@);
                    assert(ts[k as int] == tags@[k as int]@);
                }
                k = k + 1;
            }
            j = j + 1;
        }
        proof {
            assert(tags_wf(v.deep_view()[i as int].1));
        }
        i = i + 1;
    }
    true
}

impl TagFile {
    /// All invariants of the in-memory mapping hold.
    pub open spec fn wf(&self) -> bool {
        wf_mapping(self@)
    }

    /// A fresh, empty sidecar mapping for the given document path. The
    /// caller persists it by writing `to_document()` to that path.
    pub fn empty(path_to_tagfile_file: String) -> (tf: TagFile)
        ensures
            tf@ == Seq::<(Seq<char>, Seq<TagView>)>::empty(),
            tf.full_path_to_tagfile@ == path_to_tagfile_file@,
            tf.wf(),
    {
        let tf = TagFile { full_path_to_tagfile: path_to_tagfile_file, mapping: Vec::new() };
        proof {
            assert(tf@ =~= Seq::<(Seq<char>, Seq<TagView>)>::empty());
        }
        tf
    }

    /// The exact document text this mapping persists as.
    pub fn to_document(&self) -> (r: String)
        ensures
            r@ == ser_doc(self@),
    {
        codec::write_document(&self.mapping)
    }

    /// Reads a document back. Fails with `Serialize` when the text does
    /// not parse as a sidecar document or its mapping breaks an invariant.
    pub fn from_document(full_path_to_tagfile: String, doc: &str) -> (r: Result<
        TagFile,
        TagFileError,
    >)
        ensures
            match parse_doc(doc@) {
                Some(m) => if wf_mapping(m) {
                    r matches Ok(tf) && tf@ == m && tf.full_path_to_tagfile@
                        == full_path_to_tagfile@ && tf.wf()
                } else {
                    r matches Err(e) && e matches TagFileError::Serialize(_)
                },
                None => r matches Err(e) && e matches TagFileError::Serialize(_),
            },
    {
        match codec::parse_document(doc) {
            None => Err(
                TagFileError::Serialize(String::from_str("Cannot deserialize the tag document")),
            ),
            Some(entries) => {
                if check_entries(&entries) {
                    Ok(TagFile { full_path_to_tagfile, mapping: entries })
                } else {
                    Err(
                        TagFileError::Serialize(
                            String::from_str("Cannot deserialize the tag document"),
                        ),
                    )
                }
            },
        }
    }

    /// Adds `tag` under the base name of `path_to_file`: appended when
    /// new, left alone when already present, a fresh entry when the file
    /// was unmapped. The caller persists the updated document afterward.
    pub fn add_tag_to_file_in_self(&mut self, path_to_file: &str, tag: Tag) -> (r: Result<
        (),
        TagFileError,
    >)
        ensures
            final(self).full_path_to_tagfile@ == old(self).full_path_to_tagfile@,
            match paths::file_name_of(path_to_file@) {
                Some(fname) => r is Ok && final(self)@ == map_add(old(self)@, fname, tag@),
                None => (r matches Err(e) && e matches TagFileError::BadPath(_)) && final(self)@
                    == old(self)@,
            },
            old(self).wf() ==> final(self).wf(),
    {
        let fname = match paths::file_name_of_path(path_to_file) {
            None => {
                return Err(TagFileError::BadPath(String::from_str("Invalid File Name")));
            },
            Some(s) => s,
        };
        let ghost m0 = self@;
        let ghost nm = fname@;
        let ghost tv = tag@;
        match find_entry(&self.mapping, fname.as_str()) {
            Some(fi) => {
                proof {
                    lemma_map_add_at(m0, nm, tv, fi as int);
                }
                if tags_contain(&self.mapping[fi].1, &tag) {
                    proof {
                        assert(m0.update(fi as int, (m0[fi as int].0, m0[fi as int].1)) =~= m0);
                        if old(self).wf() {
                            assert(wf_mapping(final(self)@));
                        }
                    }
                    Ok(())
                } else {
                    let name_kept = self.mapping[fi].0.clone();
                    let mut ts = clone_tags(&self.mapping[fi].1);
                    ts.push(tag);
                    let ghost tsv = ts.deep_view();
                    proof {
                        assert(tsv =~= m0[fi as int].1.push(tv));
                    }
                    self.mapping.set(fi, (name_kept, ts));
                    proof {
                        assert(self@ =~= m0.update(fi as int, (m0[fi as int].0, tsv)));
                        if wf_mapping(m0) {
                            assert forall|i: int|
                                0 <= i < self@.len() implies tags_wf(#[trigger] self@[i].1) by {
                                if i != fi as int {
                                    assert(self@[i] == m0[i]);
                                } else {
                                    assert(tags_wf(m0[fi as int].1));
                                    assert(forall|j: int|
                                        0 <= j < m0[fi as int].1.len() ==> m0[fi as int].1[j]
                                            != tv);
                                    assert(tags_wf(tsv));
                                }
                            }
                            assert(distinct_keys(self@)) by {
                                assert(forall|i: int|
                                    0 <= i < self@.len() ==> (#[trigger] self@[i]).0 == m0[i].0);
                            }
                        }
                    }
                    Ok(())
                }
            },
            None => {
                proof {
                    lemma_map_add_none(m0, nm, tv);
                }
                let mut single: Vec<Tag> = Vec::new();
                single.push(tag);
                proof {
                    assert(single.deep_view() =~= seq![tv]);
                }
                self.mapping.push((fname, single));
                proof {
                    assert(self@ =~= m0.push((nm, seq![tv])));
                    if wf_mapping(m0) {
                        assert forall|i: int|
                            0 <= i < self@.len() implies tags_wf(#[trigger] self@[i].1) by {
                            if i < m0.len() {
                                assert(self@[i] == m0[i]);
                            } else {
                                assert(self@[i].1 =~= seq![tv]);
                            }
                        }
                        assert(distinct_keys(self@)) by {
                            assert(forall|i: int|
                                0 <= i < m0.len() ==> (#[trigger] self@[i]).0 == m0[i].0);
                            assert(self@[m0.len() as int].0 == nm);
                            assert(forall|i: int| 0 <= i < m0.len() ==> (#[trigger] m0[i]).0 != nm);
                        }
                    }
                }
                Ok(())
            },
        }
    }

    /// Removes `tag` from the base name of `path_to_file`: the first
    /// occurrence leaves the list, a list left empty takes its entry with
    /// it, and an unmapped file or absent tag is a no-op, not an error.
    /// The caller persists the updated document afterward.
    pub fn remove_tag_from_file_in_self(&mut self, path_to_file: &str, tag: &Tag) -> (r: Result<
        (),
        TagFileError,
    >)
        ensures
            final(self).full_path_to_tagfile@ == old(self).full_path_to_tagfile@,
            match paths::file_name_of(path_to_file@) {
                Some(fname) => r is Ok && final(self)@ == map_remove(old(self)@, fname, tag@),
                None => (r matches Err(e) && e matches TagFileError::BadPath(_)) && final(self)@
                    == old(self)@,
            },
            old(self).wf() ==> final(self).wf(),
    {
        let fname = match paths::file_name_of_path(path_to_file) {
            None => {
                return Err(TagFileError::BadPath(String::from_str("Invalid File Name")));
            },
            Some(s) => s,
        };
        let ghost m0 = self@;
        let ghost nm = fname@;
        let ghost tv = tag@;
        match find_entry(&self.mapping, fname.as_str()) {
            Some(fi) => {
                proof {
                    lemma_map_remove_at(m0, nm, tv, fi as int);
                }
                match tags_position(&self.mapping[fi].1, tag) {
                    Some(pos) => {
                        proof {
                            lemma_remove_first_at(m0[fi as int].1, tv, pos as int);
                        }
                        let name_kept = self.mapping[fi].0.clone();
                        let mut ts = clone_tags(&self.mapping[fi].1);
                        ts.remove(pos);
                        let ghost tsv = ts.deep_view();
                        proof {
                            assert(tsv =~= m0[fi as int].1.remove(pos as int));
                        }
                        if ts.len() == 0 {
                            self.mapping.remove(fi);
                            proof {
                                assert(self@ =~= m0.remove(fi as int));
                                if wf_mapping(m0) {
                                    assert forall|i: int|
                                        0 <= i < self@.len() implies tags_wf(
                                        #[trigger] self@[i].1,
                                    ) by {
                                        if i < fi as int {
                                            assert(self@[i] == m0[i]);
                                        } else {
                                            assert(self@[i] == m0[i + 1]);
                                        }
                                    }
                                    assert(distinct_keys(self@)) by {
                                        assert(forall|i: int|
                                            0 <= i < self@.len() ==> (#[trigger] self@[i])
                                                == if i < fi as int {
                                                m0[i]
                                            } else {
                                                m0[i + 1]
                                            });
                                    }
                                }
                            }
                        } else {
                            self.mapping.set(fi, (name_kept, ts));
                            proof {
                                assert(self@ =~= m0.update(fi as int, (m0[fi as int].0, tsv)));
                                if wf_mapping(m0) {
                                    assert forall|i: int|
                                        0 <= i < self@.len() implies tags_wf(
                                        #[trigger] self@[i].1,
                                    ) by {
                                        if i != fi as int {
                                            assert(self@[i] == m0[i]);
                                        } else {
                                            assert(tags_wf(m0[fi as int].1));
                                            assert forall|a: int, b: int|
                                                0 <= a < b < tsv.len() implies tsv[a] != tsv[b] by {
                                                let old_ts = m0[fi as int].1;
                                                let aa = if a < pos as int {
                                                    a
                                                } else {
                                                    a + 1
                                                };
                                                let bb = if b < pos as int {
                                                    b
                                                } else {
                                                    b + 1
                                                };
                                                assert(tsv[a] == old_ts[aa]);
                                                assert(tsv[b] == old_ts[bb]);
                                            }
                                            assert(tags_wf(tsv));
                                        }
                                    }
                                    assert(distinct_keys(self@)) by {
                                        assert(forall|i: int|
                                            0 <= i < self@.len() ==> (#[trigger] self@[i]).0
                                                == m0[i].0);
                                    }
                                }
                            }
                        }
                        Ok(())
                    },
                    None => {
                        proof {
                            lemma_remove_first_absent(m0[fi as int].1, tv);
                            if old(self).wf() {
                                assert(tags_wf(m0[fi as int].1));
                                assert(remove_first(m0[fi as int].1, tv).len() != 0);
                                assert(m0.update(
                                    fi as int,
                                    (m0[fi as int].0, m0[fi as int].1),
                                ) =~= m0);
                            } else {
                                if remove_first(m0[fi as int].1, tv).len() == 0 {
                                    assert(m0[fi as int].1.len() == 0);
                                }
                            }
                        }
                        if self.mapping[fi].1.len() == 0 {
                            self.mapping.remove(fi);
                            proof {
                                assert(m0[fi as int].1.len() == 0);
                                assert(self@ =~= m0.remove(fi as int));
                                assert(final(self)@ == map_remove(m0, nm, tv));
                            }
                        } else {
                            proof {
                                assert(m0[fi as int].1.len() != 0);
                                assert(m0.update(
                                    fi as int,
                                    (m0[fi as int].0, m0[fi as int].1),
                                ) =~= m0);
                                assert(map_remove(m0, nm, tv) == m0);
                            }
                        }
                        Ok(())
                    },
                }
            },
            None => {
                proof {
                    lemma_map_remove_none(m0, nm, tv);
                }
                Ok(())
            },
        }
    }

    /// The tags of `file_name`, in order; empty when unmapped. Reads
    /// memory only.
    pub fn get_all_tags_for_filename(&self, file_name: &String) -> (r: Vec<Tag>)
        ensures
            r.deep_view() == tags_of(self@, file_name@),
    {
        match find_entry(&self.mapping, file_name.as_str()) {
            Some(fi) => {
                proof {
                    lemma_lookup_at(self@, file_name@, fi as int);
                }
                clone_tags(&self.mapping[fi].1)
            },
            None => {
                proof {
                    lemma_lookup_none(self@, file_name@);
                }
                let r: Vec<Tag> = Vec::new();
                proof {
                    assert(r.deep_view() =~= Seq::<TagView>::empty());
                }
                r
            },
        }
    }

    /// Every literal string appearing in the mapping — each `Simple` text
    /// and each key and value — once each.
    pub fn get_all_tags_string(&self) -> (r: Vec<String>)
        ensures
            forall|s: Seq<char>|
                #[trigger] crate::text::contains_text(r.deep_view(), s) <==> literal_in(self@, s),
            distinct_texts(r.deep_view()),
    {
        let mut out: Vec<String> = Vec::new();
        let ghost m = self@;
        let mut i: usize = 0;
        while i < self.mapping.len()
            invariant
                i <= m.len(),
                m == self@,
                m.len() == self.mapping@.len(),
                forall|s: Seq<char>|
                    #[trigger] crate::text::contains_text(out.deep_view(), s)
                        <==> literal_in_prefix(m, i as int, 0, s),
                distinct_texts(out.deep_view()),
            decreases m.len() - i,
        {
            let tags = &self.mapping[i].1;
            let ghost ts = m[i as int].1;
            proof {
                assert(ts == self.mapping@[i as int].1.deep_view());
            }
            let mut j: usize = 0;
            while j < tags.len()
                invariant
                    j <= ts.len(),
                    i < m.len(),
                    m == self@,
                    ts == m[i as int].1,
                    ts == tags.deep_view(),
                    ts.len() == tags@.len(),
                    forall|s: Seq<char>|
                        #[trigger] crate::text::contains_text(out.deep_view(), s)
                            <==> literal_in_prefix(m, i as int, j as int, s),
                    distinct_texts(out.deep_view()),
                decreases ts.len() - j,
            {
                let ghost tv = ts[j as int];
                proof {
                    assert(tv == tags@[j as int]@);
                    lemma_literal_prefix_step(m, i as int, j as int);
                }
                match &tags[j] {
                    Tag::Simple(x) => {
                        add_literal(&mut out, x.as_str());
                    },
                    Tag::KV(k, v) => {
                        add_literal(&mut out, k.as_str());
                        add_literal(&mut out, v.as_str());
                    },
                }
                j = j + 1;
            }
            proof {
                lemma_literal_prefix_entry(m, i as int);
            }
            i = i + 1;
        }
        proof {
            assert(forall|s: Seq<char>|
                literal_in_prefix(m, m.len() as int, 0, s) == literal_in(m, s));
        }
        out
    }

    /// The raw mapping, for read-only iteration.
    pub fn get_mapping_ref(&self) -> (r: &Vec<(String, Vec<Tag>)>)
        ensures
            r.deep_view() == self@,
    {
        &self.mapping
    }
}

/// The literals of all tags before entry `ei`, plus those of the first
/// `tj` tags of entry `ei`.
pub open spec fn literal_in_prefix(
    m: Seq<(Seq<char>, Seq<TagView>)>,
    ei: int,
    tj: int,
    s: Seq<char>,
) -> bool {
    exists|i: int, j: int|
        0 <= i < m.len() && 0 <= j < m[i].1.len() && (i < ei || (i == ei && j < tj))
            && tag_has_literal(#[trigger] m[i].1[j], s)
}

proof fn lemma_literal_prefix_step(m: Seq<(Seq<char>, Seq<TagView>)>, ei: int, tj: int)
    requires
        0 <= ei < m.len(),
        0 <= tj < m[ei].1.len(),
    ensures
        forall|s: Seq<char>|
            literal_in_prefix(m, ei, tj + 1, s) == (literal_in_prefix(m, ei, tj, s)
                || tag_has_literal(m[ei].1[tj], s)),
{
    assert forall|s: Seq<char>|
        literal_in_prefix(m, ei, tj + 1, s) == (literal_in_prefix(m, ei, tj, s) || tag_has_literal(
            m[ei].1[tj],
            s,
        )) by {
        if literal_in_prefix(m, ei, tj, s) {
            let (i, j) = choose|i: int, j: int|
                0 <= i < m.len() && 0 <= j < m[i].1.len() && (i < ei || (i == ei && j < tj))
                    && tag_has_literal(#[trigger] m[i].1[j], s);
            assert(tag_has_literal(m[i].1[j], s) && (i < ei || (i == ei && j < tj + 1)));
        }
        if tag_has_literal(m[ei].1[tj], s) {
            assert(0 <= ei < m.len() && 0 <= tj < m[ei].1.len() && (ei < ei || (ei == ei && tj < tj
                + 1)) && tag_has_literal(m[ei].1[tj], s));
        }
        if literal_in_prefix(m, ei, tj + 1, s) {
            let (i, j) = choose|i: int, j: int|
                0 <= i < m.len() && 0 <= j < m[i].1.len() && (i < ei || (i == ei && j < tj + 1))
                    && tag_has_literal(#[trigger] m[i].1[j], s);
            if i == ei && j == tj {
                assert(tag_has_literal(m[ei].1[tj], s));
            } else {
                assert(literal_in_prefix(m, ei, tj, s));
            }
        }
    }
}

proof fn lemma_literal_prefix_entry(m: Seq<(Seq<char>, Seq<TagView>)>, ei: int)
    requires
        0 <= ei < m.len(),
    ensures
        forall|s: Seq<char>|
            literal_in_prefix(m, ei, m[ei].1.len() as int, s) == literal_in_prefix(
                m,
                ei + 1,
                0,
                s,
            ),
{
    assert forall|s: Seq<char>|
        literal_in_prefix(m, ei, m[ei].1.len() as int, s) == literal_in_prefix(
            m,
            ei + 1,
            0,
            s,
        ) by {
        if literal_in_prefix(m, ei, m[ei].1.len() as int, s) {
            let (i, j) = choose|i: int, j: int|
                0 <= i < m.len() && 0 <= j < m[i].1.len() && (i < ei || (i == ei && j < m[ei].1.len(
                ))) && tag_has_literal(#[trigger] m[i].1[j], s);
            assert(i < ei + 1 || (i == ei + 1 && j < 0));
        }
        if literal_in_prefix(m, ei + 1, 0, s) {
            let (i, j) = choose|i: int, j: int|
                0 <= i < m.len() && 0 <= j < m[i].1.len() && (i < ei + 1 || (i == ei + 1 && j < 0))
                    && tag_has_literal(#[trigger] m[i].1[j], s);
            assert(i < ei || (i == ei && j < m[ei].1.len()));
        }
    }
}

// ---------------------------------------------------------------------------
// Laws of adding and removing
// ---------------------------------------------------------------------------
/// Adding the same tag to the same file twice is the same as adding it
/// once: no duplicate is ever created.
pub proof fn lemma_add_tag_idempotent(m: Seq<(Seq<char>, Seq<TagView>)>, name: Seq<char>, t: TagView)
    ensures
        map_add(map_add(m, name, t), name, t) == map_add(m, name, t),
    decreases m.len(),
{
    if m.len() == 0 {
        let m1 = map_add(m, name, t);
        assert(m1 == seq![(name, seq![t])]);
        assert(m1[0].1.contains(t)) by {
            assert(m1[0].1[0] == t);
        }
        assert(map_add(m1, name, t) =~= m1);
    } else if m[0].0 == name {
        let ts1 = if m[0].1.contains(t) {
            m[0].1
        } else {
            m[0].1.push(t)
        };
        let m1 = map_add(m, name, t);
        assert(m1 == seq![(m[0].0, ts1)] + m.drop_first());
        assert(m1[0] == (m[0].0, ts1));
        assert(ts1.contains(t)) by {
            if m[0].1.contains(t) {
            } else {
                assert(m[0].1.push(t)[m[0].1.len() as int] == t);
            }
        }
        assert(m1.drop_first() =~= m.drop_first());
        assert(map_add(m1, name, t) =~= m1);
    } else {
        let m1 = map_add(m, name, t);
        assert(m1 == seq![m[0]] + map_add(m.drop_first(), name, t));
        assert(m1[0] == m[0]);
        lemma_add_tag_idempotent(m.drop_first(), name, t);
        assert(m1.drop_first() =~= map_add(m.drop_first(), name, t));
        assert(map_add(m1, name, t) =~= m1);
    }
}

/// Adding a tag to a previously unmapped file and then removing it leaves
/// the mapping exactly as it was: the file's entry is gone.
pub proof fn lemma_add_then_remove(m: Seq<(Seq<char>, Seq<TagView>)>, name: Seq<char>, t: TagView)
    requires
        lookup(m, name) is None,
    ensures
        map_remove(map_add(m, name, t), name, t) == m,
    decreases m.len(),
{
    if m.len() == 0 {
        let m1 = map_add(m, name, t);
        assert(m1 == seq![(name, seq![t])]);
        assert(m1[0].1[0] == t);
        assert(remove_first(m1[0].1, t) =~= Seq::<TagView>::empty());
        assert(map_remove(m1, name, t) =~= m);
    } else {
        assert(m[0].0 != name);
        let m1 = map_add(m, name, t);
        assert(m1 == seq![m[0]] + map_add(m.drop_first(), name, t));
        assert(m1[0] == m[0]);
        lemma_add_then_remove(m.drop_first(), name, t);
        assert(m1.drop_first() =~= map_add(m.drop_first(), name, t));
        assert(map_remove(m1, name, t) =~= m);
    }
}

/// Adding the same tag twice to a previously unmapped file leaves the
/// file with exactly that one tag: no duplicate, and nothing else.
pub proof fn lemma_add_twice_yields_single_tag(
    m: Seq<(Seq<char>, Seq<TagView>)>,
    name: Seq<char>,
    t: TagView,
)
    requires
        lookup(m, name) is None,
    ensures
        tags_of(map_add(map_add(m, name, t), name, t), name) == seq![t],
{
    lemma_add_tag_idempotent(m, name, t);
    lemma_tags_of_added(m, name, t);
}

/// A previously unmapped file, after one add, maps to exactly that one
/// tag.
pub proof fn lemma_tags_of_added(m: Seq<(Seq<char>, Seq<TagView>)>, name: Seq<char>, t: TagView)
    requires
        lookup(m, name) is None,
    ensures
        tags_of(map_add(m, name, t), name) == seq![t],
    decreases m.len(),
{
    if m.len() == 0 {
        let m1 = map_add(m, name, t);
        assert(m1[0].0 == name);
    } else {
        assert(m[0].0 != name);
        let m1 = map_add(m, name, t);
        assert(m1 == seq![m[0]] + map_add(m.drop_first(), name, t));
        assert(m1[0] == m[0]);
        lemma_tags_of_added(m.drop_first(), name, t);
        assert(m1.drop_first() =~= map_add(m.drop_first(), name, t));
    }
}

} // verus!

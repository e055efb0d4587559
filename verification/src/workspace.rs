//! A workspace: a named tagging project rooted at a directory. It owns an
//! index of loaded `TagFile`s keyed by canonical sidecar path, and a
//! best-effort cache of every tag literal seen in this session. The
//! workspace itself holds pure state: the caller performs the filesystem
//! steps (creating or opening the marker file, canonicalizing directories,
//! walking the tree, writing sidecar documents) and passes their outcomes
//! in as plain values.

use vstd::prelude::*;

use crate::codec::parse_doc;
use crate::codec::ser_doc;
use crate::errors::TagFileError;
use crate::errors::WorkspaceError;
use crate::tag::Tag;
use crate::tag::TagView;
use crate::tagfile::literal_in;
use crate::tagfile::map_add;
use crate::tagfile::map_remove;
use crate::tagfile::tags_of;
use crate::tagfile::wf_mapping;
use crate::tagfile::TagFile;
use crate::text::chars_of;
use crate::text::contains_text;
use crate::text::has_substring;
use vstd::pervasive::VecAdditionalExecFns;

verus! {

// ---------------------------------------------------------------------------
// Workspace names
// ---------------------------------------------------------------------------
/// Characters a workspace name may never contain.
pub open spec fn is_invalid_name_char(c: char) -> bool {
    c == '/' || c == '*' || c == '<' || c == '>' || c == '.' || c == ' '
}

/// Whether `c` has the Unicode uppercase property; what `char::is_uppercase`
/// answers.
pub uninterp spec fn is_uppercase_char(c: char) -> bool;

/// Relies on `char::is_uppercase`: whether the character has the Unicode
/// uppercase property, a function of the character alone. Of the ASCII
/// range its documentation gives exactly `A`–`Z` as uppercase.
#[verifier::external_body]
fn char_is_uppercase(c: char) -> (r: bool)
    ensures
        r == is_uppercase_char(c),
        ('A' <= c && c <= 'Z') ==> r,
        (c <= '\u{7f}' && !('A' <= c && c <= 'Z')) ==> !r,
{
    c.is_uppercase()
}

/// A valid workspace name: none of `/ * < > .` or space, and no uppercase
/// letter.
pub open spec fn valid_name(s: Seq<char>) -> bool {
    forall|i: int|
        0 <= i < s.len() ==> !is_invalid_name_char(#[trigger] s[i]) && !is_uppercase_char(s[i])
}

/// The marker file name for a workspace name: `.tagwksp_<name>`.
pub open spec fn marker_name_of(name: Seq<char>) -> Seq<char> {
    seq!['.', 't', 'a', 'g', 'w', 'k', 's', 'p', '_'] + name
}

/// The sidecar file name for a workspace name: `.tag_<name>`.
pub open spec fn sidecar_name_of(name: Seq<char>) -> Seq<char> {
    seq!['.', 't', 'a', 'g', '_'] + name
}

// ---------------------------------------------------------------------------
// The sidecar index, mathematically
// ---------------------------------------------------------------------------
/// The first index whose tag file sits at `path`, or -1.
pub open spec fn tf_index_of(tfs: Seq<TagFile>, path: Seq<char>) -> int
    decreases tfs.len(),
{
    if tfs.len() == 0 {
        -1
    } else if tfs[0].full_path_to_tagfile@ == path {
        0
    } else if tf_index_of(tfs.drop_first(), path) == -1 {
        -1
    } else {
        tf_index_of(tfs.drop_first(), path) + 1
    }
}

/// The tag the two text arguments stand for.
pub open spec fn spec_tag_of(t1: Seq<char>, t2: Option<String>) -> TagView {
    match t2 {
        None => TagView::Simple(t1),
        Some(s) => TagView::KV(t1, s@),
    }
}

/// How the sidecar index changes when a scanned document for `path` with
/// mapping `m` is folded in: the loaded copy is replaced, or a new entry
/// appended.
pub open spec fn tagfiles_after_load(
    old_tfs: Seq<TagFile>,
    new_tfs: Seq<TagFile>,
    path: Seq<char>,
    m: Seq<(Seq<char>, Seq<TagView>)>,
) -> bool {
    if tf_index_of(old_tfs, path) == -1 {
        &&& new_tfs.len() == old_tfs.len() + 1
        &&& forall|j: int| 0 <= j < old_tfs.len() ==> new_tfs[j] == old_tfs[j]
        &&& new_tfs.last()@ == m
        &&& new_tfs.last().full_path_to_tagfile@ == path
    } else {
        let fi = tf_index_of(old_tfs, path);
        &&& new_tfs.len() == old_tfs.len()
        &&& forall|j: int| 0 <= j < old_tfs.len() && j != fi ==> new_tfs[j] == old_tfs[j]
        &&& new_tfs[fi]@ == m
        &&& new_tfs[fi].full_path_to_tagfile@ == path
    }
}

/// How the sidecar index changes under an add: the mapping of the
/// sidecar at `path` gains the tag under `fname`, with a fresh sidecar
/// appended when none was loaded.
pub open spec fn tagfiles_after_add(
    old_tfs: Seq<TagFile>,
    new_tfs: Seq<TagFile>,
    path: Seq<char>,
    fname: Seq<char>,
    tv: TagView,
) -> bool {
    if tf_index_of(old_tfs, path) == -1 {
        &&& new_tfs.len() == old_tfs.len() + 1
        &&& forall|j: int| 0 <= j < old_tfs.len() ==> new_tfs[j] == old_tfs[j]
        &&& new_tfs.last()@ == map_add(Seq::empty(), fname, tv)
        &&& new_tfs.last().full_path_to_tagfile@ == path
    } else {
        let fi = tf_index_of(old_tfs, path);
        &&& new_tfs.len() == old_tfs.len()
        &&& forall|j: int| 0 <= j < old_tfs.len() && j != fi ==> new_tfs[j] == old_tfs[j]
        &&& new_tfs[fi]@ == map_add(old_tfs[fi]@, fname, tv)
        &&& new_tfs[fi].full_path_to_tagfile@ == path
    }
}

/// How the sidecar index changes under a remove delegated to the loaded
/// sidecar at index `fi`.
pub open spec fn tagfiles_after_remove(
    old_tfs: Seq<TagFile>,
    new_tfs: Seq<TagFile>,
    fi: int,
    fname: Seq<char>,
    tv: TagView,
) -> bool {
    &&& new_tfs.len() == old_tfs.len()
    &&& forall|j: int| 0 <= j < old_tfs.len() && j != fi ==> new_tfs[j] == old_tfs[j]
    &&& 0 <= fi < new_tfs.len()
    &&& new_tfs[fi]@ == map_remove(old_tfs[fi]@, fname, tv)
    &&& new_tfs[fi].full_path_to_tagfile@ == old_tfs[fi].full_path_to_tagfile@
}

/// The sidecar standing at `path` after an add: the appended one when
/// none was loaded before, the replaced one otherwise.
pub open spec fn loaded_tagfile(new_tfs: Seq<TagFile>, old_tfs: Seq<TagFile>, path: Seq<char>) -> TagFile {
    if tf_index_of(old_tfs, path) == -1 {
        new_tfs.last()
    } else {
        new_tfs[tf_index_of(old_tfs, path)]
    }
}

proof fn lemma_tf_index_at(tfs: Seq<TagFile>, path: Seq<char>, fi: int)
    requires
        0 <= fi < tfs.len(),
        tfs[fi].full_path_to_tagfile@ == path,
        forall|j: int| 0 <= j < fi ==> (#[trigger] tfs[j]).full_path_to_tagfile@ != path,
    ensures
        tf_index_of(tfs, path) == fi,
    decreases fi,
{
    if fi == 0 {
    } else {
        assert(tfs[0].full_path_to_tagfile@ != path);
        assert forall|j: int|
            0 <= j < fi - 1 implies (#[trigger] tfs.drop_first()[j]).full_path_to_tagfile@
            != path by {
            assert(tfs.drop_first()[j] == tfs[j + 1]);
        }
        assert(tfs.drop_first()[fi - 1] == tfs[fi]);
        lemma_tf_index_at(tfs.drop_first(), path, fi - 1);
    }
}

proof fn lemma_tf_index_none(tfs: Seq<TagFile>, path: Seq<char>)
    requires
        forall|j: int| 0 <= j < tfs.len() ==> (#[trigger] tfs[j]).full_path_to_tagfile@ != path,
    ensures
        tf_index_of(tfs, path) == -1,
    decreases tfs.len(),
{
    if tfs.len() == 0 {
    } else {
        assert(tfs[0].full_path_to_tagfile@ != path);
        assert forall|j: int|
            0 <= j < tfs.drop_first().len() implies (
        #[trigger] tfs.drop_first()[j]).full_path_to_tagfile@ != path by {
            assert(tfs.drop_first()[j] == tfs[j + 1]);
        }
        lemma_tf_index_none(tfs.drop_first(), path);
    }
}

/// Finds the loaded sidecar at `path`, reporting that earlier ones sit
/// elsewhere.
fn find_tagfile(tfs: &Vec<TagFile>, path: &str) -> (r: Option<usize>)
    ensures
        match r {
            Some(i) => i < tfs@.len() && tfs@[i as int].full_path_to_tagfile@ == path@ && forall|
                j: int,
            | 0 <= j < i ==> (#[trigger] tfs@[j]).full_path_to_tagfile@ != path@,
            None => forall|j: int|
                0 <= j < tfs@.len() ==> (#[trigger] tfs@[j]).full_path_to_tagfile@ != path@,
        },
{
    let mut i: usize = 0;
    while i < tfs.len()
        invariant
            i <= tfs@.len(),
            forall|j: int| 0 <= j < i ==> (#[trigger] tfs@[j]).full_path_to_tagfile@ != path@,
        decreases tfs@.len() - i,
    {
        if crate::text::str_eq(tfs[i].full_path_to_tagfile.as_str(), path) {
            return Some(i);
        }
        i = i + 1;
    }
    None
}

// ---------------------------------------------------------------------------
// Queries, mathematically
// ---------------------------------------------------------------------------
/// Whether one tag matches the query text under the given switches;
/// `fuzzy` asks for substring containment in place of equality.
pub open spec fn tag_matches(
    t: TagView,
    text: Seq<char>,
    simple: bool,
    key: bool,
    value: bool,
    fuzzy: bool,
) -> bool {
    match t {
        TagView::Simple(s) => simple && (if fuzzy {
            has_substring(s, text)
        } else {
            s == text
        }),
        TagView::KV(k, v) => (key && (if fuzzy {
            has_substring(k, text)
        } else {
            k == text
        })) || (value && (if fuzzy {
            has_substring(v, text)
        } else {
            v == text
        })),
    }
}

/// The matching tags of one file, in their original order.
pub open spec fn filtered_tags(
    ts: Seq<TagView>,
    text: Seq<char>,
    simple: bool,
    key: bool,
    value: bool,
    fuzzy: bool,
) -> Seq<TagView>
    decreases ts.len(),
{
    if ts.len() == 0 {
        Seq::empty()
    } else if tag_matches(ts[0], text, simple, key, value, fuzzy) {
        seq![ts[0]] + filtered_tags(ts.drop_first(), text, simple, key, value, fuzzy)
    } else {
        filtered_tags(ts.drop_first(), text, simple, key, value, fuzzy)
    }
}

/// A result list with `name` bound to `ts`: replaced in place when the
/// name is already present, appended otherwise.
pub open spec fn upsert_entry(
    acc: Seq<(Seq<char>, Seq<TagView>)>,
    name: Seq<char>,
    ts: Seq<TagView>,
) -> Seq<(Seq<char>, Seq<TagView>)>
    decreases acc.len(),
{
    if acc.len() == 0 {
        seq![(name, ts)]
    } else if acc[0].0 == name {
        seq![(name, ts)] + acc.drop_first()
    } else {
        seq![acc[0]] + upsert_entry(acc.drop_first(), name, ts)
    }
}

/// Folds one sidecar's entries into the running result.
pub open spec fn query_entries(
    acc: Seq<(Seq<char>, Seq<TagView>)>,
    entries: Seq<(Seq<char>, Seq<TagView>)>,
    text: Seq<char>,
    simple: bool,
    key: bool,
    value: bool,
    fuzzy: bool,
) -> Seq<(Seq<char>, Seq<TagView>)>
    decreases entries.len(),
{
    if entries.len() == 0 {
        acc
    } else {
        let fs = filtered_tags(entries[0].1, text, simple, key, value, fuzzy);
        let acc2 = if fs.len() == 0 {
            acc
        } else {
            upsert_entry(acc, entries[0].0, fs)
        };
        query_entries(acc2, entries.drop_first(), text, simple, key, value, fuzzy)
    }
}

/// Folds every loaded sidecar, in load order.
pub open spec fn query_tagfiles(
    acc: Seq<(Seq<char>, Seq<TagView>)>,
    tfs: Seq<TagFile>,
    text: Seq<char>,
    simple: bool,
    key: bool,
    value: bool,
    fuzzy: bool,
) -> Seq<(Seq<char>, Seq<TagView>)>
    decreases tfs.len(),
{
    if tfs.len() == 0 {
        acc
    } else {
        query_tagfiles(
            query_entries(acc, tfs[0]@, text, simple, key, value, fuzzy),
            tfs.drop_first(),
            text,
            simple,
            key,
            value,
            fuzzy,
        )
    }
}

/// The whole query result over the loaded sidecars.
pub open spec fn spec_query(
    tfs: Seq<TagFile>,
    text: Seq<char>,
    simple: bool,
    key: bool,
    value: bool,
    fuzzy: bool,
) -> Seq<(Seq<char>, Seq<TagView>)> {
    query_tagfiles(Seq::empty(), tfs, text, simple, key, value, fuzzy)
}

proof fn lemma_upsert_at(
    acc: Seq<(Seq<char>, Seq<TagView>)>,
    name: Seq<char>,
    ts: Seq<TagView>,
    fi: int,
)
    requires
        0 <= fi < acc.len(),
        acc[fi].0 == name,
        forall|j: int| 0 <= j < fi ==> (#[trigger] acc[j]).0 != name,
    ensures
        upsert_entry(acc, name, ts) == acc.update(fi, (name, ts)),
    decreases fi,
{
    if fi == 0 {
        assert(upsert_entry(acc, name, ts) =~= acc.update(0, (name, ts)));
    } else {
        assert(acc[0].0 != name);
        assert forall|j: int| 0 <= j < fi - 1 implies (#[trigger] acc.drop_first()[j]).0 != name by {
            assert(acc.drop_first()[j] == acc[j + 1]);
        }
        assert(acc.drop_first()[fi - 1] == acc[fi]);
        lemma_upsert_at(acc.drop_first(), name, ts, fi - 1);
        assert(seq![acc[0]] + acc.drop_first().update(fi - 1, (name, ts)) =~= acc.update(
            fi,
            (name, ts),
        ));
    }
}

proof fn lemma_upsert_none(acc: Seq<(Seq<char>, Seq<TagView>)>, name: Seq<char>, ts: Seq<TagView>)
    requires
        forall|j: int| 0 <= j < acc.len() ==> (#[trigger] acc[j]).0 != name,
    ensures
        upsert_entry(acc, name, ts) == acc.push((name, ts)),
    decreases acc.len(),
{
    if acc.len() == 0 {
        assert(upsert_entry(acc, name, ts) =~= acc.push((name, ts)));
    } else {
        assert(acc[0].0 != name);
        assert forall|j: int|
            0 <= j < acc.drop_first().len() implies (#[trigger] acc.drop_first()[j]).0 != name by {
            assert(acc.drop_first()[j] == acc[j + 1]);
        }
        lemma_upsert_none(acc.drop_first(), name, ts);
        assert(seq![acc[0]] + acc.drop_first().push((name, ts)) =~= acc.push((name, ts)));
    }
}

/// Whether this tag matches, executably.
fn tag_matches_exec(t: &Tag, text: &str, simple: bool, key: bool, value: bool, fuzzy: bool) -> (r:
    bool)
    ensures
        r == tag_matches(t@, text@, simple, key, value, fuzzy),
{
    match t {
        Tag::Simple(s) => simple && (if fuzzy {
            crate::text::contains_substring(s.as_str(), text)
        } else {
            crate::text::str_eq(s.as_str(), text)
        }),
        Tag::KV(k, v) => (key && (if fuzzy {
            crate::text::contains_substring(k.as_str(), text)
        } else {
            crate::text::str_eq(k.as_str(), text)
        })) || (value && (if fuzzy {
            crate::text::contains_substring(v.as_str(), text)
        } else {
            crate::text::str_eq(v.as_str(), text)
        })),
    }
}

/// The matching tags of one file, copied in order.
fn filter_tags_exec(
    ts: &Vec<Tag>,
    text: &str,
    simple: bool,
    key: bool,
    value: bool,
    fuzzy: bool,
) -> (r: Vec<Tag>)
    ensures
        r.deep_view() == filtered_tags(ts.deep_view(), text@, simple, key, value, fuzzy),
{
    let ghost dv = ts.deep_view();
    let mut out: Vec<Tag> = Vec::new();
    proof {
        assert(out.deep_view() =~= Seq::<TagView>::empty());
        assert(dv.skip(0) =~= dv);
    }
    let mut j: usize = 0;
    while j < ts.len()
        invariant
            j <= dv.len(),
            dv == ts.deep_view(),
            dv.len() == ts@.len(),
            filtered_tags(dv, text@, simple, key, value, fuzzy) == out.deep_view() + filtered_tags(
                dv.skip(j as int),
                text@,
                simple,
                key,
                value,
                fuzzy,
            ),
        decreases dv.len() - j,
    {
        proof {
            assert(dv.skip(j as int)[0] == dv[j as int]);
            assert(dv.skip(j as int).drop_first() =~= dv.skip(j + 1 as int));
            assert(dv[j as int] == ts@[j as int]@);
        }
        if tag_matches_exec(&ts[j], text, simple, key, value, fuzzy) {
            let ghost pre = out.deep_view();
            out.push(ts[j].clone());
            proof {
                assert(out.deep_view() =~= pre.push(dv[j as int]));
                assert(pre + (seq![dv[j as int]] + filtered_tags(dv.skip(j + 1 as int), text@,
                    simple, key, value, fuzzy)) =~= out.deep_view() + filtered_tags(
                    dv.skip(j + 1 as int),
                    text@,
                    simple,
                    key,
                    value,
                    fuzzy,
                ));
            }
        }
        j = j + 1;
    }
    proof {
        assert(dv.skip(dv.len() as int) =~= Seq::<TagView>::empty());
        assert(filtered_tags(Seq::<TagView>::empty(), text@, simple, key, value, fuzzy) =~= Seq::<
            TagView,
        >::empty());
        assert(out.deep_view() + Seq::<TagView>::empty() =~= out.deep_view());
    }
    out
}

/// Binds `name` to `ts` in the running result list.
fn upsert_exec(acc: &mut Vec<(String, Vec<Tag>)>, name: String, ts: Vec<Tag>)
    ensures
        final(acc).deep_view() == upsert_entry(old(acc).deep_view(), name@, ts.deep_view()),
{
    let ghost a0 = acc.deep_view();
    match crate::tagfile::find_entry(acc, name.as_str()) {
        Some(fi) => {
            proof {
                lemma_upsert_at(a0, name@, ts.deep_view(), fi as int);
            }
            acc.set(fi, (name, ts));
            proof {
                assert(acc.deep_view() =~= a0.update(fi as int, (name@, ts.deep_view())));
            }
        },
        None => {
            proof {
                lemma_upsert_none(a0, name@, ts.deep_view());
            }
            acc.push((name, ts));
            proof {
                assert(acc.deep_view() =~= a0.push((name@, ts.deep_view())));
            }
        },
    }
}

// ---------------------------------------------------------------------------
// The type
// ---------------------------------------------------------------------------
/// A named tagging project rooted at a directory.
#[derive(Debug)]
pub struct Workspace {
    /// The canonical root directory.
    root_folder: String,
    /// The validated workspace name.
    name: String,
    /// Loaded sidecar documents, keyed by their canonical path; at most
    /// one per path.
    all_tagfiles: Vec<TagFile>,
    /// Every tag literal observed in this session, once each.
    tags_cache: Vec<String>,
}

impl Workspace {
    /// The workspace name.
    pub closed spec fn spec_name(&self) -> Seq<char> {
        self.name@
    }

    /// The canonical root directory.
    pub closed spec fn spec_root_folder(&self) -> Seq<char> {
        self.root_folder@
    }

    /// The loaded sidecar documents, in load order.
    pub closed spec fn spec_tagfiles(&self) -> Seq<TagFile> {
        self.all_tagfiles@
    }

    /// The literals cache.
    pub closed spec fn spec_tags_cache(&self) -> Seq<Seq<char>> {
        self.tags_cache.deep_view()
    }

    /// All invariants: a valid name, distinct sidecar paths, every loaded
    /// mapping well-formed, no duplicate in the cache.
    pub open spec fn wf(&self) -> bool {
        &&& valid_name(self.spec_name())
        &&& forall|i: int, j: int|
            0 <= i < j < self.spec_tagfiles().len()
                ==> (#[trigger] self.spec_tagfiles()[i]).full_path_to_tagfile@ != (
            #[trigger] self.spec_tagfiles()[j]).full_path_to_tagfile@
        &&& forall|i: int|
            0 <= i < self.spec_tagfiles().len() ==> (#[trigger] self.spec_tagfiles()[i]).wf()
        &&& crate::text::distinct_texts(self.spec_tags_cache())
    }

    /// The validity rule for workspace names: none of `/ * < > .` or
    /// space, and no uppercase letter.
    pub fn is_name_valid(name: &String) -> (r: bool)
        ensures
            r == valid_name(name@),
    {
        let cs = chars_of(name.as_str());
        let mut i: usize = 0;
        while i < cs.len()
            invariant
                i <= cs@.len(),
                cs@ == name@,
                forall|j: int|
                    0 <= j < i ==> !is_invalid_name_char(#[trigger] name@[j]) && !is_uppercase_char(
                        name@[j],
                    ),
            decreases cs@.len() - i,
        {
            let c = cs[i];
            if c == '/' || c == '*' || c == '<' || c == '>' || c == '.' || c == ' ' {
                return false;
            }
            if char_is_uppercase(c) {
                return false;
            }
            i = i + 1;
        }
        true
    }

    /// The file name of a workspace marker file, given a name.
    pub fn get_workspace_file_name(name: &String) -> (r: String)
        ensures
            r@ == marker_name_of(name@),
    {
        proof {
            reveal_strlit(".tagwksp_");
        }
        let r = String::from_str(".tagwksp_").concat(name.as_str());
        proof {
            assert(r@ =~= marker_name_of(name@));
        }
        r
    }

    /// The file name of a sidecar tag file, given a workspace name.
    pub fn get_tagfile_file_name(workspace_name: &String) -> (r: String)
        ensures
            r@ == sidecar_name_of(workspace_name@),
    {
        proof {
            reveal_strlit(".tag_");
        }
        let r = String::from_str(".tag_").concat(workspace_name.as_str());
        proof {
            assert(r@ =~= sidecar_name_of(workspace_name@));
        }
        r
    }

    /// Opens a workspace. The name is validated first; then the caller's
    /// two filesystem outcomes decide: whether the marker file
    /// `.tagwksp_<name>` could be opened in the root directory, and what
    /// the directory canonicalized to (`None` when canonicalization
    /// failed). Fails with `InvalidName` or `FileUnavailable` accordingly.
    pub fn open_workspace(name: &String, marker_opened: bool, canonical_dir: Option<String>) -> (r:
        Result<Workspace, WorkspaceError>)
        ensures
            !valid_name(name@) ==> (r matches Err(e) && (e matches WorkspaceError::InvalidName(n)
                && n@ == name@)),
            valid_name(name@) && !marker_opened ==> (r matches Err(e) && e
                matches WorkspaceError::FileUnavailable(_)),

            valid_name(name@) && marker_opened ==> (match canonical_dir {
                None => r matches Err(e) && e matches WorkspaceError::FileUnavailable(_),
                Some(d) => r matches Ok(w) && w.spec_name() == name@ && w.spec_root_folder() == d@
                    && w.spec_tagfiles().len() == 0 && w.spec_tags_cache().len() == 0 && w.wf(),
            }),
    {
        Workspace::assemble(name, marker_opened, canonical_dir)
    }

    /// Creates a workspace. The same decision as `open_workspace`, with
    /// the caller's outcome of creating the marker file exclusively in
    /// place of opening it: creation of an already-present workspace
    /// hands in `false` and fails with `FileUnavailable`.
    pub fn create_workspace(name: &String, marker_created: bool, canonical_dir: Option<String>) -> (
        r: Result<Workspace, WorkspaceError>)
        ensures
            !valid_name(name@) ==> (r matches Err(e) && (e matches WorkspaceError::InvalidName(n)
                && n@ == name@)),
            valid_name(name@) && !marker_created ==> (r matches Err(e) && e
                matches WorkspaceError::FileUnavailable(_)),

            valid_name(name@) && marker_created ==> (match canonical_dir {
                None => r matches Err(e) && e matches WorkspaceError::FileUnavailable(_),
                Some(d) => r matches Ok(w) && w.spec_name() == name@ && w.spec_root_folder() == d@
                    && w.spec_tagfiles().len() == 0 && w.spec_tags_cache().len() == 0 && w.wf(),
            }),
    {
        Workspace::assemble(name, marker_created, canonical_dir)
    }

    /// The common decision behind opening and creating: validate the
    /// name, require the marker outcome, require a canonical root.
    fn assemble(name: &String, marker_ok: bool, canonical_dir: Option<String>) -> (r: Result<
        Workspace,
        WorkspaceError,
    >)
        ensures
            !valid_name(name@) ==> (r matches Err(e) && (e matches WorkspaceError::InvalidName(n)
                && n@ == name@)),
            valid_name(name@) && !marker_ok ==> (r matches Err(e) && e
                matches WorkspaceError::FileUnavailable(_)),

            valid_name(name@) && marker_ok ==> (match canonical_dir {
                None => r matches Err(e) && e matches WorkspaceError::FileUnavailable(_),
                Some(d) => r matches Ok(w) && w.spec_name() == name@ && w.spec_root_folder() == d@
                    && w.spec_tagfiles().len() == 0 && w.spec_tags_cache().len() == 0 && w.wf(),
            }),
    {
        if !Workspace::is_name_valid(name) {
            return Err(WorkspaceError::InvalidName(name.clone()));
        }
        if !marker_ok {
            return Err(WorkspaceError::FileUnavailable(String::new()));
        }
        match canonical_dir {
            None => Err(
                WorkspaceError::FileUnavailable(
                    String::from_str("Cannot get parent directory"),
                ),
            ),
            Some(d) => {
                let w = Workspace {
                    root_folder: d,
                    name: name.clone(),
                    all_tagfiles: Vec::new(),
                    tags_cache: Vec::new(),
                };
                proof {
                    assert(w.spec_tags_cache() =~= Seq::<Seq<char>>::empty());
                }
                Ok(w)
            },
        }
    }

    /// Folds one scanned sidecar document into the workspace: parses it,
    /// unions its literals into the cache, and indexes it under its
    /// canonical path. A path already loaded is replaced, so a rescan
    /// reflects what is on disk. Fails with `Serialize`, leaving the
    /// workspace unchanged, when the document does not parse or breaks a
    /// mapping invariant; callers scanning a tree simply skip such files.
    pub fn absorb_tagfile_document(
        &mut self,
        canonical_sidecar_path: String,
        doc: &str,
    ) -> (r: Result<(), TagFileError>)
        ensures
            final(self).spec_name() == old(self).spec_name(),
            final(self).spec_root_folder() == old(self).spec_root_folder(),
            old(self).wf() ==> final(self).wf(),
            match parse_doc(doc@) {
                Some(m) => if wf_mapping(m) {
                    r is Ok && tagfiles_after_load(
                        old(self).spec_tagfiles(),
                        final(self).spec_tagfiles(),
                        canonical_sidecar_path@,
                        m,
                    ) && (forall|s: Seq<char>|
                        #[trigger] contains_text(final(self).spec_tags_cache(), s) <==> (
                        contains_text(old(self).spec_tags_cache(), s) || literal_in(m, s)))
                } else {
                    (r matches Err(e) && e matches TagFileError::Serialize(_)) && *final(self)
                        == *old(self)
                },
                None => (r matches Err(e) && e matches TagFileError::Serialize(_)) && *final(self)
                    == *old(self),
            },
    {
        let tf = match TagFile::from_document(canonical_sidecar_path, doc) {
            Ok(tf) => tf,
            Err(e) => {
                return Err(e);
            },
        };
        let ghost m = tf@;
        // Union this document's literals into the cache.
        let lits = tf.get_all_tags_string();
        let mut li: usize = 0;
        let ghost c0 = self.spec_tags_cache();
        while li < lits.len()
            invariant
                li <= lits@.len(),
                crate::text::distinct_texts(c0) ==> crate::text::distinct_texts(
                    self.spec_tags_cache(),
                ),
                forall|s: Seq<char>|
                    #[trigger] contains_text(self.spec_tags_cache(), s) <==> (contains_text(c0, s)
                        || exists|j: int| 0 <= j < li && lits.deep_view()[j] == s),
                self.spec_name() == old(self).spec_name(),
                self.spec_root_folder() == old(self).spec_root_folder(),
                self.spec_tagfiles() == old(self).spec_tagfiles(),
            decreases lits@.len() - li,
        {
            let ghost cpre = self.spec_tags_cache();
            crate::text::add_literal(&mut self.tags_cache, lits[li].as_str());
            proof {
                assert(lits.deep_view()[li as int] == lits@[li as int]@);
                assert forall|s: Seq<char>|
                    #[trigger] contains_text(self.spec_tags_cache(), s) <==> (contains_text(c0, s)
                        || exists|j: int| 0 <= j < li + 1 && lits.deep_view()[j] == s) by {
                    if contains_text(self.spec_tags_cache(), s) {
                        if contains_text(cpre, s) {
                            if !contains_text(c0, s) {
                                let j = choose|j: int| 0 <= j < li && lits.deep_view()[j] == s;
                                assert(0 <= j < li + 1 && lits.deep_view()[j] == s);
                            }
                        } else {
                            assert(s == lits.deep_view()[li as int]);
                            assert(0 <= li < li + 1 && lits.deep_view()[li as int] == s);
                        }
                    }
                    if contains_text(c0, s) {
                        assert(contains_text(cpre, s));
                        assert(contains_text(self.spec_tags_cache(), s));
                    }
                    if exists|j: int| 0 <= j < li + 1 && lits.deep_view()[j] == s {
                        let j = choose|j: int| 0 <= j < li + 1 && lits.deep_view()[j] == s;
                        if j < li {
                            assert(contains_text(cpre, s));
                            assert(contains_text(self.spec_tags_cache(), s));
                        } else {
                            assert(s == lits.deep_view()[li as int]);
                            assert(contains_text(self.spec_tags_cache(), s));
                        }
                    }
                }
            }
            li = li + 1;
        }
        let ghost cfin = self.spec_tags_cache();
        proof {
            assert forall|s: Seq<char>|
                #[trigger] contains_text(cfin, s) <==> (contains_text(c0, s) || literal_in(
                    m,
                    s,
                )) by {
                assert(contains_text(self.spec_tags_cache(), s) <==> (contains_text(c0, s)
                    || exists|j: int| 0 <= j < lits@.len() && lits.deep_view()[j] == s));
                assert(contains_text(lits.deep_view(), s) <==> literal_in(m, s));
                if contains_text(lits.deep_view(), s) {
                    let j = choose|j: int| 0 <= j < lits.deep_view().len() && lits.deep_view()[j]
                        == s;
                    assert(0 <= j < lits@.len() && lits.deep_view()[j] == s);
                }
                if exists|j: int| 0 <= j < lits@.len() && lits.deep_view()[j] == s {
                    let j = choose|j: int| 0 <= j < lits@.len() && lits.deep_view()[j] == s;
                    assert(contains_text(lits.deep_view(), s));
                }
            }
        }
        // Index the document under its path, replacing any loaded copy.
        let ghost tfs0 = self.spec_tagfiles();
        let path_now = tf.full_path_to_tagfile.clone();
        match find_tagfile(&self.all_tagfiles, path_now.as_str()) {
            Some(fi) => {
                proof {
                    lemma_tf_index_at(tfs0, path_now@, fi as int);
                }
                self.all_tagfiles.remove(fi);
                self.all_tagfiles.insert(fi, tf);
                proof {
                    assert(self.spec_tagfiles() =~= tfs0.update(fi as int, tf));
                    assert(tagfiles_after_load(tfs0, self.spec_tagfiles(), path_now@, m));
                    if old(self).wf() {
                        assert forall|i: int, j: int|
                            0 <= i < j < self.spec_tagfiles().len() implies (
                        #[trigger] self.spec_tagfiles()[i]).full_path_to_tagfile@ != (
                        #[trigger] self.spec_tagfiles()[j]).full_path_to_tagfile@ by {
                            assert(tfs0[i].full_path_to_tagfile@ != tfs0[j].full_path_to_tagfile@);
                        }
                        assert forall|i: int|
                            0 <= i < self.spec_tagfiles().len() implies (
                        #[trigger] self.spec_tagfiles()[i]).wf() by {
                            if i != fi as int {
                                assert(self.spec_tagfiles()[i] == tfs0[i]);
                            }
                        }
                    }
                }
            },
            None => {
                proof {
                    lemma_tf_index_none(tfs0, path_now@);
                }
                self.all_tagfiles.push(tf);
                proof {
                    assert(self.spec_tagfiles() =~= tfs0.push(tf));
                    assert(self.spec_tagfiles().last() == tf);
                    assert(tagfiles_after_load(tfs0, self.spec_tagfiles(), path_now@, m));
                    if old(self).wf() {
                        assert forall|i: int, j: int|
                            0 <= i < j < self.spec_tagfiles().len() implies (
                        #[trigger] self.spec_tagfiles()[i]).full_path_to_tagfile@ != (
                        #[trigger] self.spec_tagfiles()[j]).full_path_to_tagfile@ by {
                            if j < tfs0.len() {
                                assert(tfs0[i].full_path_to_tagfile@
                                    != tfs0[j].full_path_to_tagfile@);
                            } else {
                                assert(tfs0[i].full_path_to_tagfile@ != path_now@);
                            }
                        }
                        assert forall|i: int|
                            0 <= i < self.spec_tagfiles().len() implies (
                        #[trigger] self.spec_tagfiles()[i]).wf() by {
                            if i < tfs0.len() {
                                assert(self.spec_tagfiles()[i] == tfs0[i]);
                            } else {
                                assert(self.spec_tagfiles()[i] == tf);
                            }
                        }
                    }
                }
            },
        }
        proof {
            assert(self.spec_tags_cache() == cfin);
            assert forall|s: Seq<char>|
                #[trigger] contains_text(self.spec_tags_cache(), s) <==> (contains_text(c0, s)
                    || literal_in(m, s)) by {
                assert(contains_text(cfin, s) <==> (contains_text(c0, s) || literal_in(m, s)));
            }
        }
        Ok(())
    }

    /// Adds the given string(s) as a tag to a file: one string makes a
    /// `Simple` tag, two make a `KV` tag. The file's directory must
    /// already be canonicalized by the caller. Delegates to the loaded
    /// sidecar for that directory, creating a fresh one when none is
    /// loaded, and updates the literals cache. Returns the sidecar path
    /// and the full document text for the caller to persist.
    pub fn add_tag_to_file(
        &mut self,
        canonical_parent_dir: &str,
        path_to_file: &str,
        tag_1: String,
        tag_2: Option<String>,
    ) -> (r: Result<(String, String), TagFileError>)
        ensures
            final(self).spec_name() == old(self).spec_name(),
            final(self).spec_root_folder() == old(self).spec_root_folder(),
            old(self).wf() ==> final(self).wf(),
            match crate::paths::file_name_of(path_to_file@) {
                None => (r matches Err(e) && e matches TagFileError::BadPath(_)) && *final(self)
                    == *old(self),
                Some(fname) => r matches Ok(pair) && pair.0@ == crate::paths::join_of(
                    canonical_parent_dir@,
                    sidecar_name_of(old(self).spec_name()),
                ) && tagfiles_after_add(
                    old(self).spec_tagfiles(),
                    final(self).spec_tagfiles(),
                    crate::paths::join_of(
                        canonical_parent_dir@,
                        sidecar_name_of(old(self).spec_name()),
                    ),
                    fname,
                    spec_tag_of(tag_1@, tag_2),
                ) && pair.1@ == ser_doc(
                    loaded_tagfile(
                        final(self).spec_tagfiles(),
                        old(self).spec_tagfiles(),
                        crate::paths::join_of(
                            canonical_parent_dir@,
                            sidecar_name_of(old(self).spec_name()),
                        ),
                    )@,
                ) && (forall|s: Seq<char>|
                    #[trigger] contains_text(final(self).spec_tags_cache(), s) <==> (contains_text(
                        old(self).spec_tags_cache(),
                        s,
                    ) || s == tag_1@ || (tag_2 matches Some(t2) && s == t2@))),
            },
    {
        if crate::paths::file_name_of_path(path_to_file).is_none() {
            return Err(TagFileError::BadPath(String::from_str("Invalid File Name")));
        }
        let tag: Tag = match &tag_2 {
            None => Tag::Simple(tag_1.clone()),
            Some(t2) => Tag::KV(tag_1.clone(), t2.clone()),
        };
        let sidecar = crate::paths::join_path(
            canonical_parent_dir,
            Workspace::get_tagfile_file_name(&self.name).as_str(),
        );
        let ghost tfs0 = self.spec_tagfiles();
        let ghost sp = sidecar@;
        let doc: String;
        match find_tagfile(&self.all_tagfiles, sidecar.as_str()) {
            Some(fi) => {
                proof {
                    lemma_tf_index_at(tfs0, sp, fi as int);
                }
                let mut tf = self.all_tagfiles.remove(fi);
                match tf.add_tag_to_file_in_self(path_to_file, tag) {
                    Ok(()) => {},
                    Err(e) => {
                        // Unreachable: the path was already checked to
                        // carry a usable file name.
                        proof {
                            assert(false);
                        }
                        self.all_tagfiles.insert(fi, tf);
                        return Err(e);
                    },
                }
                doc = tf.to_document();
                self.all_tagfiles.insert(fi, tf);
                proof {
                    assert(self.spec_tagfiles() =~= tfs0.update(fi as int, tf));
                    if old(self).wf() {
                        assert forall|i: int, j: int|
                            0 <= i < j < self.spec_tagfiles().len() implies (
                        #[trigger] self.spec_tagfiles()[i]).full_path_to_tagfile@ != (
                        #[trigger] self.spec_tagfiles()[j]).full_path_to_tagfile@ by {
                            assert(tfs0[i].full_path_to_tagfile@ != tfs0[j].full_path_to_tagfile@);
                        }
                    }
                }
            },
            None => {
                proof {
                    lemma_tf_index_none(tfs0, sp);
                }
                let mut tf = TagFile::empty(sidecar.clone());
                match tf.add_tag_to_file_in_self(path_to_file, tag) {
                    Ok(()) => {},
                    Err(e) => {
                        // Unreachable: the path was already checked to
                        // carry a usable file name.
                        proof {
                            assert(false);
                        }
                        return Err(e);
                    },
                }
                doc = tf.to_document();
                self.all_tagfiles.push(tf);
                proof {
                    assert(self.spec_tagfiles() =~= tfs0.push(tf));
                    if old(self).wf() {
                        assert forall|i: int, j: int|
                            0 <= i < j < self.spec_tagfiles().len() implies (
                        #[trigger] self.spec_tagfiles()[i]).full_path_to_tagfile@ != (
                        #[trigger] self.spec_tagfiles()[j]).full_path_to_tagfile@ by {
                            if j < tfs0.len() {
                                assert(tfs0[i].full_path_to_tagfile@
                                    != tfs0[j].full_path_to_tagfile@);
                            } else {
                                assert(tfs0[i].full_path_to_tagfile@ != sp);
                            }
                        }
                    }
                }
            },
        }
        crate::text::add_literal(&mut self.tags_cache, tag_1.as_str());
        match &tag_2 {
            None => {},
            Some(t2) => {
                crate::text::add_literal(&mut self.tags_cache, t2.as_str());
            },
        }
        Ok((sidecar, doc))
    }

    /// Removes the given string(s) as a tag from a file. When no sidecar
    /// is loaded for the file's directory this is a silent no-op — it
    /// does not load from disk on demand — and `Ok(None)` is returned.
    /// Otherwise the updated sidecar path and document text come back for
    /// the caller to persist, even when the file did not carry the tag.
    pub fn remove_tag_from_file(
        &mut self,
        canonical_parent_dir: &str,
        path_to_file: &str,
        tag_1: String,
        tag_2: Option<String>,
    ) -> (r: Result<Option<(String, String)>, TagFileError>)
        ensures
            final(self).spec_name() == old(self).spec_name(),
            final(self).spec_root_folder() == old(self).spec_root_folder(),
            final(self).spec_tags_cache() == old(self).spec_tags_cache(),
            old(self).wf() ==> final(self).wf(),
            tf_index_of(
                old(self).spec_tagfiles(),
                crate::paths::join_of(canonical_parent_dir@, sidecar_name_of(old(self).spec_name())),
            ) == -1 ==> (r matches Ok(o) && o is None) && *final(self) == *old(self),
            tf_index_of(
                old(self).spec_tagfiles(),
                crate::paths::join_of(canonical_parent_dir@, sidecar_name_of(old(self).spec_name())),
            ) >= 0 ==> match crate::paths::file_name_of(path_to_file@) {
                None => (r matches Err(e) && e matches TagFileError::BadPath(_)) && *final(self)
                    == *old(self),
                Some(fname) => r matches Ok(o) && o matches Some(pair) && pair.0@
                    == crate::paths::join_of(
                    canonical_parent_dir@,
                    sidecar_name_of(old(self).spec_name()),
                ) && tagfiles_after_remove(
                    old(self).spec_tagfiles(),
                    final(self).spec_tagfiles(),
                    tf_index_of(
                        old(self).spec_tagfiles(),
                        crate::paths::join_of(
                            canonical_parent_dir@,
                            sidecar_name_of(old(self).spec_name()),
                        ),
                    ),
                    fname,
                    spec_tag_of(tag_1@, tag_2),
                ) && pair.1@ == ser_doc(
                    final(self).spec_tagfiles()[tf_index_of(
                        old(self).spec_tagfiles(),
                        crate::paths::join_of(
                            canonical_parent_dir@,
                            sidecar_name_of(old(self).spec_name()),
                        ),
                    )]@,
                ),
            },
    {
        let tag: Tag = match &tag_2 {
            None => Tag::Simple(tag_1.clone()),
            Some(t2) => Tag::KV(tag_1.clone(), t2.clone()),
        };
        let sidecar = crate::paths::join_path(
            canonical_parent_dir,
            Workspace::get_tagfile_file_name(&self.name).as_str(),
        );
        let ghost tfs0 = self.spec_tagfiles();
        let ghost sp = sidecar@;
        match find_tagfile(&self.all_tagfiles, sidecar.as_str()) {
            None => {
                proof {
                    lemma_tf_index_none(tfs0, sp);
                }
                Ok(None)
            },
            Some(fi) => {
                proof {
                    lemma_tf_index_at(tfs0, sp, fi as int);
                }
                if crate::paths::file_name_of_path(path_to_file).is_none() {
                    return Err(TagFileError::BadPath(String::from_str("Invalid File Name")));
                }
                let mut tf = self.all_tagfiles.remove(fi);
                match tf.remove_tag_from_file_in_self(path_to_file, &tag) {
                    Ok(()) => {},
                    Err(e) => {
                        // Unreachable: the path was already checked to
                        // carry a usable file name.
                        proof {
                            assert(false);
                        }
                        self.all_tagfiles.insert(fi, tf);
                        return Err(e);
                    },
                }
                let doc = tf.to_document();
                self.all_tagfiles.insert(fi, tf);
                proof {
                    assert(self.spec_tagfiles() =~= tfs0.update(fi as int, tf));
                    if old(self).wf() {
                        assert forall|i: int, j: int|
                            0 <= i < j < self.spec_tagfiles().len() implies (
                        #[trigger] self.spec_tagfiles()[i]).full_path_to_tagfile@ != (
                        #[trigger] self.spec_tagfiles()[j]).full_path_to_tagfile@ by {
                            assert(tfs0[i].full_path_to_tagfile@ != tfs0[j].full_path_to_tagfile@);
                        }
                    }
                }
                Ok(Some((sidecar, doc)))
            },
        }
    }

    /// The tags of a file, read from the loaded sidecar of its
    /// (already canonicalized) directory; empty when none is loaded or
    /// the file is unmapped. Fails only when the path carries no usable
    /// file name.
    pub fn get_tags_for_file_name(
        &self,
        canonical_parent_dir: &str,
        full_path_to_file: &str,
    ) -> (r: Result<Vec<Tag>, WorkspaceError>)
        ensures
            match crate::paths::file_name_of(full_path_to_file@) {
                None => r matches Err(e) && e matches WorkspaceError::InvalidName(_),
                Some(fname) => r matches Ok(v) && v.deep_view() == (if tf_index_of(
                    self.spec_tagfiles(),
                    crate::paths::join_of(canonical_parent_dir@, sidecar_name_of(self.spec_name())),
                ) == -1 {
                    Seq::<TagView>::empty()
                } else {
                    tags_of(
                        self.spec_tagfiles()[tf_index_of(
                            self.spec_tagfiles(),
                            crate::paths::join_of(
                                canonical_parent_dir@,
                                sidecar_name_of(self.spec_name()),
                            ),
                        )]@,
                        fname,
                    )
                }),
            },
    {
        let file_name = match crate::paths::file_name_of_path(full_path_to_file) {
            None => {
                return Err(WorkspaceError::InvalidName(String::from_str("Invalid File Name")));
            },
            Some(n) => n,
        };
        let sidecar = crate::paths::join_path(
            canonical_parent_dir,
            Workspace::get_tagfile_file_name(&self.name).as_str(),
        );
        match find_tagfile(&self.all_tagfiles, sidecar.as_str()) {
            None => {
                proof {
                    lemma_tf_index_none(self.spec_tagfiles(), sidecar@);
                }
                let v: Vec<Tag> = Vec::new();
                proof {
                    assert(v.deep_view() =~= Seq::<TagView>::empty());
                }
                Ok(v)
            },
            Some(fi) => {
                proof {
                    lemma_tf_index_at(self.spec_tagfiles(), sidecar@, fi as int);
                }
                Ok(self.all_tagfiles[fi].get_all_tags_for_filename(&file_name))
            },
        }
    }

    /// Every file whose loaded tags match `text` exactly, with its
    /// matching tags. A `Simple` tag matches when `simple` is on and its
    /// text equals `text`; a `KV` tag when `key` is on and its key
    /// matches, or `value` is on and its value matches. Files with no
    /// match are omitted; a file name appearing in several sidecars keeps
    /// the matches of the sidecar loaded last.
    pub fn query_exact(&self, text: &str, simple: bool, key: bool, value: bool) -> (r: Vec<
        (String, Vec<Tag>),
    >)
        ensures
            r.deep_view() == spec_query(self.spec_tagfiles(), text@, simple, key, value, false),
    {
        self.run_query(text, simple, key, value, false)
    }

    /// Like `query_exact`, but a tag component matches when it contains
    /// `text` as a substring.
    pub fn query_fuzzy(&self, text: &str, simple: bool, key: bool, value: bool) -> (r: Vec<
        (String, Vec<Tag>),
    >)
        ensures
            r.deep_view() == spec_query(self.spec_tagfiles(), text@, simple, key, value, true),
    {
        self.run_query(text, simple, key, value, true)
    }

    /// Walks every loaded sidecar's every entry, in order, collecting
    /// each file's matching tags.
    fn run_query(&self, text: &str, simple: bool, key: bool, value: bool, fuzzy: bool) -> (r: Vec<
        (String, Vec<Tag>),
    >)
        ensures
            r.deep_view() == spec_query(self.spec_tagfiles(), text@, simple, key, value, fuzzy),
    {
        let ghost tfs = self.spec_tagfiles();
        let mut acc: Vec<(String, Vec<Tag>)> = Vec::new();
        proof {
            assert(acc.deep_view() =~= Seq::<(Seq<char>, Seq<TagView>)>::empty());
            assert(tfs.skip(0) =~= tfs);
        }
        let mut i: usize = 0;
        while i < self.all_tagfiles.len()
            invariant
                i <= tfs.len(),
                tfs == self.spec_tagfiles(),
                tfs.len() == self.spec_tagfiles().len(),
                spec_query(tfs, text@, simple, key, value, fuzzy) == query_tagfiles(
                    acc.deep_view(),
                    tfs.skip(i as int),
                    text@,
                    simple,
                    key,
                    value,
                    fuzzy,
                ),
            decreases tfs.len() - i,
        {
            let ghost tf_now = tfs[i as int];
            let mapping = self.all_tagfiles[i].get_mapping_ref();
            let ghost entries = tf_now@;
            proof {
                assert(mapping.deep_view() == entries);
                assert(tfs.skip(i as int)[0] == tf_now);
                assert(tfs.skip(i as int).drop_first() =~= tfs.skip(i + 1 as int));
                assert(query_tagfiles(acc.deep_view(), tfs.skip(i as int), text@, simple, key,
                    value, fuzzy) == query_tagfiles(
                    query_entries(acc.deep_view(), entries, text@, simple, key, value, fuzzy),
                    tfs.skip(i + 1 as int),
                    text@,
                    simple,
                    key,
                    value,
                    fuzzy,
                ));
                assert(entries.skip(0) =~= entries);
            }
            let ghost acc_entry = acc.deep_view();
            let mut j: usize = 0;
            while j < mapping.len()
                invariant
                    j <= entries.len(),
                    entries == mapping.deep_view(),
                    entries.len() == mapping@.len(),
                    query_entries(acc_entry, entries, text@, simple, key, value, fuzzy)
                        == query_entries(
                        acc.deep_view(),
                        entries.skip(j as int),
                        text@,
                        simple,
                        key,
                        value,
                        fuzzy,
                    ),
                decreases entries.len() - j,
            {
                proof {
                    assert(entries.skip(j as int)[0] == entries[j as int]);
                    assert(entries.skip(j as int).drop_first() =~= entries.skip(j + 1 as int));
                    let jj = j as int;
                    assert(entries[jj] == (mapping@[jj].0@, mapping@[jj].1.deep_view()));
                }
                let fs = filter_tags_exec(&mapping[j].1, text, simple, key, value, fuzzy);
                if fs.len() > 0 {
                    let name = mapping[j].0.clone();
                    upsert_exec(&mut acc, name, fs);
                }
                j = j + 1;
            }
            proof {
                assert(entries.skip(entries.len() as int) =~= Seq::<
                    (Seq<char>, Seq<TagView>),
                >::empty());
            }
            i = i + 1;
        }
        proof {
            assert(tfs.skip(tfs.len() as int) =~= Seq::<TagFile>::empty());
        }
        acc
    }

    /// The workspace name.
    pub fn get_name(&self) -> (r: &str)
        ensures
            r@ == self.spec_name(),
    {
        self.name.as_str()
    }

    /// The path of this workspace's marker file.
    pub fn get_path_to_workspace_file(&self) -> (r: String)
        ensures
            r@ == crate::paths::join_of(self.spec_root_folder(), marker_name_of(self.spec_name())),
    {
        let marker = Workspace::get_workspace_file_name(&self.name);
        crate::paths::join_path(self.root_folder.as_str(), marker.as_str())
    }
}

/// The switches of one search request: its mode, which tag components to
/// match, and the query texts.
#[derive(Debug)]
pub struct SearchArgs {
    /// Search mode is exact.
    pub exact: bool,
    /// Search mode is fuzzy.
    pub fuzzy: bool,
    /// Include `Simple` tags.
    pub simple_on: bool,
    /// Include keys from `KV` tags.
    pub key_on: bool,
    /// Include values from `KV` tags.
    pub values_on: bool,
    /// The query texts.
    pub tags: Vec<String>,
}

impl SearchArgs {
    /// When no component switch is given, search all of them; otherwise
    /// leave the request as it came.
    pub fn normalize(self) -> (r: SearchArgs)
        ensures
            r.exact == self.exact,
            r.fuzzy == self.fuzzy,
            r.tags == self.tags,
            (self.simple_on || self.key_on || self.values_on) ==> (r.simple_on == self.simple_on
                && r.key_on == self.key_on && r.values_on == self.values_on),
            !(self.simple_on || self.key_on || self.values_on) ==> (r.simple_on && r.key_on
                && r.values_on),
    {
        let mut out = self;
        if !(out.simple_on || out.key_on || out.values_on) {
            out.simple_on = true;
            out.key_on = true;
            out.values_on = true;
        }
        out
    }
}

} // verus!

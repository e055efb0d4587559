//! The tag value type: a label is either a single string (`Simple`) or an
//! ordered pair of strings (`KV`). Equality is structural and
//! variant-sensitive: a `Simple` and a `KV` are never equal.

use vstd::prelude::*;

verus! {

/// Mathematical model of a tag: the same two variants over character
/// sequences instead of heap-allocated strings.
#[verifier::ext_equal]
pub enum TagView {
    Simple(Seq<char>),
    KV(Seq<char>, Seq<char>),
}

/// A tag, which can either be a single `String` (`Simple`) or an ordered
/// pair of `String`s (`KV`).
#[derive(Debug)]
pub enum Tag {
    Simple(String),
    KV(String, String),
}

impl View for Tag {
    type V = TagView;

    open spec fn view(&self) -> TagView {
        match self {
            Tag::Simple(s) => TagView::Simple(s@),
            Tag::KV(k, v) => TagView::KV(k@, v@),
        }
    }
}

impl DeepView for Tag {
    type V = TagView;

    open spec fn deep_view(&self) -> TagView {
        self.view()
    }
}

impl Clone for Tag {
    fn clone(&self) -> (res: Tag)
        ensures
            res@ == self@,
    {
        match self {
            Tag::Simple(s) => Tag::Simple(s.clone()),
            Tag::KV(k, v) => Tag::KV(k.clone(), v.clone()),
        }
    }
}

impl PartialEq for Tag {
    fn eq(&self, other: &Self) -> (r: bool)
        ensures
            r == (self@ == other@),
    {
        match (self, other) {
            (Tag::Simple(left), Tag::Simple(right)) => *left == *right,
            (Tag::KV(l0, l1), Tag::KV(r0, r1)) => *l0 == *r0 && *l1 == *r1,
            _ => false,
        }
    }
}

impl vstd::std_specs::cmp::PartialEqSpecImpl for Tag {
    open spec fn obeys_eq_spec() -> bool {
        true
    }

    open spec fn eq_spec(&self, other: &Tag) -> bool {
        self@ == other@
    }
}

impl Tag {
    /// Builds a `Simple` tag from its text.
    pub fn simple(value: String) -> (r: Tag)
        ensures
            r@ == TagView::Simple(value@),
    {
        Tag::Simple(value)
    }

    /// Builds a `KV` tag from its key and value.
    pub fn kv(key: String, value: String) -> (r: Tag)
        ensures
            r@ == TagView::KV(key@, value@),
    {
        Tag::KV(key, value)
    }

    /// The name of this tag's variant.
    pub fn kind(&self) -> (r: &'static str)
        ensures
            self@ is Simple ==> r@ == "Simple"@,
            self@ is KV ==> r@ == "KV"@,
    {
        match self {
            Tag::Simple(_) => "Simple",
            Tag::KV(_, _) => "KV",
        }
    }

    pub fn is_simple(&self) -> (r: bool)
        ensures
            r == (self@ is Simple),
    {
        match self {
            Tag::Simple(_) => true,
            Tag::KV(_, _) => false,
        }
    }

    pub fn is_kv(&self) -> (r: bool)
        ensures
            r == (self@ is KV),
    {
        match self {
            Tag::Simple(_) => false,
            Tag::KV(_, _) => true,
        }
    }

    /// The text of a `Simple` tag, or `None` for a `KV` tag.
    pub fn simple_value(&self) -> (r: Option<String>)
        ensures
            match self@ {
                TagView::Simple(s) => r matches Some(v) && v@ == s,
                TagView::KV(_, _) => r is None,
            },
    {
        match self {
            Tag::Simple(v) => Some(v.clone()),
            Tag::KV(_, _) => None,
        }
    }

    /// The key of a `KV` tag, or `None` for a `Simple` tag.
    pub fn kv_key(&self) -> (r: Option<String>)
        ensures
            match self@ {
                TagView::Simple(_) => r is None,
                TagView::KV(k, _) => r matches Some(v) && v@ == k,
            },
    {
        match self {
            Tag::Simple(_) => None,
            Tag::KV(k, _) => Some(k.clone()),
        }
    }

    /// The value of a `KV` tag, or `None` for a `Simple` tag.
    pub fn kv_value(&self) -> (r: Option<String>)
        ensures
            match self@ {
                TagView::Simple(_) => r is None,
                TagView::KV(_, v) => r matches Some(w) && w@ == v,
            },
    {
        match self {
            Tag::Simple(_) => None,
            Tag::KV(_, v) => Some(v.clone()),
        }
    }
}

} // verus!

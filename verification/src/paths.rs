//! A plain-text model of the few path operations the engine needs: the
//! parent directory, the file base name, and joining a directory with a
//! name. Paths are `/`-separated strings; resolving symlinks or relative
//! segments against the real filesystem is the caller's business.

use vstd::prelude::*;
use vstd::string::StrSliceExecFns;

use crate::errors::TagFileError;
use crate::text::chars_of;
use crate::text::string_from_chars;

verus! {

/// The end of `p` with trailing slashes dropped, but never below 1: a run
/// of slashes alone stands for the root.
pub open spec fn strip_end(p: Seq<char>, e: int) -> int
    decreases e,
{
    if e > 1 && 0 <= e - 1 < p.len() && p[e - 1] == '/' {
        strip_end(p, e - 1)
    } else {
        e
    }
}

/// The index of the last slash strictly before `e`, or -1 if there is none.
pub open spec fn rfind_slash_before(p: Seq<char>, e: int) -> int
    decreases e,
{
    if e <= 0 {
        -1
    } else if 0 <= e - 1 < p.len() && p[e - 1] == '/' {
        e - 1
    } else {
        rfind_slash_before(p, e - 1)
    }
}

/// The parent directory of `p`: everything before the last slash, with
/// `None` for an empty path and for the root itself, and the empty string
/// for a bare name.
pub open spec fn parent_of(p: Seq<char>) -> Option<Seq<char>> {
    let e = strip_end(p, p.len() as int);
    let q = p.take(e);
    if q.len() == 0 {
        None
    } else if q == seq!['/'] {
        None
    } else {
        let k = rfind_slash_before(p, e);
        if k == -1 {
            Some(Seq::empty())
        } else if k == 0 {
            Some(seq!['/'])
        } else {
            Some(p.take(k))
        }
    }
}

/// The file base name of `p`: everything after the last slash, trailing
/// slashes ignored; `None` when nothing usable is left.
pub open spec fn file_name_of(p: Seq<char>) -> Option<Seq<char>> {
    let e = strip_end(p, p.len() as int);
    let k = rfind_slash_before(p, e);
    let name = p.subrange(k + 1, e);
    if name.len() == 0 || name == seq!['.'] || name == seq!['.', '.'] {
        None
    } else {
        Some(name)
    }
}

/// `dir` and `name` joined with a single separating slash.
pub open spec fn join_of(dir: Seq<char>, name: Seq<char>) -> Seq<char> {
    if dir.len() > 0 && dir[dir.len() - 1] != '/' {
        dir + seq!['/'] + name
    } else {
        dir + name
    }
}

fn ex_strip_end(p: &Vec<char>) -> (e: usize)
    ensures
        e == strip_end(p@, p@.len() as int),
        e <= p@.len(),
{
    let mut e = p.len();
    while e > 1 && p[e - 1] == '/'
        invariant
            e <= p@.len(),
            strip_end(p@, p@.len() as int) == strip_end(p@, e as int),
        decreases e,
    {
        proof {
            assert(strip_end(p@, e as int) == strip_end(p@, e - 1 as int));
        }
        e = e - 1;
    }
    proof {
        assert(strip_end(p@, e as int) == e);
    }
    e
}

/// The last slash strictly before `e`, as `Some(index)`.
fn ex_rfind_slash_before(p: &Vec<char>, e: usize) -> (r: Option<usize>)
    requires
        e <= p@.len(),
    ensures
        match r {
            Some(k) => k < e && rfind_slash_before(p@, e as int) == k,
            None => rfind_slash_before(p@, e as int) == -1,
        },
{
    let mut j = e;
    while j > 0
        invariant
            j <= e <= p@.len(),
            rfind_slash_before(p@, e as int) == rfind_slash_before(p@, j as int),
        decreases j,
    {
        if p[j - 1] == '/' {
            proof {
                assert(rfind_slash_before(p@, j as int) == j - 1);
            }
            return Some(j - 1);
        }
        proof {
            assert(rfind_slash_before(p@, j as int) == rfind_slash_before(p@, j - 1 as int));
        }
        j = j - 1;
    }
    proof {
        assert(rfind_slash_before(p@, j as int) == -1);
    }
    None
}

/// The parent directory of `path`, or `BadPath` when it has none.
pub fn parent_dir_of(path: &str) -> (r: Result<String, TagFileError>)
    ensures
        match parent_of(path@) {
            Some(d) => r matches Ok(s) && s@ == d,
            None => r matches Err(e) && e matches TagFileError::BadPath(_),
        },
{
    let p = chars_of(path);
    let e = ex_strip_end(&p);
    if e == 0 {
        proof {
            assert(p@.take(0int).len() == 0);
        }
        return Err(TagFileError::BadPath(String::from_str("Invalid Path, parent dir")));
    }
    if e == 1 && p[0] == '/' {
        proof {
            assert(p@.take(1int) =~= seq!['/']);
        }
        return Err(TagFileError::BadPath(String::from_str("Invalid Path, parent dir")));
    }
    proof {
        let q = p@.take(e as int);
        assert(q.len() != 0);
        if e == 1 {
            assert(p@[0] != '/');
            assert(q != seq!['/']) by {
                assert(q.len() == 1);
                assert(q[0] == p@[0]);
            }
        } else {
            assert(q != seq!['/']) by {
                assert(q.len() == e);
            }
        }
    }
    match ex_rfind_slash_before(&p, e) {
        None => Ok(String::new()),
        Some(k) => {
            if k == 0 {
                let mut root: Vec<char> = Vec::new();
                root.push('/');
                proof {
                    assert(root@ =~= seq!['/']);
                }
                Ok(string_from_chars(&root))
            } else {
                let mut v: Vec<char> = Vec::new();
                let mut i: usize = 0;
                while i < k
                    invariant
                        i <= k,
                        k <= p@.len(),
                        v@ == p@.take(i as int),
                    decreases k - i,
                {
                    v.push(p[i]);
                    proof {
                        assert(v@ =~= p@.take(i + 1 as int));
                    }
                    i = i + 1;
                }
                Ok(string_from_chars(&v))
            }
        },
    }
}

/// The file base name of `path`, or `None` when it has none.
pub fn file_name_of_path(path: &str) -> (r: Option<String>)
    ensures
        match file_name_of(path@) {
            Some(n) => r matches Some(s) && s@ == n,
            None => r is None,
        },
{
    let p = chars_of(path);
    let e = ex_strip_end(&p);
    let start = match ex_rfind_slash_before(&p, e) {
        Some(k) => k + 1,
        None => 0,
    };
    let mut v: Vec<char> = Vec::new();
    let mut i = start;
    while i < e
        invariant
            start <= i <= e,
            e <= p@.len(),
            v@ == p@.subrange(start as int, i as int),
        decreases e - i,
    {
        v.push(p[i]);
        proof {
            assert(v@ =~= p@.subrange(start as int, i + 1 as int));
        }
        i = i + 1;
    }
    if v.len() == 0 {
        return None;
    }
    if v.len() == 1 && v[0] == '.' {
        proof {
            assert(v@ =~= seq!['.']);
        }
        return None;
    }
    if v.len() == 2 && v[0] == '.' && v[1] == '.' {
        proof {
            assert(v@ =~= seq!['.', '.']);
        }
        return None;
    }
    proof {
        assert(v@ != seq!['.'] && v@ != seq!['.', '.']) by {
            if v@.len() == 1 {
                assert(v@[0] != '.');
            }
            if v@.len() == 2 {
                assert(!(v@[0] == '.' && v@[1] == '.'));
            }
        }
    }
    Some(string_from_chars(&v))
}

/// `dir` and `name` joined with a single separating slash.
pub fn join_path(dir: &str, name: &str) -> (r: String)
    ensures
        r@ == join_of(dir@, name@),
{
    let d = chars_of(dir);
    let mut v: Vec<char> = Vec::new();
    let mut i: usize = 0;
    while i < d.len()
        invariant
            i <= d@.len(),
            d@ == dir@,
            v@ == dir@.take(i as int),
        decreases d@.len() - i,
    {
        v.push(d[i]);
        proof {
            assert(v@ =~= dir@.take(i + 1 as int));
        }
        i = i + 1;
    }
    proof {
        assert(v@ =~= dir@);
    }
    if d.len() > 0 && d[d.len() - 1] != '/' {
        v.push('/');
    }
    let n = chars_of(name);
    let ghost mid = v@;
    let mut j: usize = 0;
    while j < n.len()
        invariant
            j <= n@.len(),
            n@ == name@,
            v@ == mid + name@.take(j as int),
        decreases n@.len() - j,
    {
        v.push(n[j]);
        proof {
            assert(v@ =~= mid + name@.take(j + 1 as int));
        }
        j = j + 1;
    }
    proof {
        assert(name@.take(name@.len() as int) =~= name@);
        assert(v@ =~= join_of(dir@, name@));
    }
    string_from_chars(&v)
}

} // verus!

//! Paths of the working copy: components separated by `/`.
use vstd::prelude::*;
use vstd::string::*;
use crate::base32::push_char;

verus! {

/// The index of the last `/` of `s`, if any.
pub open spec fn last_slash(s: Seq<char>) -> Option<int>
    decreases s.len(),
{
    if s.len() == 0 {
        None
    } else if s.last() == '/' {
        Some(s.len() - 1)
    } else {
        last_slash(s.drop_last())
    }
}

pub proof fn lemma_last_slash(s: Seq<char>)
    ensures
        last_slash(s) matches Some(i) ==> 0 <= i < s.len() && s[i] == '/' && forall|j: int| i < j < s.len() ==> s[j] != '/',
        last_slash(s) is None ==> forall|j: int| 0 <= j < s.len() ==> s[j] != '/',
    decreases s.len(),
{
    if s.len() > 0 && s.last() != '/' {
        lemma_last_slash(s.drop_last());
        assert forall|j: int| 0 <= j < s.len() - 1 implies s.drop_last()[j] == s[j] by {}
    }
}

/// The parent of a path: what precedes its last `/` (empty if it has none).
pub open spec fn parent_spec(s: Seq<char>) -> Seq<char> {
    match last_slash(s) {
        Some(i) => s.take(i),
        None => Seq::empty(),
    }
}

/// The last component of a path.
pub open spec fn file_name_spec(s: Seq<char>) -> Seq<char> {
    match last_slash(s) {
        Some(i) => s.skip(i + 1),
        None => s,
    }
}

/// The path `p` followed by the component `c`.
pub open spec fn push_spec(p: Seq<char>, c: Seq<char>) -> Seq<char> {
    if p.len() == 0 {
        c
    } else {
        p.push('/') + c
    }
}

/// The index of the last `/` of `s`, if any.
fn find_last_slash(s: &str) -> (r: Option<usize>)
    ensures
        match r {
            Some(k) => last_slash(s@) == Some(k as int),
            None => last_slash(s@) is None,
        },
{
    let n = s.unicode_len();
    let mut i: usize = n;
    proof { lemma_last_slash(s@); }
    while i > 0
        invariant
            0 <= i <= n,
            n == s@.len(),
            forall|j: int| i <= j < n ==> s@[j] != '/',
        decreases i,
    {
        if s.get_char(i - 1) == '/' {
            proof {
                lemma_last_slash(s@);
                if let Some(k) = last_slash(s@) {
                    assert(k == i - 1) by {
                        if k < i - 1 {
                            assert(s@[i - 1] == '/');
                        }
                    }
                } else {
                    assert(s@[i - 1] == '/');
                }
            }
            return Some(i - 1);
        }
        i = i - 1;
    }
    proof {
        lemma_last_slash(s@);
        if let Some(k) = last_slash(s@) {
            assert(s@[k] == '/');
        }
    }
    None
}

/// The parent of the path `s`.
pub fn parent(s: &str) -> (r: String)
    ensures
        r@ == parent_spec(s@),
{
    proof { lemma_last_slash(s@); }
    match find_last_slash(s) {
        Some(i) => {
            let r = String::from_str(s.substring_char(0, i));
            assert(s@.subrange(0, i as int) =~= s@.take(i as int));
            r
        },
        None => String::new(),
    }
}

/// The last component of the path `s`.
pub fn file_name(s: &str) -> (r: String)
    ensures
        r@ == file_name_spec(s@),
{
    proof { lemma_last_slash(s@); }
    match find_last_slash(s) {
        Some(i) => {
            let n = s.unicode_len();
            let r = String::from_str(s.substring_char(i + 1, n));
            assert(s@.subrange(i + 1, n as int) =~= s@.skip(i + 1));
            r
        },
        None => String::from_str(s),
    }
}

/// Appends the component `c` to the path `p`.
pub fn push(p: &mut String, c: &str)
    ensures
        final(p)@ == push_spec(old(p)@, c@),
{
    if p.unicode_len() > 0 {
        push_char(p, '/');
    }
    p.append(c);
}

/// `p` joined with `c` as a file system path: an absolute `c` replaces
/// `p`; otherwise a `/` separates them unless `p` is empty or already ends
/// with one.
pub open spec fn join_spec(p: Seq<char>, c: Seq<char>) -> Seq<char> {
    if c.len() > 0 && c[0] == '/' {
        c
    } else if p.len() == 0 || p.last() == '/' {
        p + c
    } else {
        p.push('/') + c
    }
}

pub fn join(p: &mut String, c: &str)
    ensures
        final(p)@ == join_spec(old(p)@, c@),
{
    if c.unicode_len() > 0 && c.get_char(0) == '/' {
        *p = String::from_str(c);
        return;
    }
    let n = p.unicode_len();
    if n > 0 && p.as_str().get_char(n - 1) != '/' {
        push_char(p, '/');
    }
    p.append(c);
}

} // verus!

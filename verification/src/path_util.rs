//! Path cleanup shared by the route operations: backend paths and
//! subroute paths are stored without a trailing slash.

use vstd::prelude::*;

verus! {

/// What a path looks like once every trailing `/` is removed.
pub open spec fn trimmed_trailing_slash(s: Seq<char>) -> Seq<char>
    decreases s.len(),
{
    if s.len() > 0 && s.last() == '/' {
        trimmed_trailing_slash(s.drop_last())
    } else {
        s
    }
}

/// The trimmed path never ends with a slash.
pub proof fn lemma_trimmed_has_no_trailing_slash(s: Seq<char>)
    ensures
        trimmed_trailing_slash(s).len() > 0 ==> trimmed_trailing_slash(s).last() != '/',
    decreases s.len(),
{
    if s.len() > 0 && s.last() == '/' {
        lemma_trimmed_has_no_trailing_slash(s.drop_last());
    }
}

/// Trimming is the identity on a path that already lacks a trailing slash.
pub proof fn lemma_trimmed_identity(s: Seq<char>)
    ensures
        (s.len() == 0 || s.last() != '/') ==> trimmed_trailing_slash(s) == s,
{
}

/// Remove every trailing `/` from a path.
pub fn trim_trailing_slash(path: String) -> (r: String)
    ensures
        r@ == trimmed_trailing_slash(path@),
{
    let s: &str = path.as_str();
    let n: usize = s.unicode_len();
    let mut end: usize = n;
    proof {
        assert(s@.subrange(0, n as int) =~= s@);
    }
    while end > 0 && s.get_char(end - 1) == '/'
        invariant
            end <= n,
            n == s@.len(),
            trimmed_trailing_slash(s@) == trimmed_trailing_slash(s@.subrange(0, end as int)),
        decreases end,
    {
        proof {
            let part = s@.subrange(0, end as int);
            assert(part.last() == s@[end - 1]);
            assert(part.drop_last() =~= s@.subrange(0, end - 1));
        }
        end = end - 1;
    }
    proof {
        let part = s@.subrange(0, end as int);
        if end > 0 {
            assert(part.last() == s@[end - 1]);
        }
        assert(trimmed_trailing_slash(part) == part);
    }
    let r = s.substring_char(0, end);
    r.to_owned()
}

/// Return the path with every trailing slash removed; the stored form of
/// a backend path.
pub fn validate_and_clean_path(path: String) -> (r: String)
    ensures
        r@ == trimmed_trailing_slash(path@),
{
    trim_trailing_slash(path)
}

} // verus!

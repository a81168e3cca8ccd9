//! Plain string operations on paths: home-directory shorthand expansion and
//! the component-wise prefix test used by the containment filter.
use vstd::prelude::*;

verus! {

/// Expansion of a leading home-directory shorthand: `~` alone becomes `home`,
/// `~/rest` becomes `home` followed by `/rest`, and anything else (including
/// `~user/rest`) is left unchanged.
pub open spec fn expand_tilde_spec(s: Seq<char>, home: Seq<char>) -> Seq<char> {
    if s.len() == 1 && s[0] == '~' {
        home
    } else if s.len() >= 2 && s[0] == '~' && s[1] == '/' {
        home + s.skip(1)
    } else {
        s
    }
}

/// Expand a leading `~` or `~/` to the given home directory.
pub fn expand_tilde(s: &str, home: &str) -> (r: String)
    ensures
        r@ == expand_tilde_spec(s@, home@),
{
    let n = s.unicode_len();
    if n >= 1 && s.get_char(0) == '~' {
        if n == 1 {
            return home.to_owned();
        }
        if s.get_char(1) == '/' {
            let rest = s.substring_char(1, n);
            let mut out = home.to_owned();
            out.append(rest);
            proof {
                assert(s@.subrange(1, n as int) =~= s@.skip(1));
            }
            return out;
        }
    }
    s.to_owned()
}

/// `q`'s component sequence is a strict prefix of `p`'s. On paths with no
/// repeated or trailing separators this is exactly "p is a descendant of q":
/// `q` is shorter, `p` starts with `q`'s characters, and the match ends on a
/// component boundary (either `p` continues with a separator, or `q` itself
/// ends with one, as the root `/` does).
pub open spec fn strict_path_prefix(q: Seq<char>, p: Seq<char>) -> bool {
    &&& q.len() < p.len()
    &&& p.subrange(0, q.len() as int) == q
    &&& (p[q.len() as int] == '/' || (q.len() > 0 && q[q.len() - 1] == '/'))
}

/// Decide whether `p` lies strictly below `q` in the directory tree.
pub fn is_strict_path_prefix(q: &str, p: &str) -> (r: bool)
    ensures
        r == strict_path_prefix(q@, p@),
{
    let qn = q.unicode_len();
    let pn = p.unicode_len();
    if qn >= pn {
        return false;
    }
    let mut i: usize = 0;
    while i < qn
        invariant
            i <= qn,
            qn == q@.len(),
            pn == p@.len(),
            qn < pn,
            forall|j: int| 0 <= j < i ==> p@[j] == q@[j],
        decreases qn - i,
    {
        if p.get_char(i) != q.get_char(i) {
            proof {
                assert(p@.subrange(0, qn as int)[i as int] != q@[i as int]);
            }
            return false;
        }
        i = i + 1;
    }
    proof {
        assert(p@.subrange(0, qn as int) =~= q@);
    }
    if p.get_char(qn) == '/' {
        return true;
    }
    qn > 0 && q.get_char(qn - 1) == '/'
}

} // verus!

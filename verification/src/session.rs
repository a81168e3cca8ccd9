//! Derivation of a session identifier from a chosen repository path.
use vstd::prelude::*;

verus! {

/// The final path component: everything after the last separator, or the
/// whole string when there is none. A string ending in a separator has an
/// empty final component.
pub open spec fn last_component(s: Seq<char>) -> Seq<char>
    decreases s.len(),
{
    if s.len() == 0 {
        s
    } else if s.last() == '/' {
        Seq::empty()
    } else {
        last_component(s.drop_last()).push(s.last())
    }
}

/// A dot becomes an underscore; every other character stays.
pub open spec fn undot(c: char) -> char {
    if c == '.' {
        '_'
    } else {
        c
    }
}

/// The session identifier for a path: its final component with every literal
/// `.` replaced by `_`, to satisfy the session manager's naming constraints.
/// No identifier exists when the final component is empty (the root, or a
/// path ending in a separator) or is itself a `.` or `..` segment.
pub open spec fn session_name_spec(path: Seq<char>) -> Option<Seq<char>> {
    let comp = last_component(path);
    if comp.len() == 0 || comp == seq!['.'] || comp == seq!['.', '.'] {
        None
    } else {
        Some(comp.map_values(|c: char| undot(c)))
    }
}

/// Helper: when `start` points one past the last separator (or to the very
/// beginning), the last component is the suffix from `start` on.
proof fn lemma_last_component_suffix(s: Seq<char>, start: int)
    requires
        0 <= start <= s.len(),
        forall|j: int| start <= j < s.len() ==> s[j] != '/',
        start > 0 ==> s[start - 1] == '/',
    ensures
        last_component(s) == s.skip(start),
    decreases s.len(),
{
    if s.len() == 0 {
        assert(last_component(s) =~= s.skip(start));
    } else if s.last() == '/' {
        assert(start == s.len());
        assert(last_component(s) =~= s.skip(start));
    } else {
        assert(start < s.len());
        lemma_last_component_suffix(s.drop_last(), start);
        assert(last_component(s) == s.drop_last().skip(start).push(s.last()));
        assert(s.drop_last().skip(start).push(s.last()) =~= s.skip(start));
    }
}

/// Derive the session identifier for `path`, as `session_name_spec` states.
pub fn session_name(path: &str) -> (r: Option<String>)
    ensures
        r matches Some(name) ==> session_name_spec(path@) == Some(name@),
        r is None ==> session_name_spec(path@) is None,
{
    let n = path.unicode_len();
    let mut start: usize = n;
    while start > 0 && path.get_char(start - 1) != '/'
        invariant
            start <= n,
            n == path@.len(),
            forall|j: int| start <= j < n ==> path@[j] != '/',
        decreases start,
    {
        start = start - 1;
    }
    proof {
        lemma_last_component_suffix(path@, start as int);
    }
    let comp = path.substring_char(start, n);
    proof {
        assert(comp@ =~= path@.skip(start as int));
    }
    let m = comp.unicode_len();
    if m == 0 {
        return None;
    }
    if m == 1 && comp.get_char(0) == '.' {
        proof {
            assert(comp@ =~= seq!['.']);
        }
        return None;
    }
    if m == 2 && comp.get_char(0) == '.' && comp.get_char(1) == '.' {
        proof {
            assert(comp@ =~= seq!['.', '.']);
        }
        return None;
    }
    let mut out = String::new();
    let mut i: usize = 0;
    while i < m
        invariant
            i <= m,
            m == comp@.len(),
            out@ == comp@.subrange(0, i as int).map_values(|c: char| undot(c)),
        decreases m - i,
    {
        let c = comp.get_char(i);
        if c == '.' {
            out.append("_");
            proof {
                reveal_strlit("_");
                assert(out@ =~= comp@.subrange(0, i + 1).map_values(|c: char| undot(c)));
            }
        } else {
            let piece = comp.substring_char(i, i + 1);
            out.append(piece);
            proof {
                assert(out@ =~= comp@.subrange(0, i + 1).map_values(|c: char| undot(c)));
            }
        }
        i = i + 1;
    }
    proof {
        assert(comp@.subrange(0, m as int) =~= comp@);
        assert(comp@.len() > 0);
        assert(comp@ != seq!['.'] && comp@ != seq!['.', '.']);
    }
    Some(out)
}

} // verus!

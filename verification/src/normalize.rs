//! The path-set normalizer: drop absent entries, expand a leading
//! home-directory shorthand, lexically clean each path, sort, remove exact
//! duplicates, and remove every path lying below another of the set, so that
//! only the maximal (outermost) roots remain.
use vstd::prelude::*;
use vstd::relations::sorted_by;
use vstd::seq_lib::group_to_multiset_ensures;
use vstd::seq_lib::lemma_sorted_unique;
use crate::clean::{clean_of, clean_path, home_of_env};
use crate::order::{
    lemma_path_le_antisymmetric, lemma_path_le_total, lemma_path_le_total_ordering,
    lemma_path_le_transitive, path_le, path_le_exec, path_le_ff,
};
use crate::paths::{expand_tilde, expand_tilde_spec, is_strict_path_prefix, strict_path_prefix};

verus! {

/// The configured entries that are actually present (not absent/null).
pub open spec fn present_entries(x: Seq<Option<Seq<char>>>) -> Set<Seq<char>> {
    Set::new(|e: Seq<char>| x.contains(Some(e)))
}

/// The cleaned, expanded forms of the present entries.
pub open spec fn entry_paths(x: Seq<Option<Seq<char>>>, home: Seq<char>) -> Set<Seq<char>> {
    Set::new(
        |p: Seq<char>|
            exists|e: Seq<char>|
                present_entries(x).contains(e) && p == clean_of(expand_tilde_spec(e, home)),
    )
}

/// The paths of a set that lie below no other path of the set.
pub open spec fn kept(s: Set<Seq<char>>) -> Set<Seq<char>> {
    Set::new(
        |p: Seq<char>|
            s.contains(p) && !(exists|q: Seq<char>| s.contains(q) && strict_path_prefix(q, p)),
    )
}

/// Everything `normalize` promises of its result `r`: sorted in
/// component-sequence order, free of duplicates, and holding exactly the
/// cleaned, expanded entries that lie below no other one.
pub open spec fn normalize_post(
    x: Seq<Option<Seq<char>>>,
    home: Seq<char>,
    r: Seq<Seq<char>>,
) -> bool {
    &&& sorted_by(r, path_le_ff())
    &&& r.no_duplicates()
    &&& r.to_set() == kept(entry_paths(x, home))
}

/// An entry whose expanded form is an absolute path, or mentions no `~` at
/// all, cannot pick up a second expansion on a later run.
pub open spec fn stable_entry(e: Seq<char>, home: Seq<char>) -> bool {
    let y = expand_tilde_spec(e, home);
    (y.len() > 0 && y[0] == '/') || !y.contains('~')
}

pub open spec fn stable_inputs(x: Seq<Option<Seq<char>>>, home: Seq<char>) -> bool {
    forall|e: Seq<char>| present_entries(x).contains(e) ==> #[trigger] stable_entry(e, home)
}

/// A result sequence read back as an input list: every path present.
pub open spec fn as_entries(r: Seq<Seq<char>>) -> Seq<Option<Seq<char>>> {
    r.map_values(|p: Seq<char>| Some(p))
}

proof fn lemma_take_contains<A>(s: Seq<A>, i: int, v: A)
    requires
        0 <= i < s.len(),
    ensures
        s.take(i + 1).contains(v) <==> (s.take(i).contains(v) || s[i] == v),
{
    if s.take(i + 1).contains(v) {
        let j = choose|j: int| 0 <= j < s.take(i + 1).len() && #[trigger] s.take(i + 1)[j] == v;
        if j < i {
            assert(s.take(i)[j] == v);
        }
    }
    if s.take(i).contains(v) {
        let j = choose|j: int| 0 <= j < s.take(i).len() && #[trigger] s.take(i)[j] == v;
        assert(s.take(i + 1)[j] == v);
    }
    if s[i] == v {
        assert(s.take(i + 1)[i] == v);
    }
}

/// Insertion sort on path strings, in component-sequence order.
fn sort_paths(v: Vec<String>) -> (r: Vec<String>)
    ensures
        r.deep_view().to_multiset() == v.deep_view().to_multiset(),
        sorted_by(r.deep_view(), path_le_ff()),
{
    broadcast use group_to_multiset_ensures;

    let mut out: Vec<String> = Vec::new();
    let mut i: usize = 0;
    proof {
        assert(out.deep_view().to_multiset() =~= v.deep_view().take(0).to_multiset());
    }
    while i < v.len()
        invariant
            i <= v.len(),
            v.deep_view().len() == v@.len(),
            sorted_by(out.deep_view(), path_le_ff()),
            out.deep_view().to_multiset() == v.deep_view().take(i as int).to_multiset(),
        decreases v@.len() - i,
    {
        broadcast use group_to_multiset_ensures;

        let s = v[i].clone();
        assert(s@ == v.deep_view()[i as int]);
        let mut pos: usize = 0;
        while pos < out.len() && path_le_exec(out[pos].as_str(), s.as_str())
            invariant
                pos <= out.len(),
                out.deep_view().len() == out@.len(),
                forall|k: int| 0 <= k < pos ==> path_le(#[trigger] out.deep_view()[k], s@),
            decreases out@.len() - pos,
        {
            pos = pos + 1;
        }
        let ghost od = out.deep_view();
        let ghost sv = s@;
        proof {
            if pos < od.len() {
                lemma_path_le_total(od[pos as int], sv);
            }
        }
        out.insert(pos, s);
        proof {
            let nd = out.deep_view();
            assert(nd =~= od.insert(pos as int, sv));
            od.insert_ensures(pos as int, sv);
            assert forall|a: int, b: int| 0 <= a < b < nd.len() implies path_le_ff()(
                nd[a],
                nd[b],
            ) by {
                if b < pos {
                    assert(path_le_ff()(od[a], od[b]));
                } else if a < pos && b == pos {
                    assert(path_le(od[a], sv));
                } else if a < pos && b > pos {
                    assert(path_le_ff()(od[a], od[b - 1]));
                } else if a == pos {
                    assert(b > pos);
                    if pos < od.len() {
                        assert(path_le(sv, od[pos as int]));
                        if b - 1 > pos {
                            assert(path_le_ff()(od[pos as int], od[b - 1]));
                            assert(path_le(od[pos as int], od[b - 1]));
                            lemma_path_le_transitive(sv, od[pos as int], od[b - 1]);
                        }
                        assert(path_le(sv, od[b - 1]));
                    } else {
                        assert(false);
                    }
                } else {
                    assert(a > pos);
                    assert(path_le_ff()(od[a - 1], od[b - 1]));
                }
            }
            assert(sorted_by(nd, path_le_ff()));
            assert(nd.to_multiset() =~= od.to_multiset().insert(sv));
            assert(v.deep_view().take(i + 1).drop_last() =~= v.deep_view().take(i as int));
            assert(v.deep_view().take(i + 1) =~= v.deep_view().take(i as int).push(sv));
            assert(v.deep_view().take(i + 1).to_multiset() =~= v.deep_view().take(
                i as int,
            ).to_multiset().insert(sv));
        }
        i = i + 1;
    }
    proof {
        assert(v.deep_view().take(v@.len() as int) =~= v.deep_view());
    }
    out
}

proof fn lemma_sorted_adjacent_distinct_no_dup(s: Seq<Seq<char>>)
    requires
        sorted_by(s, path_le_ff()),
        forall|j: int| 0 <= j && j + 1 < s.len() ==> s[j] != #[trigger] s[j + 1],
    ensures
        s.no_duplicates(),
{
    assert forall|a: int, b: int|
        0 <= a < s.len() && 0 <= b < s.len() && a != b implies s[a] != s[b] by {
        let lo = if a < b {
            a
        } else {
            b
        };
        let hi = if a < b {
            b
        } else {
            a
        };
        if s[lo] == s[hi] {
            assert(s[lo] != s[lo + 1]);
            if lo + 1 < hi {
                assert(path_le_ff()(s[lo], s[lo + 1]));
                assert(path_le_ff()(s[lo + 1], s[hi]));
                lemma_path_le_antisymmetric(s[lo + 1], s[lo]);
            }
        }
    }
}

/// Remove exact duplicates from a sorted list, keeping one of each.
fn dedup_sorted(v: Vec<String>) -> (r: Vec<String>)
    requires
        sorted_by(v.deep_view(), path_le_ff()),
    ensures
        sorted_by(r.deep_view(), path_le_ff()),
        r.deep_view().no_duplicates(),
        r.deep_view().to_set() == v.deep_view().to_set(),
{
    let ghost vd = v.deep_view();
    let mut out: Vec<String> = Vec::new();
    let mut i: usize = 0;
    proof {
        assert(out.deep_view().to_set() =~= vd.take(0).to_set());
    }
    while i < v.len()
        invariant
            i <= v.len(),
            vd == v.deep_view(),
            vd.len() == v@.len(),
            sorted_by(vd, path_le_ff()),
            sorted_by(out.deep_view(), path_le_ff()),
            forall|j: int|
                0 <= j && j + 1 < out.deep_view().len() ==> out.deep_view()[j]
                    != #[trigger] out.deep_view()[j + 1],
            out.deep_view().to_set() == vd.take(i as int).to_set(),
            out.len() > 0 ==> i > 0 && out.deep_view().last() == vd[i - 1],
        decreases v@.len() - i,
    {
        let ghost od = out.deep_view();
        let keep = out.len() == 0 || !(out[out.len() - 1] == v[i]);
        if keep {
            let s = v[i].clone();
            out.push(s);
            proof {
                let nd = out.deep_view();
                assert(nd =~= od.push(vd[i as int]));
                assert forall|a: int, b: int| 0 <= a < b < nd.len() implies path_le_ff()(
                    nd[a],
                    nd[b],
                ) by {
                    if b == nd.len() - 1 {
                        assert(od.to_set().contains(od[a]));
                        assert(vd.take(i as int).to_set().contains(od[a]));
                        let j = choose|j: int|
                            0 <= j < vd.take(i as int).len() && vd.take(i as int)[j] == od[a];
                        assert(vd[j] == od[a]);
                        assert(path_le_ff()(vd[j], vd[i as int]));
                    }
                }
                assert forall|p: Seq<char>| nd.to_set().contains(p) implies vd.take(
                    i + 1,
                ).to_set().contains(p) by {
                    lemma_take_contains(vd, i as int, p);
                    let k = choose|k: int| 0 <= k < nd.len() && nd[k] == p;
                    if k < od.len() {
                        assert(od[k] == p);
                        assert(od.to_set().contains(p));
                        assert(vd.take(i as int).contains(p));
                    } else {
                        assert(p == vd[i as int]);
                    }
                }
                assert forall|p: Seq<char>| vd.take(i + 1).to_set().contains(p) implies
                    nd.to_set().contains(p) by {
                    lemma_take_contains(vd, i as int, p);
                    if vd.take(i as int).contains(p) {
                        assert(od.to_set().contains(p));
                        assert(od.contains(p));
                        let j = choose|j: int| 0 <= j < od.len() && od[j] == p;
                        assert(nd[j] == p);
                    } else {
                        assert(p == vd[i as int]);
                        assert(nd.last() == p);
                    }
                }
                assert(nd.to_set() =~= vd.take(i + 1).to_set());
            }
        } else {
            proof {
                assert(od.last() == vd[i as int]);
                assert(od[od.len() - 1] == od.last());
                assert(od.contains(od.last()));
                assert(od.to_set().contains(od.last()));
                assert forall|p: Seq<char>| vd.take(i + 1).to_set().contains(p) implies
                    od.to_set().contains(p) by {
                    lemma_take_contains(vd, i as int, p);
                    if vd.take(i as int).contains(p) {
                        assert(vd.take(i as int).to_set().contains(p));
                    } else {
                        assert(p == vd[i as int]);
                        assert(od.to_set().contains(p));
                    }
                }
                assert forall|p: Seq<char>| od.to_set().contains(p) implies vd.take(
                    i + 1,
                ).to_set().contains(p) by {
                    lemma_take_contains(vd, i as int, p);
                    assert(vd.take(i as int).to_set().contains(p));
                    assert(vd.take(i as int).contains(p));
                }
                assert(od.to_set() =~= vd.take(i + 1).to_set());
            }
        }
        i = i + 1;
    }
    proof {
        assert(vd.take(v@.len() as int) =~= vd);
        lemma_sorted_adjacent_distinct_no_dup(out.deep_view());
    }
    out
}

/// Remove every path that lies strictly below another path of the list.
fn filter_contained(v: Vec<String>) -> (r: Vec<String>)
    requires
        sorted_by(v.deep_view(), path_le_ff()),
        v.deep_view().no_duplicates(),
    ensures
        sorted_by(r.deep_view(), path_le_ff()),
        r.deep_view().no_duplicates(),
        r.deep_view().to_set() == kept(v.deep_view().to_set()),
{
    let ghost vd = v.deep_view();
    let mut out: Vec<String> = Vec::new();
    let mut i: usize = 0;
    while i < v.len()
        invariant
            i <= v.len(),
            vd == v.deep_view(),
            vd.len() == v@.len(),
            sorted_by(vd, path_le_ff()),
            vd.no_duplicates(),
            sorted_by(out.deep_view(), path_le_ff()),
            out.deep_view().no_duplicates(),
            forall|p: Seq<char>|
                #[trigger] out.deep_view().contains(p) ==> exists|j: int|
                    0 <= j < i && vd[j] == p,
            forall|p: Seq<char>|
                #[trigger] out.deep_view().contains(p) ==> !(exists|q: Seq<char>|
                    vd.to_set().contains(q) && strict_path_prefix(q, p)),
            forall|j: int|
                0 <= j < i && !(exists|q: Seq<char>|
                    vd.to_set().contains(q) && strict_path_prefix(q, #[trigger] vd[j]))
                    ==> out.deep_view().contains(vd[j]),
        decreases v@.len() - i,
    {
        let mut contained = false;
        let mut j: usize = 0;
        while j < v.len()
            invariant
                j <= v.len(),
                i < v.len(),
                vd == v.deep_view(),
                vd.len() == v@.len(),
                contained <==> exists|jj: int|
                    0 <= jj < j && strict_path_prefix(#[trigger] vd[jj], vd[i as int]),
            decreases v@.len() - j,
        {
            if is_strict_path_prefix(v[j].as_str(), v[i].as_str()) {
                contained = true;
            }
            proof {
                if strict_path_prefix(vd[j as int], vd[i as int]) {
                    assert(exists|jj: int|
                        0 <= jj < j + 1 && strict_path_prefix(#[trigger] vd[jj], vd[i as int]));
                }
            }
            j = j + 1;
        }
        let ghost od = out.deep_view();
        proof {
            if contained {
                let jj = choose|jj: int|
                    0 <= jj < vd.len() && strict_path_prefix(#[trigger] vd[jj], vd[i as int]);
                assert(vd.to_set().contains(vd[jj]));
            }
        }
        if !contained {
            let s = v[i].clone();
            out.push(s);
            proof {
                let nd = out.deep_view();
                assert(nd =~= od.push(vd[i as int]));
                assert forall|q: Seq<char>| vd.to_set().contains(q) implies !strict_path_prefix(
                    q,
                    vd[i as int],
                ) by {
                    let jj = choose|jj: int| 0 <= jj < vd.len() && vd[jj] == q;
                    assert(!(exists|k: int|
                        0 <= k < vd.len() && strict_path_prefix(#[trigger] vd[k], vd[i as int])));
                }
                assert forall|a: int, b: int| 0 <= a < b < nd.len() implies path_le_ff()(
                    nd[a],
                    nd[b],
                ) by {
                    if b == nd.len() - 1 {
                        assert(od.contains(od[a]));
                        let jsrc = choose|jsrc: int| 0 <= jsrc < i && vd[jsrc] == od[a];
                        assert(path_le_ff()(vd[jsrc], vd[i as int]));
                    }
                }
                assert(!od.contains(vd[i as int])) by {
                    if od.contains(vd[i as int]) {
                        let jsrc = choose|jsrc: int| 0 <= jsrc < i && vd[jsrc] == vd[i as int];
                        assert(vd[jsrc] == vd[i as int]);
                        assert(false);
                    }
                }
                assert forall|p: Seq<char>| #[trigger] nd.contains(p) implies od.contains(p) || p
                    == vd[i as int] by {
                    let k = choose|k: int| 0 <= k < nd.len() && nd[k] == p;
                    if k < od.len() {
                        assert(od[k] == p);
                    }
                }
                assert forall|p: Seq<char>| #[trigger] od.contains(p) implies nd.contains(p) by {
                    let k = choose|k: int| 0 <= k < od.len() && od[k] == p;
                    assert(nd[k] == p);
                }
                assert(nd.contains(vd[i as int])) by {
                    assert(nd[nd.len() - 1] == vd[i as int]);
                }
            }
        }
        i = i + 1;
    }
    proof {
        let od = out.deep_view();
        assert forall|p: Seq<char>| #[trigger] od.to_set().contains(p) implies kept(
            vd.to_set(),
        ).contains(p) by {
            let j = choose|j: int| 0 <= j < vd.len() && vd[j] == p;
            assert(vd.to_set().contains(p));
        }
        assert forall|p: Seq<char>| #[trigger] kept(vd.to_set()).contains(p) implies
            od.to_set().contains(p) by {
            let j = choose|j: int| 0 <= j < vd.len() && vd[j] == p;
            assert(od.contains(vd[j]));
        }
        assert(od.to_set() =~= kept(vd.to_set()));
    }
    out
}

/// Normalize the configured root paths against the given home directory:
/// absent entries are dropped, a leading `~` or `~/` is expanded to `home`,
/// each path is lexically cleaned, duplicates collapse, and every path lying
/// below another of the set is removed; the survivors come back sorted in
/// component-sequence order. The second promise is the fixed-point law: when
/// every present entry expands to an absolute path or mentions no `~`, the
/// result read back as an input list normalizes to itself.
pub fn normalize(raw: &Vec<Option<String>>, home: &str) -> (r: Vec<String>)
    ensures
        normalize_post(raw.deep_view(), home@, r.deep_view()),
        stable_inputs(raw.deep_view(), home@) ==> normalize_post(
            as_entries(r.deep_view()),
            home@,
            r.deep_view(),
        ),
{
    broadcast use group_to_multiset_ensures;

    let ghost x = raw.deep_view();
    let mut cleaned: Vec<String> = Vec::new();
    let mut i: usize = 0;
    proof {
        assert forall|p: Seq<char>| entry_paths(x.take(0), home@).contains(p) implies
            cleaned.deep_view().to_set().contains(p) by {
            let e = choose|e: Seq<char>|
                present_entries(x.take(0)).contains(e) && p == clean_of(
                    expand_tilde_spec(e, home@),
                );
            assert(x.take(0).contains(Some(e)));
        }
        assert(cleaned.deep_view().to_set() =~= entry_paths(x.take(0), home@));
    }
    while i < raw.len()
        invariant
            i <= raw.len(),
            x == raw.deep_view(),
            x.len() == raw@.len(),
            cleaned.deep_view().to_set() == entry_paths(x.take(i as int), home@),
            forall|k: int|
                0 <= k < cleaned.deep_view().len() ==> clean_of(#[trigger] cleaned.deep_view()[k])
                    == cleaned.deep_view()[k],
            stable_inputs(x, home@) ==> forall|k: int|
                0 <= k < cleaned.deep_view().len() ==> expand_tilde_spec(
                    #[trigger] cleaned.deep_view()[k],
                    home@,
                ) == cleaned.deep_view()[k],
        decreases raw@.len() - i,
    {
        let ghost od = cleaned.deep_view();
        let entry = &raw[i];
        match entry {
            Option::Some(s) => {
                proof {
                    assert(x[i as int] == Some(s@));
                }
                let y = expand_tilde(s.as_str(), home);
                let z = clean_path(y.as_str());
                proof {
                    assert(z@ == clean_of(expand_tilde_spec(s@, home@)));
                }
                cleaned.push(z);
                proof {
                    let nd = cleaned.deep_view();
                    assert(nd =~= od.push(clean_of(expand_tilde_spec(s@, home@))));
                    let zp = clean_of(expand_tilde_spec(s@, home@));
                    assert forall|p: Seq<char>| #[trigger] nd.to_set().contains(p) implies
                        entry_paths(x.take(i + 1), home@).contains(p) by {
                        let k = choose|k: int| 0 <= k < nd.len() && nd[k] == p;
                        if k < od.len() {
                            assert(od[k] == p);
                            assert(od.to_set().contains(p));
                            let e = choose|e: Seq<char>|
                                present_entries(x.take(i as int)).contains(e) && p == clean_of(
                                    expand_tilde_spec(e, home@),
                                );
                            lemma_take_contains(x, i as int, Some(e));
                            assert(present_entries(x.take(i + 1)).contains(e));
                        } else {
                            assert(p == zp);
                            lemma_take_contains(x, i as int, Some(s@));
                            assert(present_entries(x.take(i + 1)).contains(s@));
                        }
                    }
                    assert forall|p: Seq<char>| entry_paths(x.take(i + 1), home@).contains(
                        p,
                    ) implies nd.to_set().contains(p) by {
                        let e = choose|e: Seq<char>|
                            present_entries(x.take(i + 1)).contains(e) && p == clean_of(
                                expand_tilde_spec(e, home@),
                            );
                        lemma_take_contains(x, i as int, Some(e));
                        if x.take(i as int).contains(Some(e)) {
                            assert(present_entries(x.take(i as int)).contains(e));
                            assert(entry_paths(x.take(i as int), home@).contains(p));
                            assert(od.to_set().contains(p));
                            let k = choose|k: int| 0 <= k < od.len() && od[k] == p;
                            assert(nd[k] == p);
                        } else {
                            assert(x[i as int] == Some(e));
                            assert(e == s@);
                            assert(nd.last() == p);
                        }
                    }
                    assert(nd.to_set() =~= entry_paths(x.take(i + 1), home@));
                    // the new element is a fixed point of cleaning
                    assert(clean_of(nd.last()) == nd.last());
                    if stable_inputs(x, home@) {
                        assert(x.contains(Some(s@)));
                        assert(present_entries(x).contains(s@));
                        assert(stable_entry(s@, home@));
                        let y0 = expand_tilde_spec(s@, home@);
                        if y0.len() > 0 && y0[0] == '/' {
                            assert(zp.len() > 0 && zp[0] == '/');
                            assert(expand_tilde_spec(zp, home@) == zp);
                        } else {
                            assert(!y0.contains('~'));
                            assert(!zp.contains('~')) by {
                                if zp.contains('~') {
                                    assert(y0.contains('~') || '~' == '/' || '~' == '.');
                                }
                            }
                            assert(zp.len() > 0);
                            assert(zp[0] != '~') by {
                                if zp[0] == '~' {
                                    assert(zp.contains('~')) by {
                                        assert(exists|k: int|
                                            0 <= k < zp.len() && zp[k] == '~') by {
                                            assert(zp[0] == '~');
                                        }
                                    }
                                }
                            }
                            assert(expand_tilde_spec(zp, home@) == zp);
                        }
                    }
                }
            },
            Option::None => {
                proof {
                    assert(x[i as int] is None);
                    assert forall|p: Seq<char>| entry_paths(x.take(i + 1), home@).contains(
                        p,
                    ) implies entry_paths(x.take(i as int), home@).contains(p) by {
                        let e = choose|e: Seq<char>|
                            present_entries(x.take(i + 1)).contains(e) && p == clean_of(
                                expand_tilde_spec(e, home@),
                            );
                        lemma_take_contains(x, i as int, Some(e));
                        assert(x.take(i as int).contains(Some(e)));
                        assert(present_entries(x.take(i as int)).contains(e));
                    }
                    assert forall|p: Seq<char>| entry_paths(x.take(i as int), home@).contains(
                        p,
                    ) implies entry_paths(x.take(i + 1), home@).contains(p) by {
                        let e = choose|e: Seq<char>|
                            present_entries(x.take(i as int)).contains(e) && p == clean_of(
                                expand_tilde_spec(e, home@),
                            );
                        lemma_take_contains(x, i as int, Some(e));
                        assert(x.take(i + 1).contains(Some(e)));
                        assert(present_entries(x.take(i + 1)).contains(e));
                    }
                    assert(cleaned.deep_view().to_set() =~= entry_paths(x.take(i + 1), home@));
                }
            },
        }
        i = i + 1;
    }
    proof {
        assert(x.take(raw@.len() as int) =~= x);
    }
    let ghost cd = cleaned.deep_view();
    let sorted = sort_paths(cleaned);
    proof {
        assert forall|p: Seq<char>| #[trigger] sorted.deep_view().contains(p) implies cd.contains(
            p,
        ) by {
            assert(sorted.deep_view().to_multiset().count(p) > 0);
        }
    }
    let ghost sd = sorted.deep_view();
    let deduped = dedup_sorted(sorted);
    proof {
        assert forall|p: Seq<char>| #[trigger] deduped.deep_view().contains(p) implies cd.contains(
            p,
        ) by {
            assert(sd.to_set().contains(p));
        }
        assert forall|p: Seq<char>| #[trigger] sd.to_set().contains(p) implies cd.to_set().contains(
            p,
        ) by {
            assert(sd.to_multiset().count(p) > 0);
        }
        assert forall|p: Seq<char>| #[trigger] cd.to_set().contains(p) implies sd.to_set().contains(
            p,
        ) by {
            assert(cd.to_multiset().count(p) > 0);
        }
        assert(deduped.deep_view().to_set() =~= cd.to_set());
    }
    let ghost dd = deduped.deep_view();
    let result = filter_contained(deduped);
    let ghost rd = result.deep_view();
    proof {
        assert(rd.to_set() =~= kept(entry_paths(x, home@))) by {
            assert(dd.to_set() == cd.to_set());
            assert(cd.to_set() == entry_paths(x, home@));
            assert(rd.to_set() == kept(dd.to_set()));
        }
        // every result path came from the cleaning stage, so the stashed
        // per-element facts apply to it
        assert forall|k: int| 0 <= k < rd.len() implies clean_of(#[trigger] rd[k]) == rd[k] by {
            assert(rd.contains(rd[k]));
            assert(rd.to_set().contains(rd[k]));
            assert(kept(dd.to_set()).contains(rd[k]));
            assert(dd.to_set().contains(rd[k]));
            assert(cd.contains(rd[k]));
            let j = choose|j: int| 0 <= j < cd.len() && cd[j] == rd[k];
            assert(clean_of(cd[j]) == cd[j]);
        }
        if stable_inputs(x, home@) {
            assert forall|k: int| 0 <= k < rd.len() implies expand_tilde_spec(
                #[trigger] rd[k],
                home@,
            ) == rd[k] by {
                assert(rd.contains(rd[k]));
                assert(rd.to_set().contains(rd[k]));
                assert(kept(dd.to_set()).contains(rd[k]));
                assert(dd.to_set().contains(rd[k]));
                assert(cd.contains(rd[k]));
                let j = choose|j: int| 0 <= j < cd.len() && cd[j] == rd[k];
                assert(expand_tilde_spec(cd[j], home@) == cd[j]);
            }
            // the result, read back as entries, cleans and expands to itself
            assert forall|p: Seq<char>| #[trigger] entry_paths(as_entries(rd), home@).contains(
                p,
            ) implies rd.to_set().contains(p) by {
                let e = choose|e: Seq<char>|
                    present_entries(as_entries(rd)).contains(e) && p == clean_of(
                        expand_tilde_spec(e, home@),
                    );
                assert(as_entries(rd).contains(Some(e)));
                let k = choose|k: int| 0 <= k < as_entries(rd).len() && as_entries(rd)[k] == Some(e);
                assert(rd[k] == e);
                assert(rd.contains(e));
                assert(expand_tilde_spec(e, home@) == e);
                assert(clean_of(e) == e);
            }
            assert forall|p: Seq<char>| #[trigger] rd.to_set().contains(p) implies entry_paths(
                as_entries(rd),
                home@,
            ).contains(p) by {
                let k = choose|k: int| 0 <= k < rd.len() && rd[k] == p;
                assert(as_entries(rd)[k] == Some(p));
                assert(as_entries(rd).contains(Some(p)));
                assert(present_entries(as_entries(rd)).contains(p));
                assert(expand_tilde_spec(p, home@) == p);
                assert(clean_of(p) == p);
            }
            assert(entry_paths(as_entries(rd), home@) =~= rd.to_set());
            assert forall|p: Seq<char>| #[trigger] rd.to_set().contains(p) implies kept(
                rd.to_set(),
            ).contains(p) by {
                assert(kept(entry_paths(x, home@)).contains(p));
                if exists|q: Seq<char>| rd.to_set().contains(q) && strict_path_prefix(q, p) {
                    let q = choose|q: Seq<char>|
                        rd.to_set().contains(q) && strict_path_prefix(q, p);
                    assert(entry_paths(x, home@).contains(q));
                }
            }
            assert(kept(rd.to_set()) =~= rd.to_set());
            assert(rd.to_set() == kept(entry_paths(as_entries(rd), home@)));
        }
    }
    result
}

/// Normalize against the environment's own home directory, as the
/// configuration loader does: whatever the lookup returned, the result is a
/// normalization of the input against some home path.
pub fn normalize_env(raw: &Vec<Option<String>>) -> (r: Vec<String>)
    ensures
        exists|h: Seq<char>| normalize_post(raw.deep_view(), h, r.deep_view()),
{
    let home = home_of_env();
    let r = normalize(raw, home.as_str());
    proof {
        assert(normalize_post(raw.deep_view(), home@, r.deep_view()));
    }
    r
}

/// Law: no normalized path lies below another one — the containment
/// invariant. Any result `r` that `normalize` may return for any input is
/// free of one path being a strict component-prefix of another.
pub proof fn lemma_normalize_no_containment(
    x: Seq<Option<Seq<char>>>,
    home: Seq<char>,
    r: Seq<Seq<char>>,
)
    requires
        normalize_post(x, home, r),
    ensures
        forall|i: int, j: int|
            #![trigger strict_path_prefix(r[i], r[j])]
            0 <= i < r.len() && 0 <= j < r.len() ==> !strict_path_prefix(r[i], r[j]),
{
    assert forall|i: int, j: int|
        #![trigger strict_path_prefix(r[i], r[j])]
        0 <= i < r.len() && 0 <= j < r.len() implies !strict_path_prefix(r[i], r[j]) by {
        assert(r.contains(r[i]));
        assert(r.contains(r[j]));
        assert(r.to_set().contains(r[i]));
        assert(r.to_set().contains(r[j]));
        let s = entry_paths(x, home);
        assert(kept(s).contains(r[j]));
        assert(s.contains(r[i]));
        if strict_path_prefix(r[i], r[j]) {
            assert(s.contains(r[i]) && strict_path_prefix(r[i], r[j]));
        }
    }
}

/// Law: the result does not depend on the order (or repetition) of the
/// input entries. Two runs of `normalize` over inputs holding the same set
/// of present entries return the same sequence.
pub proof fn lemma_normalize_order_independent(
    x1: Seq<Option<Seq<char>>>,
    x2: Seq<Option<Seq<char>>>,
    home: Seq<char>,
    r1: Seq<Seq<char>>,
    r2: Seq<Seq<char>>,
)
    requires
        normalize_post(x1, home, r1),
        normalize_post(x2, home, r2),
        present_entries(x1) == present_entries(x2),
    ensures
        r1 == r2,
{
    broadcast use group_to_multiset_ensures;

    assert(entry_paths(x1, home) =~= entry_paths(x2, home));
    assert(r1.to_set() == r2.to_set());
    r1.lemma_multiset_has_no_duplicates();
    r2.lemma_multiset_has_no_duplicates();
    assert forall|z: Seq<char>| true implies #[trigger] r1.to_multiset().count(z)
        == r2.to_multiset().count(z) by {
        if r1.contains(z) {
            assert(r1.to_set().contains(z));
            assert(r2.contains(z));
            assert(r1.to_multiset().count(z) > 0);
            assert(r1.to_multiset().contains(z));
            assert(r2.to_multiset().contains(z));
            assert(r1.to_multiset().count(z) == 1);
            assert(r2.to_multiset().count(z) == 1);
        } else {
            assert(r1.to_multiset().count(z) == 0);
            if r2.contains(z) {
                assert(r2.to_set().contains(z));
                assert(r1.contains(z));
            }
            assert(r2.to_multiset().count(z) == 0);
        }
    }
    assert(r1.to_multiset() =~= r2.to_multiset());
    lemma_path_le_total_ordering();
    lemma_sorted_unique(r1, r2, path_le_ff());
    assert(r1 =~= r2);
}

/// Law: normalization is idempotent. A result that is a fixed point of the
/// normalization relation — which `normalize` promises whenever every present
/// entry expands to an absolute path or mentions no `~` — normalizes to
/// itself: running `normalize` on its own output changes nothing.
pub proof fn lemma_normalize_idempotent(home: Seq<char>, r1: Seq<Seq<char>>, r2: Seq<Seq<char>>)
    requires
        normalize_post(as_entries(r1), home, r1),
        normalize_post(as_entries(r1), home, r2),
    ensures
        r2 == r1,
{
    lemma_normalize_order_independent(as_entries(r1), as_entries(r1), home, r2, r1);
}

} // verus!

//! The repository-scan state machine.
//!
//! Scanning a root is a tree walk whose only outside work is listing a
//! directory, which the caller performs. The machine hands out the next
//! directory to list, the caller answers with that directory's entries (or
//! with none at all for an unreadable directory, which thereby is skipped
//! silently), and the machine decides: an entry holding a `.git` marker is a
//! repository and, only when nested scanning is on, is walked into at most
//! once more; an entry without the marker is always walked into. The walk
//! runs to completion when no directory is left to list.
use vstd::prelude::*;

verus! {

/// What the caller reports of one directory entry: its path and the two facts
/// the walk decides on.
pub struct EntryInfo {
    /// Full path of the entry.
    pub path: String,
    /// The entry is itself a directory.
    pub is_dir: bool,
    /// The entry contains a `.git` marker (file or directory).
    pub has_git: bool,
}

/// Ghost image of an `EntryInfo`.
pub struct EntryView {
    pub path: Seq<char>,
    pub is_dir: bool,
    pub has_git: bool,
}

impl View for EntryInfo {
    type V = EntryView;

    open spec fn view(&self) -> EntryView {
        EntryView { path: self.path@, is_dir: self.is_dir, has_git: self.has_git }
    }
}

impl DeepView for EntryInfo {
    type V = EntryView;

    open spec fn deep_view(&self) -> EntryView {
        self.view()
    }
}

/// The entry is a repository: a directory with the marker.
pub open spec fn is_repo_entry(e: EntryView) -> bool {
    e.is_dir && e.has_git
}

/// The entry's own subtree is still to be walked: every directory without the
/// marker, and a repository only when nested scanning is on.
pub open spec fn walk_further(e: EntryView, nested: bool) -> bool {
    e.is_dir && (!e.has_git || nested)
}

/// The repository paths among a listing, in listing order.
pub open spec fn repos_of(es: Seq<EntryView>) -> Seq<Seq<char>>
    decreases es.len(),
{
    if es.len() == 0 {
        Seq::empty()
    } else if is_repo_entry(es.last()) {
        repos_of(es.drop_last()).push(es.last().path)
    } else {
        repos_of(es.drop_last())
    }
}

/// The directories of a listing that remain to be listed, in listing order.
pub open spec fn pending_of(es: Seq<EntryView>, nested: bool) -> Seq<Seq<char>>
    decreases es.len(),
{
    if es.len() == 0 {
        Seq::empty()
    } else if walk_further(es.last(), nested) {
        pending_of(es.drop_last(), nested).push(es.last().path)
    } else {
        pending_of(es.drop_last(), nested)
    }
}

proof fn lemma_repos_of_push(es: Seq<EntryView>, e: EntryView)
    ensures
        repos_of(es.push(e)) == if is_repo_entry(e) {
            repos_of(es).push(e.path)
        } else {
            repos_of(es)
        },
{
    assert(es.push(e).drop_last() =~= es);
    assert(es.push(e).last() == e);
}

proof fn lemma_pending_of_push(es: Seq<EntryView>, e: EntryView, nested: bool)
    ensures
        pending_of(es.push(e), nested) == if walk_further(e, nested) {
            pending_of(es, nested).push(e.path)
        } else {
            pending_of(es, nested)
        },
{
    assert(es.push(e).drop_last() =~= es);
    assert(es.push(e).last() == e);
}

/// One in-progress scan of a single root.
pub struct Scanner {
    nested: bool,
    pending: Vec<String>,
    repos: Vec<String>,
}

impl Scanner {
    /// Directories handed out by `next_dir` but not yet listed, oldest first.
    pub closed spec fn pending_view(self) -> Seq<Seq<char>> {
        self.pending.deep_view()
    }

    /// Repositories found so far, in discovery order.
    pub closed spec fn repos_view(self) -> Seq<Seq<char>> {
        self.repos.deep_view()
    }

    /// Whether repositories are scanned for further repositories inside them.
    pub closed spec fn nested_flag(self) -> bool {
        self.nested
    }

    /// Begin a scan: the root itself is the one directory waiting to be
    /// listed, and nothing has been found.
    pub fn new(root: String, nested: bool) -> (s: Scanner)
        ensures
            s.pending_view() =~= seq![root@],
            s.repos_view() =~= Seq::<Seq<char>>::empty(),
            s.nested_flag() == nested,
    {
        let mut pending: Vec<String> = Vec::new();
        pending.push(root);
        Scanner { nested, pending, repos: Vec::new() }
    }

    /// Hand out the next directory to list, or report the walk finished.
    pub fn next_dir(&mut self) -> (r: Option<String>)
        ensures
            final(self).repos_view() == old(self).repos_view(),
            final(self).nested_flag() == old(self).nested_flag(),
            match r {
                Some(d) => {
                    &&& old(self).pending_view().len() > 0
                    &&& d@ == old(self).pending_view().last()
                    &&& final(self).pending_view() == old(self).pending_view().drop_last()
                },
                None => {
                    &&& old(self).pending_view().len() == 0
                    &&& final(self).pending_view() == old(self).pending_view()
                },
            },
    {
        proof {
            assert(self.pending.deep_view().len() == self.pending@.len());
        }
        let r = self.pending.pop();
        proof {
            if old(self).pending_view().len() > 0 {
                assert(self.pending.deep_view() =~= old(self).pending_view().drop_last());
            } else {
                assert(self.pending.deep_view() =~= old(self).pending_view());
            }
        }
        r
    }

    /// Take in the listing of the directory last handed out. Every repository
    /// in it is recorded, and every directory whose subtree is still to be
    /// walked joins the waiting ones. A caller that found the directory
    /// unreadable, or not a directory at all, passes no entries, and the
    /// walk goes on with the rest: nothing is recorded, nothing fails.
    pub fn record_listing(&mut self, entries: &Vec<EntryInfo>)
        ensures
            final(self).nested_flag() == old(self).nested_flag(),
            final(self).repos_view() == old(self).repos_view() + repos_of(entries.deep_view()),
            final(self).pending_view() == old(self).pending_view() + pending_of(
                entries.deep_view(),
                old(self).nested_flag(),
            ),
    {
        let ghost evs = entries.deep_view();
        let mut i: usize = 0;
        while i < entries.len()
            invariant
                i <= entries.len(),
                evs == entries.deep_view(),
                evs.len() == entries@.len(),
                self.nested == old(self).nested_flag(),
                self.repos.deep_view() == old(self).repos_view() + repos_of(
                    evs.take(i as int),
                ),
                self.pending.deep_view() == old(self).pending_view() + pending_of(
                    evs.take(i as int),
                    self.nested,
                ),
            decreases entries.len() - i,
        {
            let ghost ev = evs[i as int];
            let ghost rprev = self.repos.deep_view();
            let ghost pprev = self.pending.deep_view();
            proof {
                assert(evs.take(i + 1) =~= evs.take(i as int).push(ev));
                lemma_repos_of_push(evs.take(i as int), ev);
                lemma_pending_of_push(evs.take(i as int), ev, self.nested);
                assert(ev == entries@[i as int]@);
            }
            let e = &entries[i];
            proof {
                assert(e.is_dir == ev.is_dir);
                assert(e.has_git == ev.has_git);
                assert(e.path@ == ev.path);
            }
            if e.is_dir {
                if e.has_git {
                    self.repos.push(e.path.clone());
                    proof {
                        assert(self.repos.deep_view() =~= rprev.push(ev.path));
                        assert(rprev.push(ev.path) =~= old(self).repos_view() + repos_of(
                            evs.take(i as int),
                        ).push(ev.path));
                        assert(self.repos.deep_view() =~= old(self).repos_view() + repos_of(
                            evs.take(i + 1),
                        ));
                    }
                    if self.nested {
                        self.pending.push(e.path.clone());
                        proof {
                            assert(self.pending.deep_view() =~= pprev.push(ev.path));
                            assert(pprev.push(ev.path) =~= old(self).pending_view() + pending_of(
                                evs.take(i as int),
                                self.nested,
                            ).push(ev.path));
                            assert(self.pending.deep_view() =~= old(self).pending_view()
                                + pending_of(evs.take(i + 1), self.nested));
                        }
                    } else {
                        proof {
                            assert(self.pending.deep_view() =~= old(self).pending_view()
                                + pending_of(evs.take(i + 1), self.nested));
                        }
                    }
                } else {
                    self.pending.push(e.path.clone());
                    proof {
                        assert(self.repos.deep_view() =~= old(self).repos_view() + repos_of(
                            evs.take(i + 1),
                        ));
                        assert(self.pending.deep_view() =~= pprev.push(ev.path));
                        assert(pprev.push(ev.path) =~= old(self).pending_view() + pending_of(
                            evs.take(i as int),
                            self.nested,
                        ).push(ev.path));
                        assert(self.pending.deep_view() =~= old(self).pending_view() + pending_of(
                            evs.take(i + 1),
                            self.nested,
                        ));
                    }
                }
            } else {
                proof {
                    assert(self.repos.deep_view() =~= old(self).repos_view() + repos_of(
                        evs.take(i + 1),
                    ));
                    assert(self.pending.deep_view() =~= old(self).pending_view() + pending_of(
                        evs.take(i + 1),
                        self.nested,
                    ));
                }
            }
            i = i + 1;
        }
        proof {
            assert(evs.take(entries@.len() as int) =~= evs);
        }
    }

    /// End the scan and take the repositories found.
    pub fn finish(self) -> (r: Vec<String>)
        ensures
            r.deep_view() == self.repos_view(),
    {
        self.repos
    }
}

} // verus!

//! The workspace scanner.
//!
//! The scan is all-or-nothing: given a workspace root that the host has
//! classified as a directory, a [`Scanner`] walks the tree depth-first by
//! asking the host to list one directory at a time. The host performs the
//! listing and hands back either the entries, each with its classification, or
//! the cause of the failure; the scanner decides everything else. Entries
//! classified as directories are queued for descent, regular files whose
//! extension is `meta` or `xml` (case-insensitively) are collected, anything
//! else is ignored, and any listing failure aborts the whole scan. Once no
//! directory is left to list, [`Scanner::finish`] returns the collected paths
//! sorted ascending by path string.

use vstd::prelude::*;
use crate::order::chars_le;
use crate::order::sort_paths;
use crate::order::sorted_paths;
use crate::path_ext::is_meta_file;
use crate::path_ext::is_meta_path;

verus! {

/// How the host's filesystem layer classified one directory entry.
#[derive(Clone, Copy, Debug)]
pub enum EntryKind {
    /// A directory, to be descended into.
    Directory,
    /// A regular file, a candidate for collection.
    RegularFile,
    /// Anything else (socket, device, dangling link): silently ignored.
    Other,
}

/// One entry of a listed directory: its full path (the directory's path
/// joined with the entry's name) and its classification.
#[derive(Clone, Debug)]
pub struct DirEntry {
    pub path: String,
    pub kind: EntryKind,
}

/// How the host classified the workspace root itself.
#[derive(Clone, Copy, Debug)]
pub enum RootKind {
    /// The root does not exist on the filesystem.
    Missing,
    /// The root exists but is not a directory.
    NotDirectory,
    /// The root is a directory.
    Directory,
}

/// Why a scan failed. Every failure is terminal: no partial result survives.
#[derive(Debug)]
pub enum ScanError {
    /// The workspace root does not exist.
    PathNotFound,
    /// The workspace root exists but is not a directory.
    NotADirectory,
    /// Listing a directory or classifying an entry failed; the whole scan is
    /// aborted. Carries the underlying cause.
    ListingFailed(String),
}

/// The entry is collected by a scan: a regular file whose extension is `meta`
/// or `xml`, case-insensitively.
pub open spec fn is_matching_entry(e: DirEntry) -> bool {
    e.kind is RegularFile && is_meta_path(e.path@)
}

/// The paths of the matching entries of `es`, in order.
pub open spec fn matching_paths(es: Seq<DirEntry>) -> Seq<String> {
    es.filter(|e: DirEntry| is_matching_entry(e)).map_values(|e: DirEntry| e.path)
}

/// The paths of the entries of `es` classified as directories, in order.
pub open spec fn subdir_paths(es: Seq<DirEntry>) -> Seq<String> {
    es.filter(|e: DirEntry| e.kind is Directory).map_values(|e: DirEntry| e.path)
}

/// Appending one entry extends the matching paths by its path exactly when it
/// matches, and the subdirectory paths by its path exactly when it is a
/// directory.
pub proof fn lemma_paths_push(es: Seq<DirEntry>, e: DirEntry)
    ensures
        matching_paths(es.push(e)) == if is_matching_entry(e) {
            matching_paths(es).push(e.path)
        } else {
            matching_paths(es)
        },
        subdir_paths(es.push(e)) == if e.kind is Directory {
            subdir_paths(es).push(e.path)
        } else {
            subdir_paths(es)
        },
{
    broadcast use vstd::prelude::Seq::lemma_filter_push;

    let m = |e: DirEntry| is_matching_entry(e);
    let d = |e: DirEntry| e.kind is Directory;
    let p = |e: DirEntry| e.path;
    if is_matching_entry(e) {
        assert(es.filter(m).push(e).map_values(p) =~= es.filter(m).map_values(p).push(e.path));
    }
    if e.kind is Directory {
        assert(es.filter(d).push(e).map_values(p) =~= es.filter(d).map_values(p).push(e.path));
    }
}

/// The matching and subdirectory paths of a concatenation are the
/// concatenations of each side's.
pub proof fn lemma_paths_distribute(a: Seq<DirEntry>, b: Seq<DirEntry>)
    ensures
        matching_paths(a + b) == matching_paths(a) + matching_paths(b),
        subdir_paths(a + b) == subdir_paths(a) + subdir_paths(b),
{
    broadcast use vstd::prelude::Seq::filter_distributes_over_add;

    let m = |e: DirEntry| is_matching_entry(e);
    let d = |e: DirEntry| e.kind is Directory;
    let p = |e: DirEntry| e.path;
    assert((a.filter(m) + b.filter(m)).map_values(p) =~= a.filter(m).map_values(p) + b.filter(
        m,
    ).map_values(p));
    assert((a.filter(d) + b.filter(d)).map_values(p) =~= a.filter(d).map_values(p) + b.filter(
        d,
    ).map_values(p));
}

/// One scan in progress: the directories still to list, the matching file
/// paths collected so far, and (as ghost state) every entry the host has
/// reported to this scan, in order.
pub struct Scanner {
    /// Directories discovered but not yet listed. The scanner hands them out
    /// last-in first-out, giving a depth-first descent.
    pub pending: Vec<String>,
    /// Paths of the matching files, in discovery order.
    pub found: Vec<String>,
    /// Every directory entry the host has reported, in order.
    pub reported: Ghost<Seq<DirEntry>>,
}

impl Scanner {
    /// The scanner's invariant, and the heart of its correctness: the
    /// collected paths are exactly the paths of the matching entries among
    /// everything the host has reported — each reported matching file once,
    /// nothing else.
    pub open spec fn inv(self) -> bool {
        self.found@ == matching_paths(self.reported@)
    }

    /// Begins a scan of `root`, which the host has classified as `kind`. A
    /// missing root fails with `PathNotFound`, a root that is not a directory
    /// with `NotADirectory`; a directory root yields a scanner whose one
    /// pending directory is the root and which has collected nothing.
    pub fn start(root: String, kind: RootKind) -> (r: Result<Scanner, ScanError>)
        ensures
            kind is Missing ==> (r matches Err(e) && e is PathNotFound),
            kind is NotDirectory ==> (r matches Err(e) && e is NotADirectory),
            kind is Directory ==> (r matches Ok(s) && s.inv() && s.pending@ =~= seq![root]
                && s.found@ =~= Seq::<String>::empty() && s.reported@ =~= Seq::<
                    DirEntry,
                >::empty()),
    {
        match kind {
            RootKind::Missing => Err(ScanError::PathNotFound),
            RootKind::NotDirectory => Err(ScanError::NotADirectory),
            RootKind::Directory => {
                let mut pending: Vec<String> = Vec::new();
                pending.push(root);
                let s = Scanner { pending, found: Vec::new(), reported: Ghost(Seq::empty()) };
                proof {
                    assert(matching_paths(Seq::<DirEntry>::empty()) =~= Seq::<String>::empty())
                        by {
                        Seq::<DirEntry>::empty().lemma_filter_len(
                            |e: DirEntry| is_matching_entry(e),
                        );
                    }
                }
                Ok(s)
            },
        }
    }

    /// Hands out the next directory to list, or `None` once the descent is
    /// complete. The collected paths are untouched.
    pub fn next_dir(&mut self) -> (r: Option<String>)
        ensures
            final(self).found == old(self).found,
            final(self).reported == old(self).reported,
            match r {
                None => old(self).pending@.len() == 0 && final(self).pending@ == old(self).pending@,
                Some(d) => old(self).pending@.len() > 0 && d == old(self).pending@.last()
                    && final(self).pending@ == old(self).pending@.drop_last(),
            },
    {
        self.pending.pop()
    }

    /// Takes the host's outcome for one directory listing. On entries, queues
    /// each directory for descent and collects each regular file whose
    /// extension is `meta` or `xml` case-insensitively, in the order reported;
    /// everything else is ignored. On a failure, aborts the scan with
    /// `ListingFailed` carrying the cause, changing nothing.
    pub fn handle_listing(&mut self, outcome: Result<Vec<DirEntry>, String>) -> (r: Result<
        (),
        ScanError,
    >)
        requires
            old(self).inv(),
        ensures
            final(self).inv(),
            match outcome {
                Ok(entries) => r is Ok && final(self).found@ == old(self).found@
                    + matching_paths(entries@) && final(self).pending@ == old(self).pending@
                    + subdir_paths(entries@) && final(self).reported@ == old(self).reported@
                    + entries@,
                Err(cause) => r matches Err(ScanError::ListingFailed(c)) && c == cause
                    && *final(self) == *old(self),
            },
    {
        match outcome {
            Err(cause) => Err(ScanError::ListingFailed(cause)),
            Ok(entries) => {
                proof {
                    assert(entries@.take(0) =~= Seq::<DirEntry>::empty());
                    assert(matching_paths(Seq::<DirEntry>::empty()) =~= Seq::<String>::empty())
                        by {
                        Seq::<DirEntry>::empty().lemma_filter_len(
                            |e: DirEntry| is_matching_entry(e),
                        );
                    }
                    assert(subdir_paths(Seq::<DirEntry>::empty()) =~= Seq::<String>::empty()) by {
                        Seq::<DirEntry>::empty().lemma_filter_len(
                            |e: DirEntry| e.kind is Directory,
                        );
                    }
                    assert(old(self).found@ + Seq::<String>::empty() =~= old(self).found@);
                    assert(old(self).pending@ + Seq::<String>::empty() =~= old(self).pending@);
                    assert(old(self).reported@ + Seq::<DirEntry>::empty() =~= old(self).reported@);
                }
                let mut i: usize = 0;
                while i < entries.len()
                    invariant
                        i <= entries@.len(),
                        self.found@ == old(self).found@ + matching_paths(entries@.take(i as int)),
                        self.pending@ == old(self).pending@ + subdir_paths(
                            entries@.take(i as int),
                        ),
                        self.reported@ == old(self).reported@ + entries@.take(i as int),
                    decreases entries@.len() - i,
                {
                    let ghost before = entries@.take(i as int);
                    let ghost entry = entries@[i as int];
                    self.reported = Ghost(self.reported@.push(entry));
                    match entries[i].kind {
                        EntryKind::Directory => {
                            let p = entries[i].path.clone();
                            self.pending.push(p);
                        },
                        EntryKind::RegularFile => {
                            if is_meta_file(entries[i].path.as_str()) {
                                let p = entries[i].path.clone();
                                self.found.push(p);
                            }
                        },
                        EntryKind::Other => {},
                    }
                    proof {
                        lemma_paths_push(before, entry);
                        assert(before.push(entry) =~= entries@.take(i + 1));
                        assert(old(self).reported@ + before.push(entry) =~= (old(self).reported@
                            + before).push(entry));
                        if is_matching_entry(entry) {
                            assert(old(self).found@ + matching_paths(before).push(entry.path)
                                =~= (old(self).found@ + matching_paths(before)).push(entry.path));
                        }
                        if entry.kind is Directory {
                            assert(old(self).pending@ + subdir_paths(before).push(entry.path)
                                =~= (old(self).pending@ + subdir_paths(before)).push(entry.path));
                        }
                    }
                    i = i + 1;
                }
                proof {
                    assert(entries@.take(entries@.len() as int) =~= entries@);
                    lemma_paths_distribute(old(self).reported@, entries@);
                }
                Ok(())
            },
        }
    }

    /// Ends a completed scan: sorts the collected paths ascending by path
    /// string and returns them. The result holds, as a multiset, exactly the
    /// paths of the matching entries the host reported — each exactly as
    /// often as it was reported, and nothing else.
    pub fn finish(self) -> (r: Vec<String>)
        requires
            self.inv(),
            self.pending@.len() == 0,
        ensures
            sorted_paths(r@),
            r@.to_multiset() == matching_paths(self.reported@).to_multiset(),
            r@.len() == matching_paths(self.reported@).len(),
    {
        sort_paths(self.found)
    }
}

/// A completed scan lists each matching file exactly once, in strictly
/// ascending order, whenever the host reported no matching path twice: if the
/// matching paths are pairwise distinct as strings, any sorted sequence that
/// holds exactly those paths as a multiset — as [`Scanner::finish`] returns —
/// has pairwise distinct strings too.
pub proof fn lemma_result_each_once(matching: Seq<String>, r: Seq<String>)
    requires
        r.to_multiset() == matching.to_multiset(),
        sorted_paths(r),
        forall|i: int, j: int| 0 <= i < j < matching.len() ==> matching[i]@ != matching[j]@,
    ensures
        forall|i: int, j: int|
            0 <= i < j < r.len() ==> chars_le(#[trigger] r[i]@, #[trigger] r[j]@) && r[i]@ != r[j]@,
{
    matching.to_multiset_ensures();
    r.to_multiset_ensures();
    assert(matching.no_duplicates()) by {
        assert forall|i: int, j: int|
            0 <= i < matching.len() && 0 <= j < matching.len() && i != j implies matching[i]
            != matching[j] by {
            if i < j {
                assert(matching[i]@ != matching[j]@);
            } else {
                assert(matching[j]@ != matching[i]@);
            }
        }
    }
    matching.lemma_multiset_has_no_duplicates();
    r.lemma_multiset_has_no_duplicates_conv();
    assert forall|i: int, j: int| 0 <= i < j < r.len() implies chars_le(
        #[trigger] r[i]@,
        #[trigger] r[j]@,
    ) && r[i]@ != r[j]@ by {
        if r[i]@ == r[j]@ {
            assert(r[i] != r[j]);
            assert(r.contains(r[i]));
            assert(r.contains(r[j]));
            assert(matching.to_multiset().count(r[i]) > 0);
            assert(matching.to_multiset().count(r[j]) > 0);
            assert(matching.contains(r[i]));
            assert(matching.contains(r[j]));
            let k = choose|k: int| 0 <= k < matching.len() && matching[k] == r[i];
            let l = choose|l: int| 0 <= l < matching.len() && matching[l] == r[j];
            assert(k != l);
            if k < l {
                assert(matching[k]@ != matching[l]@);
            } else {
                assert(matching[l]@ != matching[k]@);
            }
            assert(false);
        }
    }
}

} // verus!

use vstd::prelude::*;

use crate::classify::{classify_matching, classify_with, segments_view, Matching, Rule};

verus! {

/// What became of one staged file. Paths are segment lists: `source` relative
/// to the source root, `target` relative to the working directory.
#[derive(Clone, Debug, PartialEq, Eq)]
pub enum CopyOutcome {
    Copied { source: Vec<String>, target: Vec<String> },
    SkippedUnmapped { source: Vec<String> },
    SkippedExists { source: Vec<String>, target: Vec<String> },
    Failed { source: Vec<String>, target: Vec<String>, cause: String },
}

/// The kind of a `CopyOutcome`, without its paths.
#[derive(Clone, Copy, Debug, PartialEq, Eq, Structural)]
pub enum Fate {
    Copied,
    Unmapped,
    Exists,
    Failed,
}

impl CopyOutcome {
    pub open spec fn fate(self) -> Fate {
        match self {
            CopyOutcome::Copied { .. } => Fate::Copied,
            CopyOutcome::SkippedUnmapped { .. } => Fate::Unmapped,
            CopyOutcome::SkippedExists { .. } => Fate::Exists,
            CopyOutcome::Failed { .. } => Fate::Failed,
        }
    }

    /// The staged file this outcome is about.
    pub open spec fn source_view(self) -> Seq<Seq<char>> {
        match self {
            CopyOutcome::Copied { source, .. } => segments_view(source@),
            CopyOutcome::SkippedUnmapped { source } => segments_view(source@),
            CopyOutcome::SkippedExists { source, .. } => segments_view(source@),
            CopyOutcome::Failed { source, .. } => segments_view(source@),
        }
    }

    /// The destination, where one was computed.
    pub open spec fn target_view(self) -> Option<Seq<Seq<char>>> {
        match self {
            CopyOutcome::Copied { target, .. } => Some(segments_view(target@)),
            CopyOutcome::SkippedUnmapped { .. } => None,
            CopyOutcome::SkippedExists { target, .. } => Some(segments_view(target@)),
            CopyOutcome::Failed { target, .. } => Some(segments_view(target@)),
        }
    }
}

/// What the caller does next for one staged file.
#[derive(Clone, Debug, PartialEq, Eq)]
pub enum FileStep {
    /// Nothing more: the file's outcome is final.
    Done(CopyOutcome),
    /// Find out whether a file exists at this destination.
    Probe(Vec<String>),
    /// Create the destination's missing parent directories, then copy the
    /// file's bytes there.
    Copy(Vec<String>),
}

/// First step for the staged file at `rel`, classified under `rules` as
/// `matching` says: an unmapped file is done with, a mapped one has its
/// destination probed.
pub fn first_step(rel: &Vec<String>, rules: &Vec<Rule>, matching: Matching) -> (r: FileStep)
    ensures
        match classify_with(segments_view(rel@), rules@, matching) {
            None => r matches FileStep::Done(o) && o.fate() == Fate::Unmapped && o.source_view()
                == segments_view(rel@),
            Some(t) => r matches FileStep::Probe(p) && segments_view(p@) == t,
        },
{
    match classify_matching(rel, rules, matching) {
        None => FileStep::Done(CopyOutcome::SkippedUnmapped { source: rel.clone() }),
        Some(t) => FileStep::Probe(t),
    }
}

/// Step once the destination was probed: an existing file there is never
/// overwritten, the staged file is skipped instead.
pub fn after_probe(rel: &Vec<String>, target: Vec<String>, exists: bool) -> (r: FileStep)
    ensures
        exists ==> (r matches FileStep::Done(o) && o.fate() == Fate::Exists && o.source_view()
            == segments_view(rel@) && o.target_view() == Some(segments_view(target@))),
        !exists ==> (r matches FileStep::Copy(p) && p@ == target@),
{
    if exists {
        FileStep::Done(CopyOutcome::SkippedExists { source: rel.clone(), target })
    } else {
        FileStep::Copy(target)
    }
}

/// Outcome once the copy was attempted; `error` holds the cause of a failed
/// directory creation or copy.
pub fn after_copy(rel: &Vec<String>, target: Vec<String>, error: Option<String>) -> (r: CopyOutcome)
    ensures
        r.fate() == (if error is Some {
            Fate::Failed
        } else {
            Fate::Copied
        }),
        r.source_view() == segments_view(rel@),
        r.target_view() == Some(segments_view(target@)),
        error matches Some(c) ==> (r matches CopyOutcome::Failed { cause, .. } && cause@ == c@),
{
    match error {
        Some(cause) => CopyOutcome::Failed { source: rel.clone(), target, cause },
        None => CopyOutcome::Copied { source: rel.clone(), target },
    }
}


/// A destination tree: file contents by path relative to the working directory.
pub type Tree = Map<Seq<Seq<char>>, Seq<u8>>;

/// A staged file: its path relative to the source root and its contents.
pub type Staged = (Seq<Seq<char>>, Seq<u8>);

/// What the steps above give for the staged file at `rel`, with `dest` the
/// destination tree and `copy_ok` whether creating its directories and
/// copying succeed.
pub open spec fn file_fate(
    rel: Seq<Seq<char>>,
    rules: Seq<Rule>,
    matching: Matching,
    dest: Tree,
    copy_ok: bool,
) -> Fate {
    match classify_with(rel, rules, matching) {
        None => Fate::Unmapped,
        Some(t) => if dest.contains_key(t) {
            Fate::Exists
        } else if copy_ok {
            Fate::Copied
        } else {
            Fate::Failed
        },
    }
}

/// The destination tree after handling `f`: a copied file adds its contents
/// at its destination; every other outcome leaves the tree as it was (a
/// failed copy is taken to leave nothing behind, though on a real
/// filesystem it may leave a truncated file).
pub open spec fn tree_after(
    f: Staged,
    rules: Seq<Rule>,
    matching: Matching,
    dest: Tree,
    copy_ok: bool,
) -> Tree {
    if file_fate(f.0, rules, matching, dest, copy_ok) == Fate::Copied {
        dest.insert(classify_with(f.0, rules, matching)->0, f.1)
    } else {
        dest
    }
}

/// The destination tree after handling the first `n` of `files`, in order,
/// starting from `dest`; `oks[i]` says whether the copy of `files[i]` succeeds.
pub open spec fn tree_after_run(
    files: Seq<Staged>,
    oks: Seq<bool>,
    rules: Seq<Rule>,
    matching: Matching,
    dest: Tree,
    n: int,
) -> Tree
    decreases n,
{
    if n <= 0 {
        dest
    } else {
        let before = tree_after_run(files, oks, rules, matching, dest, n - 1);
        tree_after(files[n - 1], rules, matching, before, oks[n - 1])
    }
}

/// The outcome kind of `files[i]` in a run over `files` starting from `dest`.
pub open spec fn fate_in_run(
    files: Seq<Staged>,
    oks: Seq<bool>,
    rules: Seq<Rule>,
    matching: Matching,
    dest: Tree,
    i: int,
) -> Fate {
    let before = tree_after_run(files, oks, rules, matching, dest, i);
    file_fate(files[i].0, rules, matching, before, oks[i])
}

proof fn lemma_run_keeps_paths(
    files: Seq<Staged>,
    oks: Seq<bool>,
    rules: Seq<Rule>,
    matching: Matching,
    dest: Tree,
    m: int,
    n: int,
)
    requires
        0 <= m <= n <= files.len(),
        n <= oks.len(),
    ensures
        tree_after_run(files, oks, rules, matching, dest, m).dom().subset_of(
            tree_after_run(files, oks, rules, matching, dest, n).dom(),
        ),
    decreases n - m,
{
    if m < n {
        lemma_run_keeps_paths(files, oks, rules, matching, dest, m, n - 1);
    }
}

proof fn lemma_run_paths_come_from(
    files: Seq<Staged>,
    oks: Seq<bool>,
    rules: Seq<Rule>,
    matching: Matching,
    dest: Tree,
    n: int,
    x: Seq<Seq<char>>,
)
    requires
        0 <= n <= files.len(),
        n <= oks.len(),
        tree_after_run(files, oks, rules, matching, dest, n).contains_key(x),
    ensures
        dest.contains_key(x) || exists|j: int|
            0 <= j < n && classify_with(#[trigger] files[j].0, rules, matching) == Some(x),
    decreases n,
{
    if n > 0 {
        let before = tree_after_run(files, oks, rules, matching, dest, n - 1);
        if before.contains_key(x) {
            lemma_run_paths_come_from(files, oks, rules, matching, dest, n - 1, x);
        } else {
            assert(classify_with(files[n - 1].0, rules, matching) == Some(x));
        }
    }
}

/// Failures stay isolated: a staged file whose own copy succeeds, whose
/// destination did not exist beforehand and is the destination of no other
/// staged file, is copied, whatever becomes of the other files of the run.
pub proof fn lemma_failures_isolated(
    files: Seq<Staged>,
    oks: Seq<bool>,
    rules: Seq<Rule>,
    matching: Matching,
    dest: Tree,
    i: int,
)
    requires
        0 <= i < files.len(),
        oks.len() == files.len(),
        oks[i],
        classify_with(files[i].0, rules, matching) matches Some(t) && !dest.contains_key(t)
            && forall|j: int|
            0 <= j < files.len() && j != i ==> classify_with(#[trigger] files[j].0, rules, matching)
                != Some(t),
    ensures
        fate_in_run(files, oks, rules, matching, dest, i) == Fate::Copied,
{
    let t = classify_with(files[i].0, rules, matching)->0;
    if tree_after_run(files, oks, rules, matching, dest, i).contains_key(t) {
        lemma_run_paths_come_from(files, oks, rules, matching, dest, i, t);
    }
}

/// On a tree that starts without any of their destinations, staged files
/// that all have distinct destinations and copy without error are all copied.
pub proof fn lemma_first_run_copies_all(
    files: Seq<Staged>,
    oks: Seq<bool>,
    rules: Seq<Rule>,
    matching: Matching,
    dest: Tree,
)
    requires
        oks.len() == files.len(),
        forall|i: int| 0 <= i < oks.len() ==> oks[i],
        forall|i: int|
            0 <= i < files.len() ==> (classify_with(#[trigger] files[i].0, rules, matching)
                matches Some(t) && !dest.contains_key(t)),
        forall|i: int, j: int|
            0 <= i < files.len() && 0 <= j < files.len() && i != j ==> classify_with(
                #[trigger] files[i].0,
                rules,
                matching,
            ) != classify_with(#[trigger] files[j].0, rules, matching),
    ensures
        forall|i: int|
            0 <= i < files.len() ==> fate_in_run(files, oks, rules, matching, dest, i)
                == Fate::Copied,
{
    assert forall|i: int| 0 <= i < files.len() implies fate_in_run(
        files,
        oks,
        rules,
        matching,
        dest,
        i,
    ) == Fate::Copied by {
        lemma_failures_isolated(files, oks, rules, matching, dest, i);
    }
}

proof fn lemma_run_places_mapped(
    files: Seq<Staged>,
    oks: Seq<bool>,
    rules: Seq<Rule>,
    matching: Matching,
    dest: Tree,
    i: int,
)
    requires
        0 <= i < files.len(),
        oks.len() == files.len(),
        oks[i],
        classify_with(files[i].0, rules, matching) is Some,
    ensures
        tree_after_run(files, oks, rules, matching, dest, files.len() as int).contains_key(
            classify_with(files[i].0, rules, matching)->0,
        ),
{
    lemma_run_keeps_paths(files, oks, rules, matching, dest, i + 1, files.len() as int);
}

proof fn lemma_rerun_unchanged(
    files: Seq<Staged>,
    oks: Seq<bool>,
    rules: Seq<Rule>,
    matching: Matching,
    done: Tree,
    n: int,
)
    requires
        0 <= n <= files.len(),
        n <= oks.len(),
        forall|i: int|
            0 <= i < files.len() && classify_with(#[trigger] files[i].0, rules, matching) is Some
                ==> done.contains_key(classify_with(files[i].0, rules, matching)->0),
    ensures
        tree_after_run(files, oks, rules, matching, done, n) == done,
    decreases n,
{
    if n > 0 {
        lemma_rerun_unchanged(files, oks, rules, matching, done, n - 1);
    }
}

/// Running again copies nothing: after a run in which every copy succeeded,
/// a second run over the same staged files, whatever its copies would do,
/// skips every mapped file as already existing, reports the unmapped ones
/// again, and leaves the destination tree exactly as the first run left it.
pub proof fn lemma_rerun_copies_nothing(
    files: Seq<Staged>,
    first_oks: Seq<bool>,
    second_oks: Seq<bool>,
    rules: Seq<Rule>,
    matching: Matching,
    dest: Tree,
)
    requires
        first_oks.len() == files.len(),
        second_oks.len() == files.len(),
        forall|i: int| 0 <= i < first_oks.len() ==> first_oks[i],
    ensures
        ({
            let done = tree_after_run(files, first_oks, rules, matching, dest, files.len() as int);
            &&& tree_after_run(files, second_oks, rules, matching, done, files.len() as int) == done
            &&& forall|i: int|
                0 <= i < files.len() ==> fate_in_run(files, second_oks, rules, matching, done, i)
                    == (if classify_with(#[trigger] files[i].0, rules, matching) is Some {
                    Fate::Exists
                } else {
                    Fate::Unmapped
                })
        }),
{
    let done = tree_after_run(files, first_oks, rules, matching, dest, files.len() as int);
    assert forall|i: int|
        0 <= i < files.len() && classify_with(#[trigger] files[i].0, rules, matching) is Some
            implies done.contains_key(classify_with(files[i].0, rules, matching)->0) by {
        lemma_run_places_mapped(files, first_oks, rules, matching, dest, i);
    }
    assert forall|i: int| 0 <= i <= files.len() implies tree_after_run(
        files,
        second_oks,
        rules, matching,
        done,
        i,
    ) == done by {
        lemma_rerun_unchanged(files, second_oks, rules, matching, done, i);
    }
}


/// The path of the entry `name` inside the directory `dir`.
pub fn child_path(dir: &Vec<String>, name: String) -> (r: Vec<String>)
    ensures
        segments_view(r@) == segments_view(dir@).push(name@),
{
    let mut out = dir.clone();
    out.push(name);
    assert(segments_view(out@) =~= segments_view(dir@).push(name@));
    out
}

/// The directories of a depth-first walk that are still to be listed, as
/// paths relative to the source root; the last one is listed next.
pub struct Walk {
    pending: Vec<Vec<String>>,
}

impl Walk {
    pub closed spec fn pending_view(&self) -> Seq<Seq<Seq<char>>> {
        self.pending@.map_values(|d: Vec<String>| segments_view(d@))
    }

    /// A walk that starts at the source root itself.
    pub fn new() -> (w: Walk)
        ensures
            w.pending_view() == seq![Seq::<Seq<char>>::empty()],
    {
        let mut pending: Vec<Vec<String>> = Vec::new();
        pending.push(Vec::new());
        let w = Walk { pending };
        assert(segments_view(w.pending@[0]@) =~= Seq::<Seq<char>>::empty());
        assert(w.pending_view() =~= seq![Seq::<Seq<char>>::empty()]);
        w
    }

    /// Whether every directory has been listed.
    pub fn is_done(&self) -> (r: bool)
        ensures
            r == (self.pending_view().len() == 0),
    {
        self.pending.len() == 0
    }

    /// Takes the directory to list next, the one added last; `None` once
    /// every directory has been listed.
    pub fn next_dir(&mut self) -> (r: Option<Vec<String>>)
        ensures
            old(self).pending_view().len() == 0 ==> r is None && final(self).pending_view()
                == old(self).pending_view(),
            old(self).pending_view().len() > 0 ==> (r matches Some(d) && segments_view(d@)
                == old(self).pending_view().last() && final(self).pending_view()
                == old(self).pending_view().drop_last()),
    {
        let r = self.pending.pop();
        if r.is_some() {
            assert(self.pending_view() =~= old(self).pending_view().drop_last());
        }
        r
    }

    /// Records the sub-directory `name` of the directory `dir` to be listed.
    pub fn enter(&mut self, dir: &Vec<String>, name: String)
        ensures
            final(self).pending_view() == old(self).pending_view().push(
                segments_view(dir@).push(name@),
            ),
    {
        let child = child_path(dir, name);
        self.pending.push(child);
        assert(self.pending_view() =~= old(self).pending_view().push(
            segments_view(dir@).push(name@),
        ));
    }
}

} // verus!

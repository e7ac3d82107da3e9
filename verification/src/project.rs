//! Workspace discovery and the resolver.
//!
//! Discovery works on a pure snapshot of the directory tree: the driver
//! lists each directory once, records whether a manifest file sits beside
//! it (and whether it parsed), and records which directories its workspace
//! glob patterns matched.  Everything after that point — choosing the
//! workspace root, deduplicating matches, rejecting self-referential
//! matches, building the tree, and resolving the task order — is verified
//! logic over that snapshot.
use vstd::prelude::*;

use crate::dependency_graph::topological;
use crate::dependency_graph::DependencyGraph;
use crate::dependency_graph::TopologicalError;
use crate::package_json::strings_view;
use crate::package_json::PackageJson;
use crate::package_json::PackageJsonView;

verus! {

broadcast use vstd::seq_lib::group_seq_lib_default, vstd::set_lib::group_set_lib_default, vstd::set::group_set_axioms, vstd::std_specs::vec::group_vec_axioms;

use vstd::set_lib::set_int_range;
use vstd::set_lib::lemma_int_range;
use vstd::set_lib::lemma_len_subset;

// ---------------------------------------------------------------------------
// The filesystem snapshot
// ---------------------------------------------------------------------------

/// What the driver observed about one directory: its canonical path, the
/// parse outcome of the manifest file beside it (if one exists), and the
/// directories its manifest's workspace glob patterns matched.
#[derive(Debug)]
pub struct DirEntry {
    pub path: String,
    pub manifest: Option<Result<PackageJson, String>>,
    pub workspace_matches: Vec<String>,
}

/// A snapshot of every directory the driver observed, keyed by canonical
/// path; paths are distinct.
#[derive(Debug)]
pub struct FsSnapshot {
    pub dirs: Vec<DirEntry>,
}

pub struct DirEntryView {
    pub path: Seq<char>,
    pub manifest: Option<Result<PackageJsonView, Seq<char>>>,
    pub workspace_matches: Seq<Seq<char>>,
}

pub struct FsView {
    pub dirs: Seq<DirEntryView>,
}

impl View for DirEntry {
    type V = DirEntryView;

    open spec fn view(&self) -> DirEntryView {
        DirEntryView {
            path: self.path@,
            manifest: match &self.manifest {
                None => None,
                Some(Ok(p)) => Some(Ok(p@)),
                Some(Err(e)) => Some(Err(e@)),
            },
            workspace_matches: strings_view(self.workspace_matches@),
        }
    }
}

impl View for FsSnapshot {
    type V = FsView;

    open spec fn view(&self) -> FsView {
        FsView { dirs: self.dirs@.map_values(|d: DirEntry| d@) }
    }
}

impl FsView {
    /// Canonical paths are distinct.
    pub open spec fn wf(self) -> bool {
        forall|i: int, j: int|
            0 <= i < self.dirs.len() && 0 <= j < self.dirs.len() && i != j ==> (
            #[trigger] self.dirs[i]).path != (#[trigger] self.dirs[j]).path
    }

    pub open spec fn has_dir(self, p: Seq<char>) -> bool {
        exists|i: int| 0 <= i < self.dirs.len() && (#[trigger] self.dirs[i]).path == p
    }

    pub open spec fn index_of_dir(self, p: Seq<char>) -> int {
        choose|i: int| 0 <= i < self.dirs.len() && (#[trigger] self.dirs[i]).path == p
    }

    pub open spec fn entry(self, p: Seq<char>) -> DirEntryView {
        self.dirs[self.index_of_dir(p)]
    }

    /// The directory exists in the snapshot and a manifest file sits
    /// beside it (parsed or not).
    pub open spec fn has_manifest(self, p: Seq<char>) -> bool {
        self.has_dir(p) && self.entry(p).manifest is Some
    }
}

// ---------------------------------------------------------------------------
// Discovery errors
// ---------------------------------------------------------------------------

/// Why discovery failed.  Discovery is all-or-nothing: any of these aborts
/// the whole tree load.
#[derive(Debug)]
pub enum DiscoveryError {
    /// No ancestor of the starting directory holds a manifest; carries the
    /// searched starting directory.
    NoManifestFound { searched: String },
    /// A manifest file exists but its contents did not parse; carries the
    /// directory of the offending file.
    ManifestParseError { path: String },
    /// The directory discovery was asked to load has no manifest at all.
    MissingManifest { path: String },
    /// A workspace glob pattern matched a directory already being loaded
    /// on the current descent path.
    SelfReferentialMatch { path: String },
}

pub enum DiscoveryErrorView {
    NoManifestFound { searched: Seq<char> },
    ManifestParseError { path: Seq<char> },
    MissingManifest { path: Seq<char> },
    SelfReferentialMatch { path: Seq<char> },
}

impl View for DiscoveryError {
    type V = DiscoveryErrorView;

    open spec fn view(&self) -> DiscoveryErrorView {
        match self {
            DiscoveryError::NoManifestFound { searched } => DiscoveryErrorView::NoManifestFound {
                searched: searched@,
            },
            DiscoveryError::ManifestParseError { path } => DiscoveryErrorView::ManifestParseError {
                path: path@,
            },
            DiscoveryError::MissingManifest { path } => DiscoveryErrorView::MissingManifest {
                path: path@,
            },
            DiscoveryError::SelfReferentialMatch {
                path,
            } => DiscoveryErrorView::SelfReferentialMatch { path: path@ },
        }
    }
}

// ---------------------------------------------------------------------------
// The workspace tree
// ---------------------------------------------------------------------------

/// A loaded package directory: its path, its manifest, and the packages its
/// workspace patterns matched, in pattern order with duplicates removed.
#[derive(Debug)]
pub struct Workspace {
    pub directory: String,
    pub package_json: PackageJson,
    pub workspaces: Vec<Workspace>,
}

pub struct WorkspaceView {
    pub directory: Seq<char>,
    pub package_json: PackageJsonView,
    pub workspaces: Seq<WorkspaceView>,
}

/// The mathematical value of a workspace tree.
pub open spec fn workspace_view(w: Workspace) -> WorkspaceView
    decreases w, 0int,
{
    WorkspaceView {
        directory: w.directory@,
        package_json: w.package_json@,
        workspaces: forest_view(w.workspaces@, 0),
    }
}

pub open spec fn forest_view(ws: Seq<Workspace>, i: int) -> Seq<WorkspaceView>
    decreases ws, ws.len() - i,
{
    if i < 0 || i >= ws.len() {
        Seq::empty()
    } else {
        seq![workspace_view(ws[i])] + forest_view(ws, i + 1)
    }
}

impl View for Workspace {
    type V = WorkspaceView;

    open spec fn view(&self) -> WorkspaceView {
        workspace_view(*self)
    }
}

/// A project: the workspace root directory and the tree below it.
#[derive(Debug)]
pub struct Project {
    pub directory: String,
    pub workspace: Workspace,
}

pub struct ProjectView {
    pub directory: Seq<char>,
    pub workspace: WorkspaceView,
}

impl View for Project {
    type V = ProjectView;

    open spec fn view(&self) -> ProjectView {
        ProjectView { directory: self.directory@, workspace: self.workspace@ }
    }
}

// ---------------------------------------------------------------------------
// Deduplication of glob matches
// ---------------------------------------------------------------------------

/// Keeps the first occurrence of each path, in order.
pub open spec fn dedup_spec(s: Seq<Seq<char>>) -> Seq<Seq<char>>
    decreases s.len(),
{
    if s.len() == 0 {
        Seq::empty()
    } else {
        let rest = dedup_spec(s.drop_last());
        if rest.contains(s.last()) {
            rest
        } else {
            rest.push(s.last())
        }
    }
}

/// Deduplication removes exactly the repeats: the result has no duplicates
/// and holds the same paths.
pub proof fn lemma_dedup_spec(s: Seq<Seq<char>>)
    ensures
        dedup_spec(s).no_duplicates(),
        forall|x: Seq<char>| dedup_spec(s).contains(x) <==> s.contains(x),
    decreases s.len(),
{
    if s.len() == 0 {
    } else {
        lemma_dedup_spec(s.drop_last());
        let rest = dedup_spec(s.drop_last());
        assert forall|x: Seq<char>| dedup_spec(s).contains(x) implies s.contains(x) by {
            if rest.contains(x) {
                assert(s.drop_last().contains(x));
                let j = choose|j: int| 0 <= j < s.drop_last().len() && s.drop_last()[j] == x;
                assert(s[j] == x);
            } else {
                assert(x == s.last());
                assert(s[s.len() - 1] == x);
            }
        }
        assert forall|x: Seq<char>| s.contains(x) implies dedup_spec(s).contains(x) by {
            let j = choose|j: int| 0 <= j < s.len() && s[j] == x;
            if j < s.len() - 1 {
                assert(s.drop_last()[j] == x);
                assert(s.drop_last().contains(x));
                assert(rest.contains(x));
                let t = choose|t: int| 0 <= t < rest.len() && rest[t] == x;
                if rest.contains(s.last()) {
                    assert(dedup_spec(s)[t] == x);
                } else {
                    assert(dedup_spec(s)[t] == x);
                }
            } else {
                assert(x == s.last());
                if rest.contains(x) {
                    let t = choose|t: int| 0 <= t < rest.len() && rest[t] == x;
                    assert(dedup_spec(s)[t] == x);
                } else {
                    assert(dedup_spec(s)[rest.len() as int] == x);
                }
            }
        }
        if !rest.contains(s.last()) {
            assert forall|i: int, j: int|
                0 <= i < dedup_spec(s).len() && 0 <= j < dedup_spec(s).len() && i != j implies
                dedup_spec(s)[i] != dedup_spec(s)[j] by {
                if i < rest.len() && j < rest.len() {
                    assert(dedup_spec(s)[i] == rest[i] && dedup_spec(s)[j] == rest[j]);
                } else if i == rest.len() {
                    assert(dedup_spec(s)[j] == rest[j]);
                    if rest[j] == s.last() {
                        assert(rest.contains(s.last()));
                    }
                } else {
                    assert(dedup_spec(s)[i] == rest[i]);
                    if rest[i] == s.last() {
                        assert(rest.contains(s.last()));
                    }
                }
            }
        }
    }
}

fn str_eq(a: &String, b: &String) -> (r: bool)
    ensures
        r == (a@ == b@),
{
    a.eq(b)
}

fn contains_string(v: &Vec<String>, x: &String) -> (r: bool)
    ensures
        r == strings_view(v@).contains(x@),
{
    let mut i: usize = 0;
    while i < v.len()
        invariant
            i <= v@.len(),
            forall|t: int| 0 <= t < i ==> (#[trigger] strings_view(v@)[t]) != x@,
        decreases v@.len() - i,
    {
        if str_eq(&v[i], x) {
            proof {
                assert(strings_view(v@)[i as int] == x@);
            }
            return true;
        }
        i += 1;
    }
    false
}

fn dedup_paths(v: &Vec<String>) -> (r: Vec<String>)
    ensures
        strings_view(r@) == dedup_spec(strings_view(v@)),
{
    let mut r: Vec<String> = Vec::new();
    let mut i: usize = 0;
    proof {
        assert(strings_view(r@) =~= dedup_spec(strings_view(v@).take(0)));
    }
    while i < v.len()
        invariant
            i <= v@.len(),
            strings_view(r@) == dedup_spec(strings_view(v@).take(i as int)),
        decreases v@.len() - i,
    {
        let ghost pre = strings_view(v@).take(i as int + 1);
        proof {
            assert(pre.drop_last() =~= strings_view(v@).take(i as int));
            assert(pre.last() == v@[i as int]@);
        }
        if !contains_string(&r, &v[i]) {
            let ghost before = r@;
            r.push(v[i].clone());
            proof {
                assert(strings_view(r@) =~= strings_view(before).push(v@[i as int]@));
            }
        }
        i += 1;
    }
    proof {
        assert(strings_view(v@).take(v@.len() as int) =~= strings_view(v@));
    }
    r
}

// ---------------------------------------------------------------------------
// Loading the tree
// ---------------------------------------------------------------------------

/// The descent path of a load: well-formed snapshot, no repeated
/// directory, and every directory on the path exists in the snapshot.
pub open spec fn load_trail_ok(fs: FsView, trail: Seq<Seq<char>>) -> bool {
    &&& fs.wf()
    &&& trail.no_duplicates()
    &&& forall|i: int| 0 <= i < trail.len() ==> fs.has_dir(#[trigger] trail[i])
}

pub(crate) proof fn lemma_trail_bound(fs: FsView, trail: Seq<Seq<char>>)
    requires
        load_trail_ok(fs, trail),
    ensures
        trail.len() <= fs.dirs.len(),
{
    let idxs = Seq::new(trail.len(), |i: int| fs.index_of_dir(trail[i]));
    assert forall|i: int| 0 <= i < idxs.len() implies 0 <= #[trigger] idxs[i] < fs.dirs.len()
        && fs.dirs[idxs[i]].path == trail[i] by {
        assert(fs.has_dir(trail[i]));
    }
    assert(idxs.no_duplicates()) by {
        assert forall|i: int, j: int|
            0 <= i < idxs.len() && 0 <= j < idxs.len() && i != j implies idxs[i] != idxs[j] by {
            assert(fs.dirs[idxs[i]].path == trail[i]);
            assert(fs.dirs[idxs[j]].path == trail[j]);
        }
    }
    idxs.unique_seq_to_set();
    assert(idxs.to_set().subset_of(set_int_range(0, fs.dirs.len() as int))) by {
        assert forall|a: int| idxs.to_set().contains(a) implies set_int_range(
            0,
            fs.dirs.len() as int,
        ).contains(a) by {
            let j = choose|j: int| 0 <= j < idxs.len() && idxs[j] == a;
        }
    }
    lemma_int_range(0, fs.dirs.len() as int);
    lemma_len_subset(idxs.to_set(), set_int_range(0, fs.dirs.len() as int));
}

/// Loads one directory: fails when it has no manifest or the manifest did
/// not parse; otherwise loads each deduplicated glob match that has a
/// manifest, rejecting matches that point back onto the descent path.
pub open spec fn load_spec(fs: FsView, dir: Seq<char>, trail: Seq<Seq<char>>) -> Result<
    WorkspaceView,
    DiscoveryErrorView,
>
    decreases fs.dirs.len() - trail.len(), 0int, 0int,
    when load_trail_ok(fs, trail) && !trail.contains(dir)
    via load_spec_decreases
{
    if !fs.has_dir(dir) {
        Err(DiscoveryErrorView::MissingManifest { path: dir })
    } else {
        match fs.entry(dir).manifest {
            None => Err(DiscoveryErrorView::MissingManifest { path: dir }),
            Some(Err(_)) => Err(DiscoveryErrorView::ManifestParseError { path: dir }),
            Some(Ok(m)) => {
                match load_children_spec(
                    fs,
                    dedup_spec(fs.entry(dir).workspace_matches),
                    trail.push(dir),
                ) {
                    Err(e) => Err(e),
                    Ok(children) => Ok(
                        WorkspaceView { directory: dir, package_json: m, workspaces: children },
                    ),
                }
            },
        }
    }
}

/// Extending a well-formed descent path with a fresh directory of the
/// snapshot keeps it well-formed.
pub(crate) proof fn lemma_trail_push(fs: FsView, trail: Seq<Seq<char>>, dir: Seq<char>)
    requires
        load_trail_ok(fs, trail),
        !trail.contains(dir),
        fs.has_dir(dir),
    ensures
        load_trail_ok(fs, trail.push(dir)),
        trail.push(dir).len() <= fs.dirs.len(),
{
    assert(trail.push(dir).no_duplicates()) by {
        assert forall|i: int, j: int|
            0 <= i < trail.push(dir).len() && 0 <= j < trail.push(dir).len() && i != j implies
            trail.push(dir)[i] != trail.push(dir)[j] by {
            if i < trail.len() && j < trail.len() {
                assert(trail.push(dir)[i] == trail[i] && trail.push(dir)[j] == trail[j]);
            } else if i == trail.len() {
                assert(trail.push(dir)[j] == trail[j]);
                if trail[j] == dir {
                    assert(trail.contains(dir));
                }
            } else {
                assert(trail.push(dir)[i] == trail[i]);
                if trail[i] == dir {
                    assert(trail.contains(dir));
                }
            }
        }
    }
    assert(forall|i: int|
        0 <= i < trail.push(dir).len() ==> fs.has_dir(#[trigger] trail.push(dir)[i]));
    lemma_trail_bound(fs, trail.push(dir));
}

#[via_fn]
proof fn load_spec_decreases(fs: FsView, dir: Seq<char>, trail: Seq<Seq<char>>) {
    if fs.has_dir(dir) {
        lemma_trail_push(fs, trail, dir);
    }
}

/// Loads each matched directory in order: a match on the descent path
/// fails fast, a match without a manifest is skipped silently, and any
/// nested failure aborts the whole load.
pub open spec fn load_children_spec(
    fs: FsView,
    matches: Seq<Seq<char>>,
    trail: Seq<Seq<char>>,
) -> Result<Seq<WorkspaceView>, DiscoveryErrorView>
    decreases fs.dirs.len() - trail.len(), 1int, matches.len(),
    when load_trail_ok(fs, trail)
    via load_children_spec_decreases
{
    if matches.len() == 0 {
        Ok(Seq::empty())
    } else {
        let c = matches[0];
        if trail.contains(c) {
            Err(DiscoveryErrorView::SelfReferentialMatch { path: c })
        } else if !fs.has_manifest(c) {
            load_children_spec(fs, matches.drop_first(), trail)
        } else {
            match load_spec(fs, c, trail) {
                Err(e) => Err(e),
                Ok(w) => match load_children_spec(fs, matches.drop_first(), trail) {
                    Err(e) => Err(e),
                    Ok(rest) => Ok(seq![w] + rest),
                },
            }
        }
    }
}

#[via_fn]
proof fn load_children_spec_decreases(fs: FsView, matches: Seq<Seq<char>>, trail: Seq<Seq<char>>) {
    lemma_trail_bound(fs, trail);
}

impl Workspace {
    /// Loads the workspace tree rooted at `directory` from the snapshot.
    /// The result is a function of the snapshot and the directory alone, so
    /// loading the same tree twice yields structurally identical trees.
    pub fn load(fs: &FsSnapshot, directory: &String) -> (r: Result<Workspace, DiscoveryError>)
        requires
            fs@.wf(),
        ensures
            match r {
                Ok(w) => load_spec(fs@, directory@, Seq::empty()) == Ok::<
                    WorkspaceView,
                    DiscoveryErrorView,
                >(w@),
                Err(e) => load_spec(fs@, directory@, Seq::empty()) == Err::<
                    WorkspaceView,
                    DiscoveryErrorView,
                >(e@),
            },
    {
        let trail: Vec<String> = Vec::new();
        proof {
            assert(strings_view(trail@) =~= Seq::<Seq<char>>::empty());
        }
        Workspace::load_rec(fs, directory, &trail)
    }

    fn load_rec(fs: &FsSnapshot, directory: &String, trail: &Vec<String>) -> (r: Result<
        Workspace,
        DiscoveryError,
    >)
        requires
            load_trail_ok(fs@, strings_view(trail@)),
            !strings_view(trail@).contains(directory@),
        ensures
            match r {
                Ok(w) => load_spec(fs@, directory@, strings_view(trail@)) == Ok::<
                    WorkspaceView,
                    DiscoveryErrorView,
                >(w@),
                Err(e) => load_spec(fs@, directory@, strings_view(trail@)) == Err::<
                    WorkspaceView,
                    DiscoveryErrorView,
                >(e@),
            },
        decreases fs@.dirs.len() - trail@.len(),
    {
        let ghost tr = strings_view(trail@);
        proof {
            lemma_trail_bound(fs@, tr);
        }
        let entry = match find_entry(fs, directory) {
            None => {
                return Err(DiscoveryError::MissingManifest { path: directory.clone() });
            },
            Some(e) => e,
        };
        let manifest = match &entry.manifest {
            None => {
                return Err(DiscoveryError::MissingManifest { path: directory.clone() });
            },
            Some(Err(_)) => {
                return Err(DiscoveryError::ManifestParseError { path: directory.clone() });
            },
            Some(Ok(m)) => m.duplicate(),
        };
        let ghost mview = manifest@;
        proof {
            assert(fs@.entry(directory@).manifest == Some(Ok::<PackageJsonView, Seq<char>>(mview)));
        }
        let matches = dedup_paths(&entry.workspace_matches);
        let mut trail2 = crate::package_json::clone_strings(trail);
        trail2.push(directory.clone());
        let ghost tr2 = strings_view(trail2@);
        proof {
            assert(tr2 =~= tr.push(directory@));
            lemma_trail_push(fs@, tr, directory@);
        }
        let mut children: Vec<Workspace> = Vec::new();
        let ghost ms = strings_view(matches@);
        let mut k: usize = 0;
        proof {
            assert(ms.skip(0) =~= ms);
            assert(forest_view(children@, 0) =~= Seq::<WorkspaceView>::empty());
            assert forall|rest: Seq<WorkspaceView>| true implies Seq::<WorkspaceView>::empty()
                + rest =~= rest by {}
        }
        while k < matches.len()
            invariant
                fs@.wf(),
                load_trail_ok(fs@, tr),
                load_trail_ok(fs@, tr2),
                tr == strings_view(trail@),
                !tr.contains(directory@),
                fs@.has_dir(directory@),
                fs@.entry(directory@).manifest == Some(Ok::<PackageJsonView, Seq<char>>(mview)),
                ms == dedup_spec(fs@.entry(directory@).workspace_matches),
                k <= matches@.len(),
                ms == strings_view(matches@),
                tr2 == strings_view(trail2@),
                tr2 == tr.push(directory@),
                tr2.len() <= fs@.dirs.len(),
                load_children_spec(fs@, ms, tr2) == (match load_children_spec(
                    fs@,
                    ms.skip(k as int),
                    tr2,
                ) {
                    Err(e) => Err::<Seq<WorkspaceView>, DiscoveryErrorView>(e),
                    Ok(rest) => Ok::<Seq<WorkspaceView>, DiscoveryErrorView>(
                        forest_view(children@, 0) + rest,
                    ),
                }),
            decreases matches@.len() - k,
        {
            let c = &matches[k];
            proof {
                assert(ms.skip(k as int)[0] == c@);
                assert(ms.skip(k as int).drop_first() =~= ms.skip(k as int + 1));
            }
            if contains_string(&trail2, c) {
                proof {
                    assert(load_children_spec(fs@, ms.skip(k as int), tr2) == Err::<
                        Seq<WorkspaceView>,
                        DiscoveryErrorView,
                    >(DiscoveryErrorView::SelfReferentialMatch { path: c@ }));
                    assert(load_spec(fs@, directory@, tr) == Err::<
                        WorkspaceView,
                        DiscoveryErrorView,
                    >(DiscoveryErrorView::SelfReferentialMatch { path: c@ }));
                }
                return Err(DiscoveryError::SelfReferentialMatch { path: c.clone() });
            }
            let has = match find_entry(fs, c) {
                None => false,
                Some(e) => e.manifest.is_some(),
            };
            if has == false {
                proof {
                    assert(!fs@.has_manifest(c@));
                }
                k += 1;
                continue ;
            }
            proof {
                assert(fs@.has_manifest(c@));
            }
            match Workspace::load_rec(fs, c, &trail2) {
                Err(e) => {
                    proof {
                        assert(load_children_spec(fs@, ms.skip(k as int), tr2) == Err::<
                            Seq<WorkspaceView>,
                            DiscoveryErrorView,
                        >(e@));
                        assert(load_spec(fs@, directory@, tr) == Err::<
                            WorkspaceView,
                            DiscoveryErrorView,
                        >(e@));
                    }
                    return Err(e);
                },
                Ok(w) => {
                    let ghost before = children@;
                    children.push(w);
                    proof {
                        lemma_forest_view_push(before, w);
                        assert(forest_view(children@, 0) =~= forest_view(before, 0).push(w@));
                        assert forall|rest: Seq<WorkspaceView>| true implies (forest_view(
                            before,
                            0,
                        ) + (seq![w@] + rest)) =~= (forest_view(children@, 0) + rest) by {}
                    }
                    k += 1;
                },
            }
        }
        proof {
            assert(ms.skip(ms.len() as int) =~= Seq::<Seq<char>>::empty());
            assert(forest_view(children@, 0) + Seq::<WorkspaceView>::empty() =~= forest_view(
                children@,
                0,
            ));
            assert(load_children_spec(fs@, ms, tr2) == Ok::<Seq<WorkspaceView>, DiscoveryErrorView>(
                forest_view(children@, 0),
            ));
        }
        let result = Workspace {
            directory: directory.clone(),
            package_json: manifest,
            workspaces: children,
        };
        proof {
            assert(result@.workspaces == forest_view(result.workspaces@, 0));
            assert(result@ == WorkspaceView {
                directory: directory@,
                package_json: mview,
                workspaces: forest_view(result.workspaces@, 0),
            });
            assert(load_spec(fs@, directory@, tr) == Ok::<WorkspaceView, DiscoveryErrorView>(
                result@,
            ));
        }
        Ok(result)
    }
}

/// Appending a tree to a forest appends its view.
pub(crate) proof fn lemma_forest_view_push(ws: Seq<Workspace>, w: Workspace)
    ensures
        forest_view(ws.push(w), 0) == forest_view(ws, 0).push(workspace_view(w)),
{
    lemma_forest_view_push_from(ws, w, 0);
}

pub(crate) proof fn lemma_forest_view_push_from(ws: Seq<Workspace>, w: Workspace, i: int)
    requires
        0 <= i <= ws.len(),
    ensures
        forest_view(ws.push(w), i) == forest_view(ws, i).push(workspace_view(w)),
    decreases ws.len() - i,
{
    if i == ws.len() {
        assert(ws.push(w)[i] == w);
        assert(forest_view(ws.push(w), i + 1) =~= Seq::<WorkspaceView>::empty());
        assert(forest_view(ws, i) =~= Seq::<WorkspaceView>::empty());
        assert(forest_view(ws.push(w), i) == seq![workspace_view(ws.push(w)[i])] + forest_view(
            ws.push(w),
            i + 1,
        ));
        assert(forest_view(ws.push(w), i) =~= forest_view(ws, i).push(workspace_view(w)));
    } else {
        lemma_forest_view_push_from(ws, w, i + 1);
        assert(ws.push(w)[i] == ws[i]);
        assert(forest_view(ws.push(w), i) == seq![workspace_view(ws.push(w)[i])] + forest_view(
            ws.push(w),
            i + 1,
        ));
        assert(forest_view(ws, i) == seq![workspace_view(ws[i])] + forest_view(ws, i + 1));
        assert(forest_view(ws.push(w), i) =~= forest_view(ws, i).push(workspace_view(w)));
    }
}

fn find_entry<'a>(fs: &'a FsSnapshot, p: &String) -> (r: Option<&'a DirEntry>)
    requires
        fs@.wf(),
    ensures
        match r {
            None => !fs@.has_dir(p@),
            Some(e) => fs@.has_dir(p@) && e@ == fs@.entry(p@),
        },
{
    let mut i: usize = 0;
    while i < fs.dirs.len()
        invariant
            i <= fs@.dirs.len(),
            fs@.wf(),
            forall|t: int| 0 <= t < i ==> (#[trigger] fs@.dirs[t]).path != p@,
        decreases fs@.dirs.len() - i,
    {
        if str_eq(&fs.dirs[i].path, p) {
            proof {
                assert(fs@.dirs[i as int].path == p@);
                assert(fs@.has_dir(p@));
                let c = fs@.index_of_dir(p@);
                assert(fs@.dirs[c].path == p@);
                assert(c == i as int);
            }
            return Some(&fs.dirs[i]);
        }
        i += 1;
    }
    None
}

// ---------------------------------------------------------------------------
// Finding the workspace root
// ---------------------------------------------------------------------------

/// The outermost ancestor (scanning the innermost-first list from its far
/// end) whose directory holds a manifest file.
pub open spec fn outermost_root(fs: FsView, ancestors: Seq<Seq<char>>) -> Option<Seq<char>>
    decreases ancestors.len(),
{
    if ancestors.len() == 0 {
        None
    } else if fs.has_manifest(ancestors.last()) {
        Some(ancestors.last())
    } else {
        outermost_root(fs, ancestors.drop_last())
    }
}

/// Root selection composed with the tree load.
pub open spec fn find_spec(fs: FsView, ancestors: Seq<Seq<char>>) -> Result<
    ProjectView,
    DiscoveryErrorView,
> {
    match outermost_root(fs, ancestors) {
        None => Err(
            DiscoveryErrorView::NoManifestFound {
                searched: if ancestors.len() > 0 {
                    ancestors[0]
                } else {
                    Seq::empty()
                },
            },
        ),
        Some(root) => match load_spec(fs, root, Seq::empty()) {
            Err(e) => Err(e),
            Ok(w) => Ok(ProjectView { directory: root, workspace: w }),
        },
    }
}

impl Project {
    /// Walks every ancestor of the starting directory (innermost first, as
    /// listed), selects the outermost one holding a manifest file as the
    /// workspace root, and loads the whole tree from there.  Fails with
    /// `NoManifestFound` when no ancestor has a manifest.
    pub fn find(fs: &FsSnapshot, ancestors: &Vec<String>) -> (r: Result<Project, DiscoveryError>)
        requires
            fs@.wf(),
        ensures
            match r {
                Ok(p) => find_spec(fs@, strings_view(ancestors@)) == Ok::<
                    ProjectView,
                    DiscoveryErrorView,
                >(p@),
                Err(e) => find_spec(fs@, strings_view(ancestors@)) == Err::<
                    ProjectView,
                    DiscoveryErrorView,
                >(e@),
            },
    {
        let ghost sv = strings_view(ancestors@);
        let mut j: usize = ancestors.len();
        proof {
            assert(sv.take(sv.len() as int) =~= sv);
        }
        while j > 0
            invariant
                j <= ancestors@.len(),
                sv == strings_view(ancestors@),
                fs@.wf(),
                outermost_root(fs@, sv.take(j as int)) == outermost_root(fs@, sv),
            decreases j,
        {
            let idx = j - 1;
            let ghost prefix = sv.take(j as int);
            proof {
                assert(prefix.len() == j);
                assert(prefix.last() == sv[idx as int]);
                assert(prefix.drop_last() =~= sv.take(idx as int));
            }
            let has = match find_entry(fs, &ancestors[idx]) {
                None => false,
                Some(e) => e.manifest.is_some(),
            };
            if has {
                proof {
                    assert(fs@.has_manifest(sv[idx as int]));
                    assert(outermost_root(fs@, sv) == Some(sv[idx as int]));
                }
                let root = &ancestors[idx];
                return match Workspace::load(fs, root) {
                    Ok(w) => Ok(Project { directory: root.clone(), workspace: w }),
                    Err(e) => Err(e),
                };
            }
            proof {
                assert(!fs@.has_manifest(sv[idx as int]));
            }
            j = idx;
        }
        proof {
            assert(sv.take(0) =~= Seq::<Seq<char>>::empty());
            assert(outermost_root(fs@, sv) is None);
        }
        if ancestors.len() > 0 {
            proof {
                assert(sv[0] == ancestors@[0]@);
            }
            Err(DiscoveryError::NoManifestFound { searched: ancestors[0].clone() })
        } else {
            let empty = String::new();
            Err(DiscoveryError::NoManifestFound { searched: empty })
        }
    }
}

// ---------------------------------------------------------------------------
// Graph builder / resolver
// ---------------------------------------------------------------------------

/// The identity of a package inside the workspace.
#[derive(Debug)]
pub struct PackageId {
    pub name: String,
    pub directory: String,
}

pub struct PackageIdView {
    pub name: Seq<char>,
    pub directory: Seq<char>,
}

impl View for PackageId {
    type V = PackageIdView;

    open spec fn view(&self) -> PackageIdView {
        PackageIdView { name: self.name@, directory: self.directory@ }
    }
}

pub open spec fn name_of(m: PackageJsonView) -> Seq<char> {
    match m.name {
        Some(n) => n,
        None => Seq::empty(),
    }
}

/// The packages of a workspace tree in pre-order, keeping only the nodes
/// whose manifest declares a name: only they participate in the graph.
pub open spec fn package_nodes(w: WorkspaceView) -> Seq<WorkspaceView>
    decreases w, 0int,
{
    let rest = package_nodes_forest(w.workspaces, 0);
    if w.package_json.name is Some {
        seq![w] + rest
    } else {
        rest
    }
}

pub open spec fn package_nodes_forest(ws: Seq<WorkspaceView>, i: int) -> Seq<WorkspaceView>
    decreases ws, ws.len() - i,
{
    if i < 0 || i >= ws.len() {
        Seq::empty()
    } else {
        package_nodes(ws[i]) + package_nodes_forest(ws, i + 1)
    }
}

pub open spec fn package_id_of(w: WorkspaceView) -> PackageIdView {
    PackageIdView { name: name_of(w.package_json), directory: w.directory }
}

/// The first package (in pre-order) with the given name, scanning from
/// position `i`.
pub open spec fn lookup_name(pkgs: Seq<WorkspaceView>, x: Seq<char>, i: int) -> Option<int>
    decreases pkgs.len() - i,
{
    if i < 0 || i >= pkgs.len() {
        None
    } else if name_of(pkgs[i].package_json) == x {
        Some(i)
    } else {
        lookup_name(pkgs, x, i + 1)
    }
}

/// The handles of the workspace-local packages among the given dependency
/// names, in name order; names with no workspace-local package are ignored.
pub open spec fn resolve_names(pkgs: Seq<WorkspaceView>, names: Seq<Seq<char>>) -> Seq<int>
    decreases names.len(),
{
    if names.len() == 0 {
        Seq::empty()
    } else {
        match lookup_name(pkgs, names[0], 0) {
            None => resolve_names(pkgs, names.drop_first()),
            Some(h) => seq![h] + resolve_names(pkgs, names.drop_first()),
        }
    }
}

/// The workspace-local dependency handles of package `j`, in declaration
/// order.
pub open spec fn package_deps(w: WorkspaceView, j: int) -> Seq<int> {
    resolve_names(package_nodes(w), package_nodes(w)[j].package_json.all_dep_names())
}

/// Package `a` declares a dependency that resolves to package `t`.
pub open spec fn pkg_dep_on(w: WorkspaceView, a: int, t: int) -> bool {
    0 <= a < package_nodes(w).len() && package_deps(w, a).contains(t)
}

/// A dependency cycle among the packages of the workspace.
pub open spec fn pkg_cycle(w: WorkspaceView, c: Seq<int>) -> bool {
    &&& c.len() > 0
    &&& forall|i: int| 0 <= i < c.len() - 1 ==> pkg_dep_on(w, #[trigger] c[i], c[i + 1])
    &&& pkg_dep_on(w, c[c.len() - 1], c[0])
}

pub(crate) proof fn lemma_lookup_range(pkgs: Seq<WorkspaceView>, x: Seq<char>, i: int)
    ensures
        match lookup_name(pkgs, x, i) {
            None => true,
            Some(h) => i <= h < pkgs.len(),
        },
    decreases pkgs.len() - i,
{
    if i < 0 || i >= pkgs.len() {
    } else if name_of(pkgs[i].package_json) == x {
    } else {
        lemma_lookup_range(pkgs, x, i + 1);
    }
}

pub(crate) proof fn lemma_resolve_range(pkgs: Seq<WorkspaceView>, names: Seq<Seq<char>>)
    ensures
        forall|t: int|
            0 <= t < resolve_names(pkgs, names).len() ==> 0 <= (#[trigger] resolve_names(
                pkgs,
                names,
            )[t]) < pkgs.len(),
    decreases names.len(),
{
    if names.len() == 0 {
    } else {
        lemma_resolve_range(pkgs, names.drop_first());
        lemma_lookup_range(pkgs, names[0], 0);
        let rest = resolve_names(pkgs, names.drop_first());
        match lookup_name(pkgs, names[0], 0) {
            None => {},
            Some(h) => {
                assert forall|t: int| 0 <= t < resolve_names(pkgs, names).len() implies 0 <= (
                #[trigger] resolve_names(pkgs, names)[t]) < pkgs.len() by {
                    if t == 0 {
                        assert(resolve_names(pkgs, names)[0] == h);
                    } else {
                        assert(resolve_names(pkgs, names)[t] == rest[t - 1]);
                    }
                }
            },
        }
    }
}

pub(crate) proof fn lemma_resolve_concat(
    pkgs: Seq<WorkspaceView>,
    a: Seq<Seq<char>>,
    b: Seq<Seq<char>>,
)
    ensures
        resolve_names(pkgs, a + b) == resolve_names(pkgs, a) + resolve_names(pkgs, b),
    decreases a.len(),
{
    if a.len() == 0 {
        assert(a + b =~= b);
        assert(Seq::<int>::empty() + resolve_names(pkgs, b) =~= resolve_names(pkgs, b));
    } else {
        lemma_resolve_concat(pkgs, a.drop_first(), b);
        assert((a + b).drop_first() =~= a.drop_first() + b);
        assert((a + b)[0] == a[0]);
        match lookup_name(pkgs, a[0], 0) {
            None => {},
            Some(h) => {
                assert(seq![h] + (resolve_names(pkgs, a.drop_first()) + resolve_names(pkgs, b))
                    =~= (seq![h] + resolve_names(pkgs, a.drop_first())) + resolve_names(pkgs, b));
            },
        }
    }
}

/// Views of a forest, indexed.
pub(crate) proof fn lemma_forest_view_props(ws: Seq<Workspace>, i: int)
    requires
        0 <= i <= ws.len(),
    ensures
        forest_view(ws, i).len() == ws.len() - i,
        forall|t: int|
            0 <= t < ws.len() - i ==> (#[trigger] forest_view(ws, i)[t]) == workspace_view(
                ws[i + t],
            ),
    decreases ws.len() - i,
{
    if i == ws.len() {
    } else {
        lemma_forest_view_props(ws, i + 1);
        assert forall|t: int| 0 <= t < ws.len() - i implies (#[trigger] forest_view(ws, i)[t])
            == workspace_view(ws[i + t]) by {
            if t > 0 {
                assert(forest_view(ws, i)[t] == forest_view(ws, i + 1)[t - 1]);
            }
        }
    }
}

pub open spec fn pkgids_view(s: Seq<PackageId>) -> Seq<PackageIdView> {
    s.map_values(|p: PackageId| p@)
}

pub open spec fn ids_of(ns: Seq<WorkspaceView>) -> Seq<PackageIdView> {
    ns.map_values(|x: WorkspaceView| package_id_of(x))
}

pub open spec fn depnames_of(ns: Seq<WorkspaceView>) -> Seq<Seq<Seq<char>>> {
    ns.map_values(|x: WorkspaceView| x.package_json.all_dep_names())
}

pub open spec fn depvecs_view(d: Seq<Vec<String>>) -> Seq<Seq<Seq<char>>> {
    d.map_values(|v: Vec<String>| strings_view(v@))
}

fn collect_entries(w: &Workspace, ids: &mut Vec<PackageId>, deps: &mut Vec<Vec<String>>)
    ensures
        pkgids_view(final(ids)@) == pkgids_view(old(ids)@) + ids_of(package_nodes(w@)),
        depvecs_view(final(deps)@) == depvecs_view(old(deps)@) + depnames_of(package_nodes(w@)),
        final(ids)@.len() == old(ids)@.len() + package_nodes(w@).len(),
        final(deps)@.len() == old(deps)@.len() + package_nodes(w@).len(),
    decreases *w,
{
    let ghost ids0 = ids@;
    let ghost deps0 = deps@;
    let ghost pn = package_nodes(w@);
    match &w.package_json.name {
        Some(n) => {
            ids.push(PackageId { name: n.clone(), directory: w.directory.clone() });
            deps.push(w.package_json.dependency_names());
            proof {
                assert(package_id_of(w@) == PackageIdView { name: n@, directory: w.directory@ });
                assert(pkgids_view(ids@) =~= pkgids_view(ids0).push(package_id_of(w@)));
                assert(depvecs_view(deps@) =~= depvecs_view(deps0).push(
                    w@.package_json.all_dep_names(),
                ));
            }
        },
        None => {},
    }
    let ghost ids1 = ids@;
    let ghost deps1 = deps@;
    let ghost wsv = w@.workspaces;
    proof {
        lemma_forest_view_props(w.workspaces@, 0);
        assert(wsv == forest_view(w.workspaces@, 0));
        assert(wsv.len() == w.workspaces@.len());
    }
    let mut i: usize = 0;
    while i < w.workspaces.len()
        invariant
            i <= w.workspaces@.len(),
            wsv == w@.workspaces,
            wsv.len() == w.workspaces@.len(),
            forall|t: int|
                0 <= t < wsv.len() ==> (#[trigger] wsv[t]) == workspace_view(w.workspaces@[t]),
            pkgids_view(ids@) + ids_of(package_nodes_forest(wsv, i as int)) == pkgids_view(ids1)
                + ids_of(package_nodes_forest(wsv, 0)),
            depvecs_view(deps@) + depnames_of(package_nodes_forest(wsv, i as int)) == depvecs_view(
                deps1,
            ) + depnames_of(package_nodes_forest(wsv, 0)),
            ids@.len() + package_nodes_forest(wsv, i as int).len() == ids1.len()
                + package_nodes_forest(wsv, 0).len(),
            deps@.len() + package_nodes_forest(wsv, i as int).len() == deps1.len()
                + package_nodes_forest(wsv, 0).len(),
        decreases w.workspaces@.len() - i,
    {
        let ghost ids_pre = ids@;
        let ghost deps_pre = deps@;
        collect_entries(&w.workspaces[i], ids, deps);
        proof {
            assert(w.workspaces@[i as int]@ == wsv[i as int]);
            let a = package_nodes(wsv[i as int]);
            let b = package_nodes_forest(wsv, i as int + 1);
            assert(package_nodes_forest(wsv, i as int) == a + b);
            assert(ids_of(a + b) =~= ids_of(a) + ids_of(b));
            assert(depnames_of(a + b) =~= depnames_of(a) + depnames_of(b));
            assert(pkgids_view(ids@) =~= pkgids_view(ids_pre) + ids_of(a));
            assert(pkgids_view(ids@) + ids_of(b) =~= pkgids_view(ids_pre) + ids_of(
                package_nodes_forest(wsv, i as int),
            ));
            assert(depvecs_view(deps@) =~= depvecs_view(deps_pre) + depnames_of(a));
            assert(depvecs_view(deps@) + depnames_of(b) =~= depvecs_view(deps_pre) + depnames_of(
                package_nodes_forest(wsv, i as int),
            ));
        }
        i += 1;
    }
    proof {
        assert(package_nodes_forest(wsv, wsv.len() as int) =~= Seq::<WorkspaceView>::empty());
        assert(pkgids_view(ids@) + ids_of(Seq::<WorkspaceView>::empty()) =~= pkgids_view(ids@));
        assert(depvecs_view(deps@) + depnames_of(Seq::<WorkspaceView>::empty()) =~= depvecs_view(
            deps@,
        ));
        if w@.package_json.name is Some {
            assert(pn =~= seq![w@] + package_nodes_forest(wsv, 0));
            assert(ids_of(pn) =~= seq![package_id_of(w@)] + ids_of(package_nodes_forest(wsv, 0)));
            assert(depnames_of(pn) =~= seq![w@.package_json.all_dep_names()] + depnames_of(
                package_nodes_forest(wsv, 0),
            ));
            assert(pkgids_view(ids@) =~= pkgids_view(ids0) + ids_of(pn));
            assert(depvecs_view(deps@) =~= depvecs_view(deps0) + depnames_of(pn));
        } else {
            assert(pn =~= package_nodes_forest(wsv, 0));
            assert(pkgids_view(ids@) =~= pkgids_view(ids0) + ids_of(pn));
            assert(depvecs_view(deps@) =~= depvecs_view(deps0) + depnames_of(pn));
        }
    }
}

fn lookup_index(index: &Vec<(String, usize)>, x: &String, Ghost(pkgs): Ghost<Seq<WorkspaceView>>) -> (r:
    Option<usize>)
    requires
        index@.len() == pkgs.len(),
        forall|k: int|
            0 <= k < index@.len() ==> (#[trigger] index@[k]).0@ == name_of(
                pkgs[k].package_json,
            ) && index@[k].1 == k,
    ensures
        match r {
            None => lookup_name(pkgs, x@, 0) is None,
            Some(h) => lookup_name(pkgs, x@, 0) == Some(h as int),
        },
{
    let mut k: usize = 0;
    while k < index.len()
        invariant
            k <= index@.len(),
            index@.len() == pkgs.len(),
            forall|t: int|
                0 <= t < index@.len() ==> (#[trigger] index@[t]).0@ == name_of(
                    pkgs[t].package_json,
                ) && index@[t].1 == t,
            lookup_name(pkgs, x@, 0) == lookup_name(pkgs, x@, k as int),
        decreases index@.len() - k,
    {
        if str_eq(&index[k].0, x) {
            proof {
                assert(name_of(pkgs[k as int].package_json) == x@);
            }
            return Some(index[k].1);
        }
        k += 1;
    }
    None
}

fn clone_package_id(p: &PackageId) -> (r: PackageId)
    ensures
        r@ == p@,
{
    PackageId { name: p.name.clone(), directory: p.directory.clone() }
}

/// Lowers the workspace tree into a dependency graph: one node per named
/// package in pre-order, a name-to-handle index, and an edge from each
/// package to every workspace-local package its manifest names.
pub fn build_graph(root: &Workspace) -> (r: (DependencyGraph<PackageId>, Vec<(String, usize)>))
    ensures
        ({
            let (g, index) = r;
            let pkgs = package_nodes(root@);
            &&& g.wf()
            &&& g.node_count() == pkgs.len()
            &&& forall|k: int| 0 <= k < pkgs.len() ==> (#[trigger] g.payloads()[k])@ == package_id_of(pkgs[k])
            &&& index@.len() == pkgs.len()
            &&& forall|k: int|
                0 <= k < pkgs.len() ==> (#[trigger] index@[k]).0@ == name_of(pkgs[k].package_json)
                    && index@[k].1 == k
            &&& forall|j: usize|
                j < pkgs.len() ==> (#[trigger] g.deps_of(j)).map_values(|x: usize| x as int)
                    == package_deps(root@, j as int).reverse()
        }),
{
    let ghost pkgs = package_nodes(root@);
    let mut ids: Vec<PackageId> = Vec::new();
    let mut deps: Vec<Vec<String>> = Vec::new();
    proof {
        assert(pkgids_view(ids@) =~= Seq::<PackageIdView>::empty());
        assert(depvecs_view(deps@) =~= Seq::<Seq<Seq<char>>>::empty());
    }
    collect_entries(root, &mut ids, &mut deps);
    proof {
        assert(Seq::<PackageIdView>::empty() + ids_of(pkgs) =~= ids_of(pkgs));
        assert(Seq::<Seq<Seq<char>>>::empty() + depnames_of(pkgs) =~= depnames_of(pkgs));
        assert(pkgids_view(ids@) == ids_of(pkgs));
        assert(depvecs_view(deps@) == depnames_of(pkgs));
    }
    let mut g: DependencyGraph<PackageId> = DependencyGraph::new();
    let mut index: Vec<(String, usize)> = Vec::new();
    let mut k: usize = 0;
    while k < ids.len()
        invariant
            pkgs == package_nodes(root@),
            k <= ids@.len(),
            ids@.len() == pkgs.len(),
            pkgids_view(ids@) == ids_of(pkgs),
            g.wf(),
            g.node_count() == k,
            g.edge_count() == 0,
            forall|t: int| 0 <= t < k ==> (#[trigger] g.payloads()[t])@ == package_id_of(pkgs[t]),
            forall|u: usize| u < k ==> (#[trigger] g.deps_of(u)) == Seq::<usize>::empty(),
            index@.len() == k,
            forall|t: int|
                0 <= t < k ==> (#[trigger] index@[t]).0@ == name_of(pkgs[t].package_json)
                    && index@[t].1 == t,
        decreases ids@.len() - k,
    {
        let id = clone_package_id(&ids[k]);
        let ghost idval = id;
        let ghost idv = id@;
        let name = ids[k].name.clone();
        proof {
            assert(pkgids_view(ids@)[k as int] == ids@[k as int]@);
            assert(idv == package_id_of(pkgs[k as int]));
        }
        proof {
            g.lemma_payloads_len();
        }
        let ghost old_payloads = g.payloads();
        let h = g.add_node(id);
        index.push((name, h));
        proof {
            g.lemma_payloads_len();
            assert(g.payloads() == old_payloads.push(idval));
            assert(g.payloads()[k as int] == idval);
            assert(g.payloads()[k as int]@ == idv);
        }
        k += 1;
    }
    let ghost g_nodes_done = g;
    let mut j: usize = 0;
    while j < deps.len()
        invariant
            pkgs == package_nodes(root@),
            j <= deps@.len(),
            deps@.len() == pkgs.len(),
            depvecs_view(deps@) == depnames_of(pkgs),
            g.wf(),
            g.node_count() == pkgs.len(),
            g.payloads() == g_nodes_done.payloads(),
            forall|t: int| 0 <= t < pkgs.len() ==> (#[trigger] g.payloads()[t])@ == package_id_of(pkgs[t]),
            index@.len() == pkgs.len(),
            forall|t: int|
                0 <= t < pkgs.len() ==> (#[trigger] index@[t]).0@ == name_of(pkgs[t].package_json)
                    && index@[t].1 == t,
            forall|u: usize|
                j <= u < pkgs.len() ==> (#[trigger] g.deps_of(u)) == Seq::<usize>::empty(),
            forall|u: usize|
                u < j ==> (#[trigger] g.deps_of(u)).map_values(|x: usize| x as int) == package_deps(
                    root@,
                    u as int,
                ).reverse(),
        decreases deps@.len() - j,
    {
        let ghost names = pkgs[j as int].package_json.all_dep_names();
        proof {
            assert(depvecs_view(deps@)[j as int] == strings_view(deps@[j as int]@));
            assert(strings_view(deps@[j as int]@) == names);
        }
        let mut t: usize = 0;
        let row_len = deps[j].len();
        proof {
            assert(names.take(0) =~= Seq::<Seq<char>>::empty());
            assert(g.deps_of(j).map_values(|x: usize| x as int) =~= resolve_names(
                pkgs,
                names.take(0),
            ).reverse());
        }
        while t < row_len
            invariant
                pkgs == package_nodes(root@),
                t <= row_len,
                row_len == deps@[j as int]@.len(),
                j < deps@.len(),
                deps@.len() == pkgs.len(),
                depvecs_view(deps@) == depnames_of(pkgs),
                names == pkgs[j as int].package_json.all_dep_names(),
                strings_view(deps@[j as int]@) == names,
                g.wf(),
                g.node_count() == pkgs.len(),
                g.payloads() == g_nodes_done.payloads(),
                index@.len() == pkgs.len(),
                forall|q: int|
                    0 <= q < pkgs.len() ==> (#[trigger] index@[q]).0@ == name_of(
                        pkgs[q].package_json,
                    ) && index@[q].1 == q,
                forall|u: usize|
                    j < u < pkgs.len() ==> (#[trigger] g.deps_of(u)) == Seq::<usize>::empty(),
                forall|u: usize|
                    u < j ==> (#[trigger] g.deps_of(u)).map_values(|x: usize| x as int)
                        == package_deps(root@, u as int).reverse(),
                g.deps_of(j).map_values(|x: usize| x as int) == resolve_names(
                    pkgs,
                    names.take(t as int),
                ).reverse(),
            decreases row_len - t,
        {
            let name = &deps[j][t];
            proof {
                assert(names.take(t as int + 1) =~= names.take(t as int).push(names[t as int]));
                assert(names[t as int] == name@);
                lemma_resolve_concat(pkgs, names.take(t as int), seq![names[t as int]]);
                assert(names.take(t as int) + seq![names[t as int]] =~= names.take(t as int + 1));
            }
            match lookup_index(&index, name, Ghost(pkgs)) {
                None => {
                    proof {
                        assert(seq![names[t as int]].drop_first() =~= Seq::<Seq<char>>::empty());
                        assert(resolve_names(pkgs, Seq::<Seq<char>>::empty()) == Seq::<int>::empty());
                        assert(seq![names[t as int]][0] == names[t as int]);
                        assert(resolve_names(pkgs, seq![names[t as int]]) == Seq::<int>::empty());
                        assert(resolve_names(pkgs, names.take(t as int)) + Seq::<int>::empty() =~=
                            resolve_names(pkgs, names.take(t as int)));
                        assert(resolve_names(pkgs, names.take(t as int + 1)) == resolve_names(
                            pkgs,
                            names.take(t as int),
                        ));
                    }
                },
                Some(h) => {
                    proof {
                        lemma_lookup_range(pkgs, names[t as int], 0);
                        assert(seq![names[t as int]].drop_first() =~= Seq::<Seq<char>>::empty());
                        assert(resolve_names(pkgs, Seq::<Seq<char>>::empty()) == Seq::<int>::empty());
                        assert(seq![names[t as int]][0] == names[t as int]);
                        assert(seq![h as int] + Seq::<int>::empty() =~= seq![h as int]);
                        assert(resolve_names(pkgs, seq![names[t as int]]) == seq![h as int]);
                        assert(resolve_names(pkgs, names.take(t as int + 1)) == resolve_names(
                            pkgs,
                            names.take(t as int),
                        ) + seq![h as int]);
                    }
                    let ghost before = g.deps_of(j);
                    let res = g.add_dependency(j, h);
                    proof {
                        assert(res is Ok);
                        assert(g.deps_of(j) == seq![h] + before);
                        assert(g.deps_of(j).map_values(|x: usize| x as int) =~= seq![h as int]
                            + before.map_values(|x: usize| x as int));
                        assert((resolve_names(pkgs, names.take(t as int)) + seq![h as int]).reverse()
                            =~= seq![h as int] + resolve_names(
                            pkgs,
                            names.take(t as int),
                        ).reverse());
                    }
                },
            }
            t += 1;
        }
        proof {
            assert(names.take(names.len() as int) =~= names);
            assert(g.deps_of(j).map_values(|x: usize| x as int) == package_deps(
                root@,
                j as int,
            ).reverse());
        }
        j += 1;
    }
    proof {
        assert forall|j2: usize| j2 < pkgs.len() implies (#[trigger] g.deps_of(j2)).map_values(
            |x: usize| x as int,
        ) == package_deps(root@, j2 as int).reverse() by {}
    }
    (g, index)
}

/// Resolves the task execution order: lowers the tree into the graph and
/// orders it topologically, mapping handles back to package identities.
/// On success every named package appears exactly once, each after all of
/// its workspace-local dependencies; a dependency cycle among the packages
/// fails with `ContainsCycle` and yields no partial order.
pub fn resolve_order(root: &Workspace) -> (r: Result<Vec<PackageId>, TopologicalError>)
    ensures
        match r {
            Ok(ids) => exists|ord: Seq<usize>|
                {
                    &&& ord.len() == package_nodes(root@).len()
                    &&& ord.no_duplicates()
                    &&& forall|k: int|
                        0 <= k < ord.len() ==> (#[trigger] ord[k]) < package_nodes(root@).len()
                    &&& ids@.len() == ord.len()
                    &&& forall|k: int|
                        0 <= k < ord.len() ==> (#[trigger] ids@[k])@ == package_id_of(
                            package_nodes(root@)[ord[k] as int],
                        )
                    &&& forall|a: int, t: int|
                        0 <= a < ord.len() && #[trigger] pkg_dep_on(root@, ord[a] as int, t)
                            ==> exists|b: int| 0 <= b < a && (#[trigger] ord[b]) as int == t
                },
            Err(e) => {
                &&& e == TopologicalError::ContainsCycle
                &&& exists|c: Seq<int>| pkg_cycle(root@, c)
            },
        },
{
    let ghost pkgs = package_nodes(root@);
    let (g, index) = build_graph(root);
    match topological(&g) {
        Err(e) => {
            proof {
                crate::dependency_graph::lemma_topological_none_implies_cycle(g);
                let c = choose|c: Seq<usize>| g.is_cycle(c);
                let ci = c.map_values(|x: usize| x as int);
                assert(pkg_cycle(root@, ci)) by {
                    assert forall|i: int| 0 <= i < ci.len() - 1 implies pkg_dep_on(
                        root@,
                        #[trigger] ci[i],
                        ci[i + 1],
                    ) by {
                        assert(g.has_edge(c[i], c[i + 1]));
                        lemma_edge_transport(g, root@, c[i], c[i + 1]);
                    }
                    assert(g.has_edge(c[c.len() - 1], c[0]));
                    lemma_edge_transport(g, root@, c[c.len() - 1], c[0]);
                    assert(ci[ci.len() - 1] == c[c.len() - 1] as int);
                }
            }
            Err(e)
        },
        Ok(order) => {
            let mut ids: Vec<PackageId> = Vec::new();
            let mut k: usize = 0;
            proof {
                crate::dependency_graph::lemma_topological_orders_dependencies(g, order@);
            }
            while k < order.len()
                invariant
                    pkgs == package_nodes(root@),
                    k <= order@.len(),
                    g.wf(),
                    g.node_count() == pkgs.len(),
                    forall|q: int|
                        0 <= q < pkgs.len() ==> (#[trigger] g.payloads()[q])@ == package_id_of(
                            pkgs[q],
                        ),
                    forall|q: int| 0 <= q < order@.len() ==> (#[trigger] order@[q]) < pkgs.len(),
                    ids@.len() == k,
                    forall|q: int|
                        0 <= q < k ==> (#[trigger] ids@[q])@ == package_id_of(
                            pkgs[order@[q] as int],
                        ),
                decreases order@.len() - k,
            {
                proof {
                    g.lemma_payloads_len();
                }
                let h = order[k];
                let p = match g.get(h) {
                    Some(p) => p,
                    None => {
                        proof {
                            assert(false);
                        }
                        return Err(TopologicalError::ContainsCycle);
                    },
                };
                ids.push(clone_package_id(p));
                k += 1;
            }
            proof {
                let ord = order@;
                assert forall|a: int, t: int|
                    0 <= a < ord.len() && #[trigger] pkg_dep_on(root@, ord[a] as int, t) implies
                    exists|b: int| 0 <= b < a && (#[trigger] ord[b]) as int == t by {
                    lemma_dep_transport(g, root@, ord[a], t);
                    let d = t as usize;
                    assert(g.deps_of(ord[a]).contains(d));
                    let b = choose|b: int| 0 <= b < a && ord[b] == d;
                    assert(ord[b] as int == t);
                }
            }
            Ok(ids)
        },
    }
}

/// An edge of the built graph is a resolved package dependency.
pub(crate) proof fn lemma_edge_transport(
    g: DependencyGraph<PackageId>,
    w: WorkspaceView,
    u: usize,
    v: usize,
)
    requires
        g.wf(),
        g.node_count() == package_nodes(w).len(),
        forall|j: usize|
            j < package_nodes(w).len() ==> (#[trigger] g.deps_of(j)).map_values(|x: usize| x as int)
                == package_deps(w, j as int).reverse(),
        g.has_edge(u, v),
    ensures
        pkg_dep_on(w, u as int, v as int),
{
    let m = g.deps_of(u).map_values(|x: usize| x as int);
    let j = choose|j: int| 0 <= j < g.deps_of(u).len() && g.deps_of(u)[j] == v;
    assert(m[j] == v as int);
    assert(m.contains(v as int));
    let rev = package_deps(w, u as int).reverse();
    let j2 = choose|j2: int| 0 <= j2 < rev.len() && rev[j2] == v as int;
    assert(package_deps(w, u as int)[rev.len() - 1 - j2] == v as int);
    assert(package_deps(w, u as int).contains(v as int));
}

/// A resolved package dependency is an edge of the built graph.
pub(crate) proof fn lemma_dep_transport(
    g: DependencyGraph<PackageId>,
    w: WorkspaceView,
    u: usize,
    t: int,
)
    requires
        g.wf(),
        g.node_count() == package_nodes(w).len(),
        forall|j: usize|
            j < package_nodes(w).len() ==> (#[trigger] g.deps_of(j)).map_values(|x: usize| x as int)
                == package_deps(w, j as int).reverse(),
        u < package_nodes(w).len(),
        pkg_dep_on(w, u as int, t),
    ensures
        0 <= t < package_nodes(w).len(),
        g.deps_of(u).contains(t as usize),
{
    let pd = package_deps(w, u as int);
    lemma_resolve_range(package_nodes(w), package_nodes(w)[u as int].package_json.all_dep_names());
    let j = choose|j: int| 0 <= j < pd.len() && pd[j] == t;
    assert(0 <= t < package_nodes(w).len());
    let rev = pd.reverse();
    assert(rev[pd.len() - 1 - j] == t);
    let m = g.deps_of(u).map_values(|x: usize| x as int);
    assert(m == rev);
    assert(m[pd.len() - 1 - j] == t);
    assert(g.deps_of(u)[pd.len() - 1 - j] == t as usize);
    assert(g.deps_of(u).contains(t as usize));
}

// ---------------------------------------------------------------------------
// Deduplication holds throughout a loaded tree
// ---------------------------------------------------------------------------

/// No two trees in the forest sit in the same directory.
pub open spec fn distinct_dirs(ws: Seq<WorkspaceView>) -> bool {
    forall|i: int, j: int|
        0 <= i < ws.len() && 0 <= j < ws.len() && i != j ==> (#[trigger] ws[i]).directory != (
        #[trigger] ws[j]).directory
}

/// At every node of the tree, the children sit in pairwise distinct
/// directories.
pub open spec fn tree_dedup_ok(w: WorkspaceView) -> bool
    decreases w, 0int,
{
    distinct_dirs(w.workspaces) && forest_dedup_ok(w.workspaces, 0)
}

pub open spec fn forest_dedup_ok(ws: Seq<WorkspaceView>, i: int) -> bool
    decreases ws, ws.len() - i,
{
    if i < 0 || i >= ws.len() {
        true
    } else {
        tree_dedup_ok(ws[i]) && forest_dedup_ok(ws, i + 1)
    }
}

pub(crate) proof fn lemma_forest_dedup_from(ws: Seq<WorkspaceView>, i: int)
    requires
        0 <= i <= ws.len(),
        forall|k: int| i <= k < ws.len() ==> tree_dedup_ok(#[trigger] ws[k]),
    ensures
        forest_dedup_ok(ws, i),
    decreases ws.len() - i,
{
    if i < ws.len() {
        lemma_forest_dedup_from(ws, i + 1);
    }
}

/// A successful load of a directory yields a tree rooted exactly there.
pub(crate) proof fn lemma_load_spec_dir(fs: FsView, dir: Seq<char>, trail: Seq<Seq<char>>)
    requires
        load_trail_ok(fs, trail),
        !trail.contains(dir),
    ensures
        match load_spec(fs, dir, trail) {
            Ok(w) => w.directory == dir,
            Err(_) => true,
        },
{
}

/// Glob deduplication reaches the whole tree: every node of a loaded tree
/// has children in pairwise distinct directories, however often the
/// manifest's patterns matched each one.
pub proof fn lemma_load_tree_dedup(fs: FsView, dir: Seq<char>, trail: Seq<Seq<char>>)
    requires
        load_trail_ok(fs, trail),
        !trail.contains(dir),
    ensures
        match load_spec(fs, dir, trail) {
            Ok(w) => tree_dedup_ok(w),
            Err(_) => true,
        },
    decreases fs.dirs.len() - trail.len(), 0int, 0int,
{
    if !fs.has_dir(dir) {
    } else {
        match fs.entry(dir).manifest {
            None => {},
            Some(Err(_)) => {},
            Some(Ok(m)) => {
                let matches = dedup_spec(fs.entry(dir).workspace_matches);
                lemma_dedup_spec(fs.entry(dir).workspace_matches);
                lemma_trail_push(fs, trail, dir);
                lemma_load_children_dedup(fs, matches, trail.push(dir));
                match load_children_spec(fs, matches, trail.push(dir)) {
                    Err(_) => {},
                    Ok(children) => {
                        lemma_forest_dedup_from(children, 0);
                    },
                }
            },
        }
    }
}

pub(crate) proof fn lemma_load_children_dedup(
    fs: FsView,
    matches: Seq<Seq<char>>,
    trail: Seq<Seq<char>>,
)
    requires
        load_trail_ok(fs, trail),
        matches.no_duplicates(),
    ensures
        match load_children_spec(fs, matches, trail) {
            Err(_) => true,
            Ok(children) => {
                &&& distinct_dirs(children)
                &&& forall|k: int|
                    0 <= k < children.len() ==> tree_dedup_ok(#[trigger] children[k])
                &&& forall|k: int|
                    0 <= k < children.len() ==> matches.contains(
                        (#[trigger] children[k]).directory,
                    )
            },
        },
    decreases fs.dirs.len() - trail.len(), 1int, matches.len(),
{
    lemma_trail_bound(fs, trail);
    if matches.len() == 0 {
    } else {
        let c = matches[0];
        let rest_matches = matches.drop_first();
        assert(rest_matches.no_duplicates()) by {
            assert forall|i: int, j: int|
                0 <= i < rest_matches.len() && 0 <= j < rest_matches.len() && i != j implies
                rest_matches[i] != rest_matches[j] by {
                assert(rest_matches[i] == matches[i + 1] && rest_matches[j] == matches[j + 1]);
            }
        }
        if trail.contains(c) {
        } else if !fs.has_manifest(c) {
            lemma_load_children_dedup(fs, rest_matches, trail);
            match load_children_spec(fs, rest_matches, trail) {
                Err(_) => {},
                Ok(children) => {
                    assert forall|k: int| 0 <= k < children.len() implies matches.contains(
                        (#[trigger] children[k]).directory,
                    ) by {
                        let t = choose|t: int|
                            0 <= t < rest_matches.len() && rest_matches[t] == children[k].directory;
                        assert(matches[t + 1] == children[k].directory);
                    }
                },
            }
        } else {
            lemma_load_tree_dedup(fs, c, trail);
            lemma_load_spec_dir(fs, c, trail);
            match load_spec(fs, c, trail) {
                Err(_) => {},
                Ok(w) => {
                    lemma_load_children_dedup(fs, rest_matches, trail);
                    match load_children_spec(fs, rest_matches, trail) {
                        Err(_) => {},
                        Ok(rest) => {
                            let children = seq![w] + rest;
                            assert forall|k: int| 0 <= k < children.len() implies matches.contains(
                                (#[trigger] children[k]).directory,
                            ) by {
                                if k == 0 {
                                    assert(children[0] == w);
                                    assert(matches[0] == w.directory);
                                } else {
                                    assert(children[k] == rest[k - 1]);
                                    let rk = rest[k - 1];
                                    let t = choose|t: int|
                                        0 <= t < rest_matches.len() && rest_matches[t]
                                            == rk.directory;
                                    assert(matches[t + 1] == rk.directory);
                                }
                            }
                            assert forall|k: int| 0 <= k < children.len() implies tree_dedup_ok(
                                #[trigger] children[k],
                            ) by {
                                if k == 0 {
                                    assert(children[0] == w);
                                } else {
                                    assert(children[k] == rest[k - 1]);
                                }
                            }
                            assert(distinct_dirs(children)) by {
                                assert forall|i: int, j: int|
                                    0 <= i < children.len() && 0 <= j < children.len() && i != j
                                    implies (#[trigger] children[i]).directory != (
                                #[trigger] children[j]).directory by {
                                    if i == 0 {
                                        assert(children[j] == rest[j - 1]);
                                        let rj = rest[j - 1];
                                        let t = choose|t: int|
                                            0 <= t < rest_matches.len() && rest_matches[t]
                                                == rj.directory;
                                        if rj.directory == w.directory {
                                            assert(matches[t + 1] == matches[0]);
                                        }
                                    } else if j == 0 {
                                        assert(children[i] == rest[i - 1]);
                                        let ri = rest[i - 1];
                                        let t = choose|t: int|
                                            0 <= t < rest_matches.len() && rest_matches[t]
                                                == ri.directory;
                                        if ri.directory == w.directory {
                                            assert(matches[t + 1] == matches[0]);
                                        }
                                    } else {
                                        assert(children[i] == rest[i - 1] && children[j] == rest[j
                                            - 1]);
                                    }
                                }
                            }
                        },
                    }
                },
            }
        }
    }
}

} // verus!

//! The manifest model: the fields of a package descriptor that the
//! workspace resolver reads.  Mappings are kept as key/value pair lists in
//! file order; the version-range values are opaque to this library.
use vstd::prelude::*;

verus! {

/// View of a string as its character sequence, lifted over a pair list.
pub open spec fn pairs_view(v: Seq<(String, String)>) -> Seq<(Seq<char>, Seq<char>)> {
    v.map_values(|p: (String, String)| (p.0@, p.1@))
}

pub open spec fn strings_view(v: Seq<String>) -> Seq<Seq<char>> {
    v.map_values(|s: String| s@)
}

pub open spec fn opt_string_view(v: Option<String>) -> Option<Seq<char>> {
    match v {
        None => None,
        Some(s) => Some(s@),
    }
}

pub open spec fn opt_pairs_view(v: Option<Seq<(String, String)>>) -> Option<
    Seq<(Seq<char>, Seq<char>)>,
> {
    match v {
        None => None,
        Some(m) => Some(pairs_view(m)),
    }
}

/// A package descriptor: identity, scripts, dependency maps and workspace
/// glob patterns.  Immutable once loaded; this library never writes one.
#[derive(Debug)]
pub struct PackageJson {
    pub name: Option<String>,
    pub private: Option<bool>,
    pub version: Option<String>,
    pub scripts: Option<Vec<(String, String)>>,
    pub workspaces: Option<Vec<String>>,
    pub dependencies: Option<Vec<(String, String)>>,
    pub dev_dependencies: Option<Vec<(String, String)>>,
    pub peer_dependencies: Option<Vec<(String, String)>>,
}

/// The mathematical value of a manifest: every string as a character
/// sequence.
pub struct PackageJsonView {
    pub name: Option<Seq<char>>,
    pub private: Option<bool>,
    pub version: Option<Seq<char>>,
    pub scripts: Option<Seq<(Seq<char>, Seq<char>)>>,
    pub workspaces: Option<Seq<Seq<char>>>,
    pub dependencies: Option<Seq<(Seq<char>, Seq<char>)>>,
    pub dev_dependencies: Option<Seq<(Seq<char>, Seq<char>)>>,
    pub peer_dependencies: Option<Seq<(Seq<char>, Seq<char>)>>,
}

impl View for PackageJson {
    type V = PackageJsonView;

    open spec fn view(&self) -> PackageJsonView {
        PackageJsonView {
            name: opt_string_view(self.name),
            private: self.private,
            version: opt_string_view(self.version),
            scripts: match self.scripts {
                None => None,
                Some(m) => Some(pairs_view(m@)),
            },
            workspaces: match self.workspaces {
                None => None,
                Some(m) => Some(strings_view(m@)),
            },
            dependencies: match self.dependencies {
                None => None,
                Some(m) => Some(pairs_view(m@)),
            },
            dev_dependencies: match self.dev_dependencies {
                None => None,
                Some(m) => Some(pairs_view(m@)),
            },
            peer_dependencies: match self.peer_dependencies {
                None => None,
                Some(m) => Some(pairs_view(m@)),
            },
        }
    }
}

/// The keys of a key/value pair list, in order.
pub open spec fn pair_keys(v: Seq<(Seq<char>, Seq<char>)>) -> Seq<Seq<char>> {
    v.map_values(|p: (Seq<char>, Seq<char>)| p.0)
}

pub open spec fn opt_keys(v: Option<Seq<(Seq<char>, Seq<char>)>>) -> Seq<Seq<char>> {
    match v {
        None => Seq::empty(),
        Some(m) => pair_keys(m),
    }
}

impl PackageJsonView {
    /// Every dependency name this package declares: dependencies, then
    /// devDependencies, then peerDependencies, each in map order.
    pub open spec fn all_dep_names(self) -> Seq<Seq<char>> {
        opt_keys(self.dependencies) + opt_keys(self.dev_dependencies) + opt_keys(
            self.peer_dependencies,
        )
    }
}

fn push_keys(r: &mut Vec<String>, m: &Option<Vec<(String, String)>>)
    ensures
        strings_view(final(r)@) == strings_view(old(r)@) + opt_keys(
            opt_pairs_view(
                match m {
                    None => None,
                    Some(v) => Some(v@),
                },
            ),
        ),
{
    let ghost base = r@;
    match m {
        None => {
            proof {
                assert(strings_view(r@) =~= strings_view(base) + Seq::<Seq<char>>::empty());
            }
        },
        Some(v) => {
            let mut i: usize = 0;
            while i < v.len()
                invariant
                    i <= v@.len(),
                    strings_view(r@) == strings_view(base) + pair_keys(pairs_view(v@)).take(
                        i as int,
                    ),
                decreases v@.len() - i,
            {
                let ghost before = r@;
                r.push(v[i].0.clone());
                proof {
                    assert(strings_view(r@) =~= strings_view(before).push(v@[i as int].0@));
                    assert(pair_keys(pairs_view(v@)).take(i as int + 1) =~= pair_keys(
                        pairs_view(v@),
                    ).take(i as int).push(v@[i as int].0@));
                    assert(strings_view(r@) =~= strings_view(base) + pair_keys(
                        pairs_view(v@),
                    ).take(i as int + 1));
                }
                i += 1;
            }
            proof {
                assert(pair_keys(pairs_view(v@)).take(v@.len() as int) =~= pair_keys(
                    pairs_view(v@),
                ));
            }
        },
    }
}

pub(crate) fn clone_strings(v: &Vec<String>) -> (r: Vec<String>)
    ensures
        r@ == v@,
{
    let mut r: Vec<String> = Vec::new();
    let mut i: usize = 0;
    while i < v.len()
        invariant
            i <= v@.len(),
            r@ == v@.take(i as int),
        decreases v@.len() - i,
    {
        r.push(v[i].clone());
        proof {
            assert(v@.take(i as int).push(v@[i as int]) =~= v@.take(i as int + 1));
        }
        i += 1;
    }
    proof {
        assert(v@.take(v@.len() as int) =~= v@);
    }
    r
}

fn clone_pair_vec(v: &Vec<(String, String)>) -> (r: Vec<(String, String)>)
    ensures
        r@ == v@,
{
    let mut r: Vec<(String, String)> = Vec::new();
    let mut i: usize = 0;
    while i < v.len()
        invariant
            i <= v@.len(),
            r@ == v@.take(i as int),
        decreases v@.len() - i,
    {
        let p = (v[i].0.clone(), v[i].1.clone());
        proof {
            assert(p == v@[i as int]);
            assert(v@.take(i as int).push(v@[i as int]) =~= v@.take(i as int + 1));
        }
        r.push(p);
        i += 1;
    }
    proof {
        assert(v@.take(v@.len() as int) =~= v@);
    }
    r
}

fn clone_opt_pairs(v: &Option<Vec<(String, String)>>) -> (r: Option<Vec<(String, String)>>)
    ensures
        match (r, v) {
            (None, None) => true,
            (Some(a), Some(b)) => a@ == b@,
            _ => false,
        },
{
    match v {
        None => None,
        Some(m) => Some(clone_pair_vec(m)),
    }
}

impl PackageJson {
    /// A field-by-field copy that is provably the same manifest value.
    pub fn duplicate(&self) -> (r: PackageJson)
        ensures
            r@ == self@,
    {
        PackageJson {
            name: match &self.name {
                None => None,
                Some(s) => Some(s.clone()),
            },
            private: self.private,
            version: match &self.version {
                None => None,
                Some(s) => Some(s.clone()),
            },
            scripts: match &self.scripts {
                None => None,
                Some(m) => Some(clone_pair_vec(m)),
            },
            workspaces: match &self.workspaces {
                None => None,
                Some(m) => Some(clone_strings(m)),
            },
            dependencies: clone_opt_pairs(&self.dependencies),
            dev_dependencies: clone_opt_pairs(&self.dev_dependencies),
            peer_dependencies: clone_opt_pairs(&self.peer_dependencies),
        }
    }

    /// Every dependency name this package declares, in map order:
    /// dependencies, then devDependencies, then peerDependencies.
    pub fn dependency_names(&self) -> (r: Vec<String>)
        ensures
            strings_view(r@) == self@.all_dep_names(),
    {
        let mut r: Vec<String> = Vec::new();
        proof {
            assert(strings_view(r@) =~= Seq::<Seq<char>>::empty());
        }
        push_keys(&mut r, &self.dependencies);
        push_keys(&mut r, &self.dev_dependencies);
        push_keys(&mut r, &self.peer_dependencies);
        proof {
            assert(Seq::<Seq<char>>::empty() + opt_keys(self@.dependencies) =~= opt_keys(
                self@.dependencies,
            ));
        }
        r
    }
}

} // verus!

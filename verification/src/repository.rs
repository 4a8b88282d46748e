//! Repository discovery, opening, and initialization: path resolution under
//! the metadata directory, the persisted configuration's validity rule, and
//! the exact contents a fresh repository starts with. Filesystem effects are
//! the caller's; every decision about them is made and specified here.
use vstd::prelude::*;
use vstd::string::StringExecFns;
use crate::GitError;

verus! {

/// One `key = value` line of a configuration section; a key may be present
/// with no value.
#[derive(Debug, PartialEq, Eq)]
pub struct ConfigEntry {
    pub key: String,
    pub value: Option<String>,
}

/// One named section of the configuration file.
#[derive(Debug, PartialEq, Eq)]
pub struct ConfigSection {
    pub name: String,
    pub entries: Vec<ConfigEntry>,
}

/// The persisted configuration: a mapping from section name to a mapping
/// from key to optional value, read once when a repository is opened.
#[derive(Debug, PartialEq, Eq)]
pub struct RepoConfig {
    pub sections: Vec<ConfigSection>,
}

pub open spec fn entry_model(e: ConfigEntry) -> (Seq<char>, Option<Seq<char>>) {
    (
        e.key@,
        match e.value {
            Some(v) => Some(v@),
            None => None,
        },
    )
}

pub open spec fn section_model(s: ConfigSection) -> (Seq<char>, Seq<(Seq<char>, Option<Seq<char>>)>) {
    (s.name@, s.entries@.map_values(|e: ConfigEntry| entry_model(e)))
}

pub open spec fn config_model(c: RepoConfig) -> Seq<
    (Seq<char>, Seq<(Seq<char>, Option<Seq<char>>)>),
> {
    c.sections@.map_values(|s: ConfigSection| section_model(s))
}

/// The value under `key` in a list of entries: the first match wins.
pub open spec fn entries_lookup(es: Seq<(Seq<char>, Option<Seq<char>>)>, key: Seq<char>) -> Option<
    Option<Seq<char>>,
>
    decreases es.len(),
{
    if es.len() == 0 {
        None
    } else if es[0].0 == key {
        Some(es[0].1)
    } else {
        entries_lookup(es.skip(1), key)
    }
}

/// The value under `section`/`key` in a configuration: the first matching
/// section is consulted.
pub open spec fn config_lookup(
    cm: Seq<(Seq<char>, Seq<(Seq<char>, Option<Seq<char>>)>)>,
    section: Seq<char>,
    key: Seq<char>,
) -> Option<Option<Seq<char>>>
    decreases cm.len(),
{
    if cm.len() == 0 {
        None
    } else if cm[0].0 == section {
        entries_lookup(cm[0].1, key)
    } else {
        config_lookup(cm.skip(1), section, key)
    }
}

impl RepoConfig {
    /// An empty configuration.
    pub fn new() -> (r: RepoConfig)
        ensures
            config_model(r).len() == 0,
    {
        let r = RepoConfig { sections: Vec::new() };
        proof {
            assert(config_model(r).len() == 0);
        }
        r
    }

    /// Looks up `section`/`key`, cloning the stored value.
    pub fn get(&self, section: &String, key: &String) -> (r: Option<Option<String>>)
        ensures
            match r {
                Some(Some(v)) => config_lookup(config_model(*self), section@, key@) == Some(
                    Some(v@),
                ),
                Some(None) => config_lookup(config_model(*self), section@, key@) == Some(
                    None::<Seq<char>>,
                ),
                None => config_lookup(config_model(*self), section@, key@) is None,
            },
    {
        let ghost cm = config_model(*self);
        let mut i: usize = 0;
        proof {
            assert(cm.skip(0) =~= cm);
        }
        while i < self.sections.len()
            invariant
                i <= self.sections@.len(),
                cm == config_model(*self),
                cm.len() == self.sections@.len(),
                config_lookup(cm, section@, key@) == config_lookup(
                    cm.skip(i as int),
                    section@,
                    key@,
                ),
            decreases self.sections@.len() - i,
        {
            proof {
                assert(cm.skip(i as int)[0] == cm[i as int]);
                assert(cm[i as int] == section_model(self.sections@[i as int]));
                assert(cm.skip(i as int).skip(1) =~= cm.skip(i + 1));
            }
            let sec = &self.sections[i];
            if sec.name == *section {
                let ghost em = cm[i as int].1;
                proof {
                    assert(config_lookup(cm.skip(i as int), section@, key@) == entries_lookup(
                        em,
                        key@,
                    ));
                    assert(em.skip(0) =~= em);
                }
                let mut j: usize = 0;
                while j < sec.entries.len()
                    invariant
                        j <= sec.entries@.len(),
                        i < self.sections@.len(),
                        sec == &self.sections@[i as int],
                        em == section_model(self.sections@[i as int]).1,
                        em.len() == sec.entries@.len(),
                        config_lookup(config_model(*self), section@, key@) == entries_lookup(
                            em.skip(j as int),
                            key@,
                        ),
                    decreases sec.entries@.len() - j,
                {
                    proof {
                        assert(em.skip(j as int)[0] == em[j as int]);
                        assert(em[j as int] == entry_model(sec.entries@[j as int]));
                        assert(em.skip(j as int).skip(1) =~= em.skip(j + 1));
                    }
                    let ent = &sec.entries[j];
                    if ent.key == *key {
                        match &ent.value {
                            Some(v) => {
                                return Some(Some(v.clone()));
                            },
                            None => {
                                return Some(None);
                            },
                        }
                    }
                    j = j + 1;
                }
                proof {
                    assert(em.skip(sec.entries@.len() as int).len() == 0);
                }
                return None;
            }
            i = i + 1;
        }
        proof {
            assert(cm.skip(self.sections@.len() as int).len() == 0);
        }
        None
    }
}

/// The metadata directory under a working tree root.
pub open spec fn git_dir_of(work_tree: Seq<char>) -> Seq<char> {
    work_tree + "/.git"@
}

/// A repository handle: the working tree root, the metadata root, and the
/// configuration read when it was opened.
#[derive(Debug, PartialEq, Eq)]
pub struct RGitRepository {
    pub work_tree: String,
    pub git_dir: String,
    pub conf: RepoConfig,
}

/// What the caller found the parent directory chain of a path to be.
#[derive(Clone, Copy, Debug, PartialEq, Eq, Structural)]
pub enum DirState {
    /// The directory chain does not exist.
    Missing,
    /// The directory chain exists and ends in a directory.
    IsDir,
    /// The chain exists but ends in something other than a directory.
    NotDir,
}

/// One step of repository discovery from a candidate directory.
#[derive(Debug, PartialEq, Eq)]
pub enum RepoFindStep {
    /// The candidate holds the metadata directory: open it.
    Found(String),
    /// Keep looking from the canonical parent.
    Ascend(String),
    /// The filesystem root was reached without finding a repository.
    NotFound,
}

/// Joining path segments under a base with `/` separators.
pub open spec fn path_join(base: Seq<char>, segs: Seq<Seq<char>>) -> Seq<char>
    decreases segs.len(),
{
    if segs.len() == 0 {
        base
    } else {
        path_join(base + seq!['/'] + segs[0], segs.skip(1))
    }
}

impl RGitRepository {
    /// Opens a repository rooted at `work_tree`. The caller reports whether
    /// the metadata directory exists and hands over the parsed
    /// configuration, if any. Unless `force` allows missing metadata, the
    /// configuration must be present and declare
    /// `core.repositoryformatversion` `0`.
    pub fn init(work_tree: String, force: bool, git_dir_exists: bool, conf: Option<RepoConfig>) -> (r:
        Result<RGitRepository, GitError>)
        ensures
            ({
                let version = match conf {
                    Some(c) => config_lookup(
                        config_model(c),
                        "core"@,
                        "repositoryformatversion"@,
                    ),
                    None => None,
                };
                let allowed = force || git_dir_exists;
                let version_ok = version matches Some(Some(v)) && v == "0"@;
                match r {
                    Ok(rep) => allowed && (force || version_ok) && rep.work_tree@ == work_tree@
                        && rep.git_dir@ == git_dir_of(work_tree@) && (match conf {
                        Some(c) => rep.conf == c,
                        None => config_model(rep.conf).len() == 0,
                    }),
                    Err(e) => (!allowed && e == GitError::NotFound) || (allowed && !force
                        && !version_ok && e == GitError::ConfigInvalid),
                }
            }),
    {
        if !force && !git_dir_exists {
            return Err(GitError::NotFound);
        }
        let mut git_dir = work_tree.clone();
        git_dir.append("/.git");
        let conf_value = match conf {
            Some(c) => {
                if !force {
                    let section = String::from_str("core");
                    let key = String::from_str("repositoryformatversion");
                    match c.get(&section, &key) {
                        Some(Some(v)) => {
                            if !(v == String::from_str("0")) {
                                return Err(GitError::ConfigInvalid);
                            }
                        },
                        _ => {
                            return Err(GitError::ConfigInvalid);
                        },
                    }
                }
                c
            },
            None => {
                if !force {
                    return Err(GitError::ConfigInvalid);
                }
                RepoConfig::new()
            },
        };
        Ok(RGitRepository { work_tree, git_dir, conf: conf_value })
    }

    /// The path of `path`'s segments joined under the metadata root.
    pub fn repo_path(&self, path: &Vec<String>) -> (r: String)
        ensures
            r@ == path_join(self.git_dir@, path@.map_values(|s: String| s@)),
    {
        let ghost segs = path@.map_values(|s: String| s@);
        let mut r = self.git_dir.clone();
        let mut i: usize = 0;
        proof {
            assert(segs.skip(0) =~= segs);
        }
        while i < path.len()
            invariant
                i <= path@.len(),
                segs == path@.map_values(|s: String| s@),
                segs.len() == path@.len(),
                path_join(self.git_dir@, segs) == path_join(r@, segs.skip(i as int)),
            decreases path@.len() - i,
        {
            proof {
                assert(segs.skip(i as int)[0] == segs[i as int]);
                assert(segs[i as int] == path@[i as int]@);
                assert(segs.skip(i as int).skip(1) =~= segs.skip(i + 1));
            }
            let ghost pre = r@;
            r.append("/");
            let seg = &path[i];
            r.append(seg.as_str());
            proof {
                reveal_strlit("/");
                assert("/"@ =~= seq!['/']);
                assert(r@ =~= pre + seq!['/'] + segs[i as int]);
            }
            i = i + 1;
        }
        proof {
            assert(segs.skip(segs.len() as int).len() == 0);
        }
        r
    }

    /// The path of `path`'s segments under the metadata root, provided the
    /// parent directory chain can be used: it is a directory already, or it
    /// is missing and `mkdir` asks for it to be created. `None` signals a
    /// parent that exists but is not a directory, or one that is missing
    /// without `mkdir` — the caller must check. The caller reports the
    /// parent chain's state and performs any creation.
    pub fn repo_file(&self, path: &Vec<String>, parent: DirState, mkdir: bool) -> (r: Option<
        String,
    >)
        ensures
            ({
                let joined = path_join(self.git_dir@, path@.map_values(|s: String| s@));
                match r {
                    Some(p) => p@ == joined && (parent == DirState::IsDir || (parent
                        == DirState::Missing && mkdir)),
                    None => !(parent == DirState::IsDir || (parent == DirState::Missing && mkdir)),
                }
            }),
    {
        match parent {
            DirState::IsDir => Some(self.repo_path(path)),
            DirState::Missing => {
                if mkdir {
                    Some(self.repo_path(path))
                } else {
                    None
                }
            },
            DirState::NotDir => None,
        }
    }

    /// Resolves a user-supplied object name to a digest. Resolution is a
    /// syntactic mapping and currently the identity; existence is checked
    /// by the store at read time.
    pub fn object_find(&self, name: String, _fmt: Option<String>, _follow: Option<bool>) -> (r:
        String)
        ensures
            r@ == name@,
    {
        name
    }

    /// Interprets the stored bytes of an object, handed over by the caller:
    /// `None` when no file backs the digest, otherwise the compressed
    /// stream. Decompresses, un-frames, and decodes; the result is exactly
    /// what `object_read_spec` assigns to the stored bytes.
    pub fn object_read(&self, stored: Option<&Vec<u8>>) -> (r: Result<
        crate::object::GitObject,
        GitError,
    >)
        ensures
            ({
                let sv = match stored {
                    Some(b) => Some(b@),
                    None => None,
                };
                match r {
                    Ok(o) => object_read_spec(sv) == Ok::<_, GitError>(o.model()),
                    Err(e) => object_read_spec(sv) == Err::<crate::object::GitObjectModel, _>(e),
                }
            }),
    {
        match stored {
            None => Err(GitError::ObjectNotFound),
            Some(bytes) => {
                match crate::compress::zlib_decompress(bytes) {
                    None => Err(GitError::CorruptObject),
                    Some(raw) => crate::object::GitObject::object_read(&raw),
                }
            },
        }
    }

    /// The display form of an object fetched by digest: its stored payload,
    /// re-encoded. The caller reads the stored bytes and prints the result.
    pub fn cat_file(&self, stored: Option<&Vec<u8>>) -> (r: Result<Vec<u8>, GitError>)
        ensures
            ({
                let sv = match stored {
                    Some(b) => Some(b@),
                    None => None,
                };
                match r {
                    Ok(out) => object_read_spec(sv) matches Ok(m) && out@
                        == crate::object::serialize_spec(m),
                    Err(e) => object_read_spec(sv) == Err::<crate::object::GitObjectModel, _>(e),
                }
            }),
    {
        match self.object_read(stored) {
            Ok(o) => Ok(o.serialize()),
            Err(e) => Err(e),
        }
    }
}

/// The meaning of a store lookup: no backing file is `ObjectNotFound`, a
/// stream zlib cannot decode is `CorruptObject`, and the decompressed bytes
/// are then un-framed and decoded by kind.
pub open spec fn object_read_spec(stored: Option<Seq<u8>>) -> Result<
    crate::object::GitObjectModel,
    GitError,
> {
    match stored {
        None => Err(GitError::ObjectNotFound),
        Some(b) => match crate::compress::inflate_of(b) {
            None => Err(GitError::CorruptObject),
            Some(framed) => match crate::object::parse_frame_spec(framed) {
                None => Err(GitError::MalformedObject),
                Some(tp) => match crate::object::deserialize_spec(tp.0, tp.1) {
                    None => Err(crate::object::deserialize_err(tp.0)),
                    Some(m) => Ok(m),
                },
            },
        },
    }
}

/// Store round-trip law: a lookup that returns the very bytes
/// `object_write` produced for a valid object — its compressed frame, which
/// decompresses to that frame by the compressor's contract — yields the
/// object back, trees in their canonical entry order.
pub proof fn lemma_store_round_trip(m: crate::object::GitObjectModel, compressed: Seq<u8>)
    requires
        crate::object::object_wf(m),
        crate::compress::inflate_of(compressed) == Some(
            crate::object::frame_spec(
                crate::object::model_type(m),
                crate::object::serialize_spec(m),
            ),
        ),
    ensures
        object_read_spec(Some(compressed)) == Ok::<_, GitError>(crate::object::normal_model(m)),
{
    crate::object::lemma_object_round_trip(m);
}

/// The directories and files that initialization creates, each file with
/// its exact contents. The caller executes the plan; running it twice is
/// harmless since every step is idempotent.
#[derive(Debug, PartialEq, Eq)]
pub struct RepoInitPlan {
    pub dirs: Vec<String>,
    pub files: Vec<(String, String)>,
}

/// Plans the creation of a fresh repository at `work_tree`: the working
/// tree itself, the four metadata subdirectories, and the three seed files
/// — a description, a symbolic `HEAD` at the unborn default branch, and a
/// configuration declaring format version `0`.
pub fn repo_create(work_tree: &String) -> (r: RepoInitPlan)
    ensures
        r.dirs@.len() == 5,
        r.dirs@[0]@ == work_tree@,
        r.dirs@[1]@ == git_dir_of(work_tree@) + "/branches"@,
        r.dirs@[2]@ == git_dir_of(work_tree@) + "/objects"@,
        r.dirs@[3]@ == git_dir_of(work_tree@) + "/refs/tags"@,
        r.dirs@[4]@ == git_dir_of(work_tree@) + "/refs/heads"@,
        r.files@.len() == 3,
        r.files@[0].0@ == git_dir_of(work_tree@) + "/description"@,
        r.files@[0].1@
            == "Unnamed repository; edit this file 'description' to name the repository.\n"@,
        r.files@[1].0@ == git_dir_of(work_tree@) + "/HEAD"@,
        r.files@[1].1@ == "ref: refs/heads/master\n"@,
        r.files@[2].0@ == git_dir_of(work_tree@) + "/config"@,
        r.files@[2].1@ == "[core]\nrepositoryformatversion=0\nfilemode=false\nbare=false\n"@,
{
    let mut git_dir = work_tree.clone();
    git_dir.append("/.git");
    let mut dirs: Vec<String> = Vec::new();
    dirs.push(work_tree.clone());
    let mut d = git_dir.clone();
    d.append("/branches");
    dirs.push(d);
    let mut d2 = git_dir.clone();
    d2.append("/objects");
    dirs.push(d2);
    let mut d3 = git_dir.clone();
    d3.append("/refs/tags");
    dirs.push(d3);
    let mut d4 = git_dir.clone();
    d4.append("/refs/heads");
    dirs.push(d4);
    let mut files: Vec<(String, String)> = Vec::new();
    let mut f0 = git_dir.clone();
    f0.append("/description");
    files.push(
        (
            f0,
            String::from_str(
                "Unnamed repository; edit this file 'description' to name the repository.\n",
            ),
        ),
    );
    let mut f1 = git_dir.clone();
    f1.append("/HEAD");
    files.push((f1, String::from_str("ref: refs/heads/master\n")));
    let mut f2 = git_dir.clone();
    f2.append("/config");
    files.push(
        (f2, String::from_str("[core]\nrepositoryformatversion=0\nfilemode=false\nbare=false\n")),
    );
    RepoInitPlan { dirs, files }
}

/// One step of repository discovery: a candidate directory either holds the
/// metadata directory, or the search moves to its canonical parent, or —
/// when the canonical parent is the candidate itself, the filesystem root —
/// the search ends with nothing found. Comparing canonicalized paths is
/// what guarantees termination of the walk.
pub fn repo_find_step(path: String, has_git_dir: bool, canonical_parent: String) -> (r:
    RepoFindStep)
    ensures
        has_git_dir ==> (r matches RepoFindStep::Found(p) && p@ == path@),
        !has_git_dir && canonical_parent@ == path@ ==> r is NotFound,
        !has_git_dir && canonical_parent@ != path@ ==> (r matches RepoFindStep::Ascend(p) && p@
            == canonical_parent@),
{
    if has_git_dir {
        RepoFindStep::Found(path)
    } else if canonical_parent == path {
        RepoFindStep::NotFound
    } else {
        RepoFindStep::Ascend(canonical_parent)
    }
}

} // verus!

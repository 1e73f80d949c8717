//! The registration engine for a hierarchical coordination tree. An instance
//! is written as `appid / encoded-instance`; every ancestor of that leaf is
//! ensured to exist as a persistent node, the leaf is created ephemeral or
//! persistent after `metadata["dynamic"]`, and deregistration deletes the
//! leaf. An in-memory cache of paths known to exist short-circuits repeated
//! ancestor work.
//!
//! The engine does no I/O itself: [`RegTask::step`] consumes the reply to the
//! previous action and yields the next node operation, which the caller
//! performs against the coordination service.
use crate::codec::Encoder;
use crate::escape::str_eq;
use crate::escape::string_from_utf8;
use crate::pairs_model;
use crate::strs_model;
use crate::Instance;
use crate::InstanceModel;
use vstd::prelude::*;
use vstd::utf8::decode_utf8;
use vstd::utf8::valid_utf8;

verus! {

/// A coordination-service failure, as the engine distinguishes them.
#[derive(Debug, Clone, Copy, PartialEq, Eq, Structural)]
pub enum CoordError {
    NodeExists,
    NoNode,
    Other,
}

/// What registration and deregistration can report.
#[derive(Debug, Clone, Copy, PartialEq, Eq, Structural)]
pub enum ZkRegError {
    Encode,
    Decode,
    CreatePath(CoordError),
    DeletePath(CoordError),
    Join,
}

/// The set of tree paths known to exist: the ancestor-exists cache. It is
/// advisory and conservative; a member is only ever a path that was seen to
/// exist, or a leaf deregistration is about to delete.
pub struct PathCache {
    paths: Vec<String>,
}

impl View for PathCache {
    type V = Set<Seq<char>>;

    closed spec fn view(&self) -> Set<Seq<char>> {
        Set::new(|x: Seq<char>| exists|j: int| 0 <= j < self.paths@.len() && self.paths@[j]@ == x)
    }
}

impl PathCache {
    pub fn new() -> (r: Self)
        ensures
            r@ == Set::<Seq<char>>::empty(),
    {
        let r = PathCache { paths: Vec::new() };
        proof {
            assert(r@ =~= Set::<Seq<char>>::empty());
        }
        r
    }

    pub fn contains(&self, p: &str) -> (r: bool)
        ensures
            r == self@.contains(p@),
    {
        let n = self.paths.len();
        let mut i: usize = 0;
        while i < n
            invariant
                i <= n,
                n == self.paths@.len(),
                forall|j: int| 0 <= j < i ==> #[trigger] self.paths@[j]@ != p@,
            decreases n - i,
        {
            if str_eq(self.paths[i].as_str(), p) {
                return true;
            }
            i = i + 1;
        }
        assert(!self@.contains(p@));
        false
    }

    pub fn insert(&mut self, p: String)
        ensures
            final(self)@ == old(self)@.insert(p@),
    {
        self.paths.push(p);
        proof {
            let ps0 = old(self).paths@;
            let ps1 = self.paths@;
            assert forall|x: Seq<char>| #[trigger] final(self)@.contains(x) implies old(self)@.insert(p@).contains(x) by {
                let j = choose|j: int| 0 <= j < ps1.len() && ps1[j]@ == x;
                if j < ps0.len() {
                    assert(ps0[j]@ == x);
                } else {
                    assert(x == p@);
                }
            }
            assert forall|x: Seq<char>| old(self)@.insert(p@).contains(x) implies final(self)@.contains(x) by {
                if old(self)@.contains(x) {
                    let j = choose|j: int| 0 <= j < ps0.len() && ps0[j]@ == x;
                    assert(ps1[j]@ == x);
                } else {
                    assert(ps1[ps0.len() as int]@ == p@);
                }
            }
            assert(final(self)@ =~= old(self)@.insert(p@));
        }
    }
}

/// Whether a metadata mapping selects ephemeral registration: the key
/// `dynamic` is absent or holds `"true"`.
pub open spec fn spec_is_dynamic(m: Seq<(Seq<char>, Seq<char>)>) -> bool {
    match lookup(m, "dynamic"@) {
        None => true,
        Some(v) => v == "true"@,
    }
}

/// The value under the first occurrence of a key.
pub open spec fn lookup(m: Seq<(Seq<char>, Seq<char>)>, k: Seq<char>) -> Option<Seq<char>>
    decreases m.len(),
{
    if m.len() == 0 {
        None
    } else if m[0].0 == k {
        Some(m[0].1)
    } else {
        lookup(m.drop_first(), k)
    }
}

/// Executable form of [`spec_is_dynamic`].
pub fn is_dynamic(metadata: &Vec<(String, String)>) -> (r: bool)
    ensures
        r == spec_is_dynamic(pairs_model(metadata@)),
{
    let ghost m = pairs_model(metadata@);
    let n = metadata.len();
    let mut i: usize = 0;
    proof {
        assert(m.skip(0) =~= m);
    }
    while i < n
        invariant
            i <= n,
            n == metadata@.len(),
            m == pairs_model(metadata@),
            lookup(m, "dynamic"@) == lookup(m.skip(i as int), "dynamic"@),
        decreases n - i,
    {
        let hit = str_eq(metadata[i].0.as_str(), "dynamic");
        proof {
            assert(m.skip(i as int)[0] == m[i as int]);
            assert(m[i as int].0 == metadata@[i as int].0@);
            assert(m.skip(i as int).drop_first() =~= m.skip(i + 1));
        }
        if hit {
            let r = str_eq(metadata[i].1.as_str(), "true");
            assert(lookup(m.skip(i as int), "dynamic"@) == Some(m[i as int].1));
            return r;
        }
        i = i + 1;
    }
    assert(m.skip(n as int) =~= Seq::<(Seq<char>, Seq<char>)>::empty());
    true
}

/// A well-formed application id: it begins with `/`, has no empty segment,
/// and does not end in a separator.
pub open spec fn wf_appid(a: Seq<char>) -> bool {
    &&& a.len() >= 2
    &&& a[0] == '/'
    &&& a[a.len() - 1] != '/'
    &&& forall|i: int| 0 < i < a.len() ==> !(#[trigger] a[i] == '/' && a[i - 1] == '/')
}

/// The proper prefixes of the appid that end before a `/` at a position below
/// `n`, shallowest first.
pub open spec fn prefix_slashes(a: Seq<char>, n: int) -> Seq<Seq<char>>
    decreases n,
{
    if n <= 1 {
        Seq::<Seq<char>>::empty()
    } else {
        prefix_slashes(a, n - 1) + if a[n - 1] == '/' {
            seq![a.take(n - 1)]
        } else {
            Seq::<Seq<char>>::empty()
        }
    }
}

/// Every path the registration of an instance under this appid must ensure,
/// shallowest first: each prefix cut at a `/`, then the appid itself. The
/// root `/` is never among them.
pub open spec fn ancestors_spec(a: Seq<char>) -> Seq<Seq<char>> {
    prefix_slashes(a, a.len() as int) + seq![a]
}

fn ancestors_of(appid: &str) -> (r: Vec<String>)
    requires
        appid@.len() >= 1,
    ensures
        strs_model(r@) == ancestors_spec(appid@),
{
    let ghost a = appid@;
    let n = appid.unicode_len();
    let mut out: Vec<String> = Vec::new();
    let mut i: usize = 1;
    proof {
        assert(strs_model(out@) =~= prefix_slashes(a, 1));
    }
    while i < n
        invariant
            1 <= i <= n,
            n == a.len(),
            appid@ == a,
            strs_model(out@) == prefix_slashes(a, i as int),
        decreases n - i,
    {
        if appid.get_char(i) == '/' {
            let prefix = appid.substring_char(0, i);
            out.push(String::from_str(prefix));
            proof {
                assert(prefix@ == a.take(i as int));
                assert(strs_model(out@) =~= prefix_slashes(a, i + 1));
            }
        } else {
            proof {
                assert(prefix_slashes(a, i + 1) =~= prefix_slashes(a, i as int));
                assert(strs_model(out@) =~= prefix_slashes(a, i + 1));
            }
        }
        i = i + 1;
    }
    out.push(String::from_str(appid));
    proof {
        assert(strs_model(out@) =~= ancestors_spec(a));
    }
    out
}

/// The tree path of an instance's leaf: its appid, a separator, and the wire
/// form read as text.
pub open spec fn leaf_path_spec(x: InstanceModel, enc: Seq<u8>) -> Seq<char> {
    x.appid + seq!['/'] + decode_utf8(enc)
}

/// Builds the leaf path of an instance under its appid. It fails as `Encode`
/// exactly on a real cause: an encoder failure its contract permits, or
/// encoder output that is not valid UTF-8 — so with an encoder that never
/// fails and writes text, success is owed.
pub fn leaf_path<E: Encoder>(ins: &Instance, encoder: &E) -> (r: Result<String, ZkRegError>)
    requires
        encoder.valid_input(ins@),
    ensures
        (r matches Ok(p) ==> valid_utf8(encoder.model(ins@)) && p@ == leaf_path_spec(
            ins@,
            encoder.model(ins@),
        )),
        (r matches Err(e) ==> e == ZkRegError::Encode && ((exists|e2: <E as Encoder>::Error|
            encoder.post(ins@, Err(e2))) || !valid_utf8(encoder.model(ins@)))),
{
    let bytes = match encoder.encode(ins) {
        Ok(b) => b,
        Err(e) => {
            proof {
                assert(encoder.post(ins@, Err::<Vec<u8>, <E as Encoder>::Error>(e)));
            }
            return Err(ZkRegError::Encode);
        },
    };
    let leaf = match string_from_utf8(bytes) {
        Some(s) => s,
        None => {
            return Err(ZkRegError::Encode);
        },
    };
    let mut path = ins.appid.clone();
    path.append("/");
    path.append(leaf.as_str());
    proof {
        reveal_strlit("/");
        assert("/"@ =~= seq!['/']);
    }
    Ok(path)
}

/// Where the engine stands between node operations.
pub enum RegPhase {
    /// Walking the ancestor list; nothing outstanding.
    Ancestors,
    /// An existence check for the current ancestor is outstanding.
    AwaitExists,
    /// A persistent create of the current ancestor is outstanding.
    AwaitCreate,
    /// The ancestors are done; the leaf is next.
    Leaf,
    /// The leaf create is outstanding.
    AwaitLeaf,
    /// The run is over with this outcome.
    Done(Result<(), ZkRegError>),
}

/// What the engine asks its driver to do next.
pub enum RegAction {
    /// Nothing to perform; call `step` again with no reply.
    Continue,
    /// Ask the coordination service whether this path exists.
    CheckExists(String),
    /// Create this node, ephemeral or persistent, with empty payload and
    /// open access.
    Create { path: String, ephemeral: bool },
    /// The registration is over.
    Finished(Result<(), ZkRegError>),
}

/// The driver's report on the last action.
#[derive(Debug, Clone, Copy)]
pub enum CoordReply {
    /// Outcome of a `CheckExists`: whether the node exists, or the failure.
    Exists(Result<bool, CoordError>),
    /// Outcome of a `Create`.
    Done(Result<(), CoordError>),
}

/// Mathematical state of a registration run.
#[verifier::ext_equal]
pub ghost struct RegModel {
    pub leaf: Seq<char>,
    pub ancestors: Seq<Seq<char>>,
    pub idx: int,
    pub ephemeral: bool,
    pub phase: RegPhase,
}

/// One registration in progress: the precomputed leaf path and ancestor
/// chain, and how far the run has come.
pub struct RegTask {
    leaf_path: String,
    ancestors: Vec<String>,
    idx: usize,
    ephemeral: bool,
    phase: RegPhase,
}

impl View for RegTask {
    type V = RegModel;

    closed spec fn view(&self) -> RegModel {
        RegModel {
            leaf: self.leaf_path@,
            ancestors: strs_model(self.ancestors@),
            idx: self.idx as int,
            ephemeral: self.ephemeral,
            phase: self.phase,
        }
    }
}

impl RegTask {
    /// The engine's internal invariant.
    pub open spec fn inv(m: RegModel) -> bool {
        &&& 0 <= m.idx <= m.ancestors.len()
        &&& ((m.phase is AwaitExists || m.phase is AwaitCreate) ==> m.idx < m.ancestors.len())
    }

    /// The reply shape each phase expects.
    pub open spec fn expects(m: RegModel, reply: Option<CoordReply>) -> bool {
        match m.phase {
            RegPhase::Ancestors => reply is None,
            RegPhase::Leaf => reply is None,
            RegPhase::AwaitExists => reply matches Some(CoordReply::Exists(_)),
            RegPhase::AwaitCreate => reply matches Some(CoordReply::Done(_)),
            RegPhase::AwaitLeaf => reply matches Some(CoordReply::Done(_)),
            RegPhase::Done(_) => reply is None,
        }
    }

    /// The transition relation of [`RegTask::step`]: given the state, the
    /// reply, and the cache before, it fixes the state, the cache, and the
    /// action after.
    ///
    /// Reading the leaf cases: a persistent leaf already in the cache
    /// finishes at once without a create; the leaf create uses the ephemeral
    /// mode chosen from the metadata; any failure of the leaf create,
    /// "already exists" included, finishes the run with that `CreatePath`
    /// error. An ancestor that exists is tolerated and cached; an ancestor
    /// create that reports "already exists" is tolerated.
    pub open spec fn step_post(
        pre: RegModel,
        reply: Option<CoordReply>,
        c0: Set<Seq<char>>,
        post: RegModel,
        c1: Set<Seq<char>>,
        r: RegAction,
    ) -> bool {
        &&& post.leaf == pre.leaf
        &&& post.ancestors == pre.ancestors
        &&& post.ephemeral == pre.ephemeral
        &&& match pre.phase {
            RegPhase::Ancestors => {
                &&& c1 == c0
                &&& if pre.idx < pre.ancestors.len() {
                    if c0.contains(pre.ancestors[pre.idx]) {
                        post.idx == pre.idx + 1 && post.phase is Ancestors && r is Continue
                    } else {
                        post.idx == pre.idx && post.phase is AwaitExists && (
                        r matches RegAction::CheckExists(p) && p@ == pre.ancestors[pre.idx])
                    }
                } else {
                    post.idx == pre.idx && post.phase is Leaf && r is Continue
                }
            },
            RegPhase::Leaf => {
                &&& c1 == c0
                &&& post.idx == pre.idx
                &&& if !pre.ephemeral && c0.contains(pre.leaf) {
                    &&& post.phase matches RegPhase::Done(res) && res is Ok
                    &&& r matches RegAction::Finished(res) && res is Ok
                } else {
                    &&& post.phase is AwaitLeaf
                    &&& r matches RegAction::Create { path, ephemeral } && path@ == pre.leaf
                        && ephemeral == pre.ephemeral
                }
            },
            RegPhase::AwaitExists => {
                match reply {
                    Some(CoordReply::Exists(Ok(true))) => {
                        &&& c1 == c0.insert(pre.ancestors[pre.idx])
                        &&& post.idx == pre.idx + 1
                        &&& post.phase is Ancestors
                        &&& r is Continue
                    },
                    Some(CoordReply::Exists(Ok(false))) => {
                        &&& c1 == c0
                        &&& post.idx == pre.idx
                        &&& post.phase is AwaitCreate
                        &&& r matches RegAction::Create { path, ephemeral } && path@
                            == pre.ancestors[pre.idx] && !ephemeral
                    },
                    Some(CoordReply::Exists(Err(e))) => {
                        &&& c1 == c0
                        &&& post.idx == pre.idx
                        &&& post.phase matches RegPhase::Done(res2) && res2 == Err::<
                            (),
                            ZkRegError,
                        >(ZkRegError::CreatePath(e))
                        &&& r matches RegAction::Finished(res3) && res3 == Err::<(), ZkRegError>(
                            ZkRegError::CreatePath(e),
                        )
                    },
                    _ => false,
                }
            },
            RegPhase::AwaitCreate => {
                match reply {
                    Some(CoordReply::Done(res)) => {
                        match res {
                            Ok(_) => {
                                &&& c1 == c0.insert(pre.ancestors[pre.idx])
                                &&& post.idx == pre.idx + 1
                                &&& post.phase is Ancestors
                                &&& r is Continue
                            },
                            Err(CoordError::NodeExists) => {
                                &&& c1 == c0
                                &&& post.idx == pre.idx + 1
                                &&& post.phase is Ancestors
                                &&& r is Continue
                            },
                            Err(e) => {
                                &&& c1 == c0
                                &&& post.idx == pre.idx
                                &&& post.phase matches RegPhase::Done(res2) && res2 == Err::<
                                    (),
                                    ZkRegError,
                                >(ZkRegError::CreatePath(e))
                                &&& r matches RegAction::Finished(res3) && res3 == Err::<
                                    (),
                                    ZkRegError,
                                >(ZkRegError::CreatePath(e))
                            },
                        }
                    },
                    _ => false,
                }
            },
            RegPhase::AwaitLeaf => {
                match reply {
                    Some(CoordReply::Done(res)) => {
                        &&& c1 == c0
                        &&& post.idx == pre.idx
                        &&& match res {
                            Ok(_) => {
                                &&& post.phase matches RegPhase::Done(res2) && res2 is Ok
                                &&& r matches RegAction::Finished(res3) && res3 is Ok
                            },
                            Err(e) => {
                                &&& post.phase matches RegPhase::Done(res2) && res2 == Err::<
                                    (),
                                    ZkRegError,
                                >(ZkRegError::CreatePath(e))
                                &&& r matches RegAction::Finished(res3) && res3 == Err::<
                                    (),
                                    ZkRegError,
                                >(ZkRegError::CreatePath(e))
                            },
                        }
                    },
                    _ => false,
                }
            },
            RegPhase::Done(res) => {
                &&& c1 == c0
                &&& post == pre
                &&& r matches RegAction::Finished(res2) && res2 == res
            },
        }
    }

    /// Plans the registration of an instance: the ephemeral mode from the
    /// metadata, the leaf path from the encoder, the ancestors from the
    /// appid. It fails as `Encode` exactly when building the leaf path does.
    pub fn new<E: Encoder>(ins: &Instance, encoder: &E) -> (r: Result<RegTask, ZkRegError>)
        requires
            encoder.valid_input(ins@),
            wf_appid(ins@.appid),
        ensures
            (r matches Ok(t) ==> {
                &&& Self::inv(t@)
                &&& t@.phase is Ancestors
                &&& t@.idx == 0
                &&& t@.ephemeral == spec_is_dynamic(ins@.metadata)
                &&& valid_utf8(encoder.model(ins@))
                &&& t@.leaf == leaf_path_spec(ins@, encoder.model(ins@))
                &&& t@.ancestors == ancestors_spec(ins@.appid)
            }),
            (r matches Err(e) ==> e == ZkRegError::Encode && ((exists|
                e2: <E as Encoder>::Error,
            |
                encoder.post(ins@, Err(e2))) || !valid_utf8(encoder.model(ins@)))),
    {
        let ephemeral = is_dynamic(&ins.metadata);
        let path = match leaf_path(ins, encoder) {
            Ok(p) => p,
            Err(e) => {
                return Err(e);
            },
        };
        let ancestors = ancestors_of(ins.appid.as_str());
        Ok(RegTask { leaf_path: path, ancestors, idx: 0, ephemeral, phase: RegPhase::Ancestors })
    }

    /// One step of the engine: consumes the reply to the previous action and
    /// yields the next one, updating the cache as the replies teach it about
    /// the tree.
    pub fn step(&mut self, reply: Option<CoordReply>, cache: &mut PathCache) -> (r: RegAction)
        requires
            Self::inv(old(self)@),
            Self::expects(old(self)@, reply),
        ensures
            Self::inv(final(self)@),
            Self::step_post(old(self)@, reply, old(cache)@, final(self)@, final(cache)@, r),
    {
        proof {
            assert(strs_model(self.ancestors@).len() == self.ancestors@.len());
        }
        match self.phase {
            RegPhase::Ancestors => {
                if self.idx < self.ancestors.len() {
                    if cache.contains(self.ancestors[self.idx].as_str()) {
                        self.idx = self.idx + 1;
                        RegAction::Continue
                    } else {
                        self.phase = RegPhase::AwaitExists;
                        RegAction::CheckExists(self.ancestors[self.idx].clone())
                    }
                } else {
                    self.phase = RegPhase::Leaf;
                    RegAction::Continue
                }
            },
            RegPhase::Leaf => {
                if !self.ephemeral && cache.contains(self.leaf_path.as_str()) {
                    self.phase = RegPhase::Done(Ok(()));
                    RegAction::Finished(Ok(()))
                } else {
                    self.phase = RegPhase::AwaitLeaf;
                    RegAction::Create { path: self.leaf_path.clone(), ephemeral: self.ephemeral }
                }
            },
            RegPhase::AwaitExists => {
                match reply {
                    Some(CoordReply::Exists(Ok(true))) => {
                        assert(self.idx < self.ancestors.len());
                        cache.insert(self.ancestors[self.idx].clone());
                        self.idx = self.idx + 1;
                        self.phase = RegPhase::Ancestors;
                        RegAction::Continue
                    },
                    Some(CoordReply::Exists(Ok(false))) => {
                        self.phase = RegPhase::AwaitCreate;
                        RegAction::Create {
                            path: self.ancestors[self.idx].clone(),
                            ephemeral: false,
                        }
                    },
                    Some(CoordReply::Exists(Err(e))) => {
                        self.phase = RegPhase::Done(Err(ZkRegError::CreatePath(e)));
                        RegAction::Finished(Err(ZkRegError::CreatePath(e)))
                    },
                    _ => {
                        assert(false);
                        RegAction::Continue
                    },
                }
            },
            RegPhase::AwaitCreate => {
                match reply {
                    Some(CoordReply::Done(res)) => {
                        match res {
                            Ok(_) => {
                                assert(self.idx < self.ancestors.len());
                                cache.insert(self.ancestors[self.idx].clone());
                                self.idx = self.idx + 1;
                                self.phase = RegPhase::Ancestors;
                                RegAction::Continue
                            },
                            Err(CoordError::NodeExists) => {
                                assert(self.idx < self.ancestors.len());
                                self.idx = self.idx + 1;
                                self.phase = RegPhase::Ancestors;
                                RegAction::Continue
                            },
                            Err(e) => {
                                self.phase = RegPhase::Done(
                                    Err(ZkRegError::CreatePath(e)),
                                );
                                RegAction::Finished(Err(ZkRegError::CreatePath(e)))
                            },
                        }
                    },
                    _ => {
                        assert(false);
                        RegAction::Continue
                    },
                }
            },
            RegPhase::AwaitLeaf => {
                match reply {
                    Some(CoordReply::Done(res)) => {
                        match res {
                            Ok(_) => {
                                self.phase = RegPhase::Done(Ok(()));
                                RegAction::Finished(Ok(()))
                            },
                            Err(e) => {
                                self.phase = RegPhase::Done(
                                    Err(ZkRegError::CreatePath(e)),
                                );
                                RegAction::Finished(Err(ZkRegError::CreatePath(e)))
                            },
                        }
                    },
                    _ => {
                        assert(false);
                        RegAction::Continue
                    },
                }
            },
            RegPhase::Done(res) => { RegAction::Finished(res) },
        }
    }
}

/// Recomputes the instance's leaf path, records it in the cache, and hands it
/// back for deletion; the deterministic encoder guarantees it is the path
/// registration used. It fails as `Encode` exactly when building the leaf
/// path does.
pub fn deregister_path<E: Encoder>(ins: &Instance, encoder: &E, cache: &mut PathCache) -> (r:
    Result<String, ZkRegError>)
    requires
        encoder.valid_input(ins@),
    ensures
        (r matches Ok(p) ==> valid_utf8(encoder.model(ins@)) && p@ == leaf_path_spec(
            ins@,
            encoder.model(ins@),
        ) && final(cache)@ == old(cache)@.insert(p@)),
        (r matches Err(e) ==> e == ZkRegError::Encode && final(cache)@ == old(cache)@ && ((exists|
            e2: <E as Encoder>::Error,
        |
            encoder.post(ins@, Err(e2))) || !valid_utf8(encoder.model(ins@)))),
{
    let p = match leaf_path(ins, encoder) {
        Ok(p) => p,
        Err(e) => {
            return Err(e);
        },
    };
    cache.insert(p.clone());
    Ok(p)
}

/// Turns the delete outcome of a deregistration into its result: a missing
/// node is surfaced as a `DeletePath` error.
pub fn deregister_result(r: Result<(), CoordError>) -> (out: Result<(), ZkRegError>)
    ensures
        (r matches Ok(_) ==> out is Ok),
        (r matches Err(e) ==> out == Err::<(), ZkRegError>(ZkRegError::DeletePath(e))),
{
    match r {
        Ok(_) => Ok(()),
        Err(e) => Err(ZkRegError::DeletePath(e)),
    }
}


/// A model of the coordination tree: each existing path, mapped to whether it
/// is ephemeral. It answers the engine the way a live coordinator free of
/// concurrent writers would: existence checks read it, creates insert or
/// report an existing node, deletes remove or report a missing one, and the
/// end of a session erases every ephemeral node.
pub type TreeModel = Map<Seq<char>, bool>;

/// Ensuring one ancestor against the tree: skipped when cached; cached when
/// seen to exist; created persistent and cached when absent.
pub open spec fn ensure_one(a: Seq<char>, c: Set<Seq<char>>, t: TreeModel) -> (
    Set<Seq<char>>,
    TreeModel,
) {
    if c.contains(a) {
        (c, t)
    } else if t.contains_key(a) {
        (c.insert(a), t)
    } else {
        (c.insert(a), t.insert(a, false))
    }
}

/// Ensuring a chain of ancestors, shallowest first.
pub open spec fn ensure_all(ancs: Seq<Seq<char>>, c: Set<Seq<char>>, t: TreeModel) -> (
    Set<Seq<char>>,
    TreeModel,
)
    decreases ancs.len(),
{
    if ancs.len() == 0 {
        (c, t)
    } else {
        let (c1, t1) = ensure_one(ancs[0], c, t);
        ensure_all(ancs.drop_first(), c1, t1)
    }
}

/// A registration run of the engine against the tree: ancestors ensured, then
/// the leaf. A cached persistent leaf finishes without a create; a leaf that
/// exists is a `CreatePath` failure; otherwise the leaf node is created with
/// the chosen mode.
pub open spec fn reg_run(
    ancs: Seq<Seq<char>>,
    leaf: Seq<char>,
    eph: bool,
    c: Set<Seq<char>>,
    t: TreeModel,
) -> (Result<(), ZkRegError>, Set<Seq<char>>, TreeModel) {
    let (c1, t1) = ensure_all(ancs, c, t);
    if !eph && c1.contains(leaf) {
        (Ok(()), c1, t1)
    } else if t1.contains_key(leaf) {
        (Err(ZkRegError::CreatePath(CoordError::NodeExists)), c1, t1)
    } else {
        (Ok(()), c1, t1.insert(leaf, eph))
    }
}

/// A deregistration run: the leaf path goes into the cache, then the node is
/// deleted; a missing node is a `DeletePath` failure.
pub open spec fn dereg_run(leaf: Seq<char>, c: Set<Seq<char>>, t: TreeModel) -> (
    Result<(), ZkRegError>,
    Set<Seq<char>>,
    TreeModel,
) {
    let c1 = c.insert(leaf);
    if t.contains_key(leaf) {
        (Ok(()), c1, t.remove(leaf))
    } else {
        (Err(ZkRegError::DeletePath(CoordError::NoNode)), c1, t)
    }
}

/// The end of the creating session: every ephemeral node disappears; the
/// persistent ones stay.
pub open spec fn session_end(t: TreeModel) -> TreeModel {
    Map::new(|p: Seq<char>| t.contains_key(p) && !t[p], |p: Seq<char>| t[p])
}

/// Every ancestor is a prefix of the appid, so no longer than it.
proof fn lemma_prefix_slashes_len(a: Seq<char>, n: int)
    requires
        n <= a.len(),
    ensures
        forall|i: int|
            0 <= i < prefix_slashes(a, n).len() ==> #[trigger] prefix_slashes(a, n)[i].len() < n,
    decreases n,
{
    if n <= 1 {
    } else {
        lemma_prefix_slashes_len(a, n - 1);
        assert forall|i: int|
            0 <= i < prefix_slashes(a, n).len() implies #[trigger] prefix_slashes(
            a,
            n,
        )[i].len() < n by {
            if i < prefix_slashes(a, n - 1).len() {
                assert(prefix_slashes(a, n)[i] == prefix_slashes(a, n - 1)[i]);
            } else {
                assert(prefix_slashes(a, n)[i] == a.take(n - 1));
            }
        }
    }
}

/// The leaf path of an instance is none of its ancestors: every ancestor is
/// at most as long as the appid, and the leaf path is strictly longer. The
/// premise of the registration laws below therefore holds of every real
/// registration.
pub proof fn lemma_leaf_not_ancestor(x: InstanceModel, enc: Seq<u8>)
    ensures
        forall|i: int|
            0 <= i < ancestors_spec(x.appid).len() ==> #[trigger] ancestors_spec(x.appid)[i]
                != leaf_path_spec(x, enc),
{
    let a = x.appid;
    let leaf = leaf_path_spec(x, enc);
    assert(leaf.len() > a.len());
    lemma_prefix_slashes_len(a, a.len() as int);
    assert forall|i: int|
        0 <= i < ancestors_spec(a).len() implies #[trigger] ancestors_spec(a)[i] != leaf by {
        if i < prefix_slashes(a, a.len() as int).len() {
            assert(ancestors_spec(a)[i] == prefix_slashes(a, a.len() as int)[i]);
            assert(ancestors_spec(a)[i].len() < a.len());
        } else {
            assert(ancestors_spec(a)[i] == a);
        }
    }
}

/// Ensuring ancestors touches nothing else: any path that is not among them
/// keeps its cache membership and its tree node, mode included.
pub proof fn lemma_ensure_all_frame(
    ancs: Seq<Seq<char>>,
    c: Set<Seq<char>>,
    t: TreeModel,
    p: Seq<char>,
)
    requires
        forall|i: int| 0 <= i < ancs.len() ==> #[trigger] ancs[i] != p,
    ensures
        ({
            let (c1, t1) = ensure_all(ancs, c, t);
            &&& c1.contains(p) == c.contains(p)
            &&& t1.contains_key(p) == t.contains_key(p)
            &&& (t.contains_key(p) ==> t1[p] == t[p])
        }),
    decreases ancs.len(),
{
    if ancs.len() == 0 {
    } else {
        let (ca, ta) = ensure_one(ancs[0], c, t);
        assert(forall|i: int|
            0 <= i < ancs.drop_first().len() ==> #[trigger] ancs.drop_first()[i] == ancs[i + 1]);
        lemma_ensure_all_frame(ancs.drop_first(), ca, ta, p);
    }
}

/// Registering and then deregistering an instance leaves no node under its
/// appid with the instance's leaf name, whatever the tree and the cache held
/// before: deregistration recomputes the leaf path registration used (the
/// encoder is deterministic) and deletes exactly it.
pub proof fn lemma_register_deregister_clears(
    ancs: Seq<Seq<char>>,
    leaf: Seq<char>,
    eph: bool,
    c: Set<Seq<char>>,
    t: TreeModel,
)
    requires
        forall|i: int| 0 <= i < ancs.len() ==> #[trigger] ancs[i] != leaf,
    ensures
        ({
            let (r1, c1, t1) = reg_run(ancs, leaf, eph, c, t);
            let (r2, c2, t2) = dereg_run(leaf, c1, t1);
            &&& !t2.contains_key(leaf)
            &&& (r1 is Ok && t1.contains_key(leaf) ==> r2 is Ok)
        }),
{
    lemma_ensure_all_frame(ancs, c, t, leaf);
}

/// Registering twice without a deregistration in between fails the second
/// time with a `CreatePath` "node exists" error, in either mode: the first
/// run created the leaf, and a leaf create never tolerates an existing node.
pub proof fn lemma_register_twice_fails(
    ancs: Seq<Seq<char>>,
    leaf: Seq<char>,
    eph: bool,
    c: Set<Seq<char>>,
    t: TreeModel,
)
    requires
        forall|i: int| 0 <= i < ancs.len() ==> #[trigger] ancs[i] != leaf,
        !c.contains(leaf),
        !t.contains_key(leaf),
    ensures
        ({
            let (r1, c1, t1) = reg_run(ancs, leaf, eph, c, t);
            let (r2, c2, t2) = reg_run(ancs, leaf, eph, c1, t1);
            &&& r1 is Ok
            &&& r2 == Err::<(), ZkRegError>(ZkRegError::CreatePath(CoordError::NodeExists))
        }),
{
    lemma_ensure_all_frame(ancs, c, t, leaf);
    let (r1, c1, t1) = reg_run(ancs, leaf, eph, c, t);
    lemma_ensure_all_frame(ancs, c1, t1, leaf);
}

/// The mode of the created leaf follows the metadata: a registration that
/// finds neither cache entry nor existing node creates its leaf marked
/// ephemeral exactly when the engine's mode flag says so, and
/// [`RegTask::new`] fixes that flag to `metadata["dynamic"]` being absent or
/// `"true"`.
pub proof fn lemma_leaf_mode(
    ancs: Seq<Seq<char>>,
    leaf: Seq<char>,
    eph: bool,
    c: Set<Seq<char>>,
    t: TreeModel,
)
    requires
        forall|i: int| 0 <= i < ancs.len() ==> #[trigger] ancs[i] != leaf,
        !c.contains(leaf),
        !t.contains_key(leaf),
    ensures
        ({
            let (r1, c1, t1) = reg_run(ancs, leaf, eph, c, t);
            &&& r1 is Ok
            &&& t1.contains_key(leaf)
            &&& t1[leaf] == eph
        }),
{
    lemma_ensure_all_frame(ancs, c, t, leaf);
}

/// An ephemeral registration does not survive its session: when the creating
/// session ends, the leaf is gone without any deregistration; a persistent
/// leaf stays.
pub proof fn lemma_ephemeral_session_end(
    ancs: Seq<Seq<char>>,
    leaf: Seq<char>,
    eph: bool,
    c: Set<Seq<char>>,
    t: TreeModel,
)
    requires
        forall|i: int| 0 <= i < ancs.len() ==> #[trigger] ancs[i] != leaf,
        !c.contains(leaf),
        !t.contains_key(leaf),
    ensures
        ({
            let (r1, c1, t1) = reg_run(ancs, leaf, eph, c, t);
            &&& (eph ==> !session_end(t1).contains_key(leaf))
            &&& (!eph ==> session_end(t1).contains_key(leaf))
        }),
{
    lemma_ensure_all_frame(ancs, c, t, leaf);
}

} // verus!

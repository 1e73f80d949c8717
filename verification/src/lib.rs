//! Service-discovery client core: instances are encoded into path segments of
//! a hierarchical coordination tree, registered under their application id,
//! and watched for membership changes.
use vstd::prelude::*;

pub mod codec;
pub mod escape;
pub mod watcher;
pub mod zk;

verus! {

/// Model of a vector of strings: each as its character sequence.
pub open spec fn strs_model(s: Seq<String>) -> Seq<Seq<char>> {
    s.map_values(|a: String| a@)
}

/// Model of a vector of string pairs: each side as its character sequence.
pub open spec fn pairs_model(s: Seq<(String, String)>) -> Seq<(Seq<char>, Seq<char>)> {
    s.map_values(|p: (String, String)| (p.0@, p.1@))
}

/// The unit of advertisement: one application instance.
///
/// `appid` is a path-like identifier beginning with `/`; `metadata` is a
/// string-to-string mapping held as a key-sorted vector of pairs.
#[derive(Debug, Clone, PartialEq, Eq)]
pub struct Instance {
    pub zone: String,
    pub env: String,
    pub appid: String,
    pub hostname: String,
    pub addrs: Vec<String>,
    pub version: String,
    pub metadata: Vec<(String, String)>,
}

/// Mathematical model of an [`Instance`]: every field as a character sequence.
#[verifier::ext_equal]
pub ghost struct InstanceModel {
    pub zone: Seq<char>,
    pub env: Seq<char>,
    pub appid: Seq<char>,
    pub hostname: Seq<char>,
    pub addrs: Seq<Seq<char>>,
    pub version: Seq<char>,
    pub metadata: Seq<(Seq<char>, Seq<char>)>,
}

impl View for Instance {
    type V = InstanceModel;

    open spec fn view(&self) -> InstanceModel {
        InstanceModel {
            zone: self.zone@,
            env: self.env@,
            appid: self.appid@,
            hostname: self.hostname@,
            addrs: strs_model(self.addrs@),
            version: self.version@,
            metadata: pairs_model(self.metadata@),
        }
    }
}

/// Model of a vector of instances.
pub open spec fn insts_model(s: Seq<Instance>) -> Seq<InstanceModel> {
    s.map_values(|i: Instance| i@)
}

/// The identity of an instance, as the watch engine de-duplicates members:
/// two instances are the same member when they agree on `appid`, `version`,
/// `env` and `addrs`; `hostname`, `zone` and `metadata` do not participate.
pub open spec fn same_identity(a: InstanceModel, b: InstanceModel) -> bool {
    &&& a.appid == b.appid
    &&& a.version == b.version
    &&& a.env == b.env
    &&& a.addrs == b.addrs
}

fn clone_strings(v: &Vec<String>) -> (r: Vec<String>)
    ensures
        strs_model(r@) == strs_model(v@),
{
    let mut out: Vec<String> = Vec::new();
    let n = v.len();
    let mut i: usize = 0;
    while i < n
        invariant
            i <= n,
            n == v@.len(),
            out@.len() == i,
            forall|j: int| 0 <= j < i ==> #[trigger] out@[j]@ == v@[j]@,
        decreases n - i,
    {
        out.push(v[i].clone());
        i = i + 1;
    }
    proof {
        assert(strs_model(out@) =~= strs_model(v@));
    }
    out
}

fn clone_pairs(v: &Vec<(String, String)>) -> (r: Vec<(String, String)>)
    ensures
        pairs_model(r@) == pairs_model(v@),
{
    let mut out: Vec<(String, String)> = Vec::new();
    let n = v.len();
    let mut i: usize = 0;
    while i < n
        invariant
            i <= n,
            n == v@.len(),
            out@.len() == i,
            forall|j: int|
                0 <= j < i ==> #[trigger] out@[j].0@ == v@[j].0@ && out@[j].1@ == v@[j].1@,
        decreases n - i,
    {
        let p = (v[i].0.clone(), v[i].1.clone());
        out.push(p);
        i = i + 1;
    }
    proof {
        assert(pairs_model(out@) =~= pairs_model(v@));
    }
    out
}

impl Instance {
    /// A copy of the instance whose model is the same.
    pub fn duplicate(&self) -> (r: Instance)
        ensures
            r@ == self@,
    {
        let r = Instance {
            zone: self.zone.clone(),
            env: self.env.clone(),
            appid: self.appid.clone(),
            hostname: self.hostname.clone(),
            addrs: clone_strings(&self.addrs),
            version: self.version.clone(),
            metadata: clone_pairs(&self.metadata),
        };
        proof {
            assert(r@ =~= self@);
        }
        r
    }
}

impl Default for Instance {
    /// The empty instance: every field blank.
    fn default() -> (r: Instance)
        ensures
            r@.zone == Seq::<char>::empty(),
            r@.env == Seq::<char>::empty(),
            r@.appid == Seq::<char>::empty(),
            r@.hostname == Seq::<char>::empty(),
            r@.version == Seq::<char>::empty(),
            r@.addrs == Seq::<Seq<char>>::empty(),
            r@.metadata == Seq::<(Seq<char>, Seq<char>)>::empty(),
    {
        let r = Instance {
            zone: String::new(),
            env: String::new(),
            appid: String::new(),
            hostname: String::new(),
            addrs: Vec::new(),
            version: String::new(),
            metadata: Vec::new(),
        };
        proof {
            assert(r@.addrs =~= Seq::<Seq<char>>::empty());
            assert(r@.metadata =~= Seq::<(Seq<char>, Seq<char>)>::empty());
        }
        r
    }
}

/// The final error of a watch stream: the underlying client has ended and no
/// further events will be delivered.
pub struct Terminated;

} // verus!

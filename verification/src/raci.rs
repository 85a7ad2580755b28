//! Responsibility masks: which of the four responsibility roles a
//! caller holds, per function and per artifact.

use vstd::prelude::*;

verus! {

/// The four responsibility roles.
#[derive(Clone, Copy, Debug, PartialEq, Eq, Structural, Hash)]
pub enum RaciRole {
    R,
    A,
    C,
    I,
}

/// A set of granted roles.
#[derive(Debug)]
pub struct RaciMask {
    pub roles: Vec<RaciRole>,
}

impl RaciMask {
    /// Whether the mask grants role `r`.
    pub fn allows(&self, r: RaciRole) -> (b: bool)
        ensures
            b == self.roles@.contains(r),
    {
        let n = self.roles.len();
        let mut i: usize = 0;
        while i < n
            invariant
                i <= n,
                n == self.roles@.len(),
                forall|j: int| 0 <= j < i ==> self.roles@[j] != r,
            decreases n - i,
        {
            if self.roles[i] == r {
                return true;
            }
            i = i + 1;
        }
        false
    }
}

impl Default for RaciMask {
    /// A mask granting nothing.
    fn default() -> (r: Self)
        ensures
            r.roles@.len() == 0,
    {
        RaciMask { roles: Vec::new() }
    }
}

/// The masks of one organizational unit, by function name.
pub struct RaciFunction {
    pub org_unit_id: u32,
    pub roles: Vec<(String, RaciMask)>,
}

/// The mask recorded for one artifact.
pub struct RaciArtifact {
    pub artifact_id: String,
    pub mask: RaciMask,
}

/// First mask recorded for an artifact id.
pub open spec fn artifact_lookup_from(
    arts: Seq<(String, RaciArtifact)>,
    id: Seq<char>,
    i: int,
) -> Option<RaciArtifact>
    decreases arts.len() - i,
{
    if i < 0 || i >= arts.len() {
        None
    } else if arts[i].0@ == id {
        Some(arts[i].1)
    } else {
        artifact_lookup_from(arts, id, i + 1)
    }
}

/// First function entry recorded for an org unit.
pub open spec fn function_lookup_from(
    funs: Seq<(u32, RaciFunction)>,
    ou: u32,
    i: int,
) -> Option<RaciFunction>
    decreases funs.len() - i,
{
    if i < 0 || i >= funs.len() {
        None
    } else if funs[i].0 == ou {
        Some(funs[i].1)
    } else {
        function_lookup_from(funs, ou, i + 1)
    }
}

/// The first unit along the chain (nearest ancestor first) that has a
/// function entry, with that entry.
pub open spec fn chain_hit_from(
    funs: Seq<(u32, RaciFunction)>,
    chain: Seq<u32>,
    i: int,
) -> Option<RaciFunction>
    decreases chain.len() - i,
{
    if i < 0 || i >= chain.len() {
        None
    } else {
        match function_lookup_from(funs, chain[i], 0) {
            Some(f) => Some(f),
            None => chain_hit_from(funs, chain, i + 1),
        }
    }
}

/// A role is granted by some mask of the function entry.
pub open spec fn merged_allows(f: RaciFunction, r: RaciRole) -> bool {
    exists|j: int| 0 <= j < f.roles@.len() && (#[trigger] f.roles@[j]).1.roles@.contains(r)
}

/// Stores of responsibility masks, per org unit and per artifact.
pub struct RaciStore {
    pub functions: Vec<(u32, RaciFunction)>,
    pub artifacts: Vec<(String, RaciArtifact)>,
}

impl RaciStore {
    /// Resolve the mask governing an artifact: the artifact's own mask if
    /// one is recorded; otherwise, for the nearest ancestor unit with a
    /// function entry, the merge of all its masks (any role present
    /// grants); otherwise the empty mask.
    pub fn resolve_for_artifact(&self, artifact_id: &String, org_chain: &Vec<u32>) -> (r: RaciMask)
        ensures
            match artifact_lookup_from(self.artifacts@, artifact_id@, 0) {
                Some(a) => r.roles@ == a.mask.roles@,
                None => match chain_hit_from(self.functions@, org_chain@, 0) {
                    Some(f) => forall|role: RaciRole|
                        #[trigger] r.roles@.contains(role) == merged_allows(f, role),
                    None => r.roles@.len() == 0,
                },
            },
    {
        let an = self.artifacts.len();
        let mut i: usize = 0;
        while i < an
            invariant
                i <= an,
                an == self.artifacts@.len(),
                artifact_lookup_from(self.artifacts@, artifact_id@, 0) == artifact_lookup_from(
                    self.artifacts@,
                    artifact_id@,
                    i as int,
                ),
            decreases an - i,
        {
            if self.artifacts[i].0.eq(artifact_id) {
                let mask = self.artifacts[i].1.mask.clone_mask();
                return mask;
            }
            i = i + 1;
        }
        let cn = org_chain.len();
        let mut c: usize = 0;
        while c < cn
            invariant
                c <= cn,
                cn == org_chain@.len(),
                artifact_lookup_from(self.artifacts@, artifact_id@, 0) is None,
                chain_hit_from(self.functions@, org_chain@, 0) == chain_hit_from(
                    self.functions@,
                    org_chain@,
                    c as int,
                ),
            decreases cn - c,
        {
            let ou = org_chain[c];
            match self.find_function(ou) {
                Some(fi) => {
                    let merged = merge_masks(&self.functions[fi].1);
                    return merged;
                },
                None => {
                },
            }
            c = c + 1;
        }
        RaciMask { roles: Vec::new() }
    }

    fn find_function(&self, ou: u32) -> (r: Option<usize>)
        ensures
            match r {
                Some(i) => i < self.functions@.len() && function_lookup_from(
                    self.functions@,
                    ou,
                    0,
                ) == Some(self.functions@[i as int].1),
                None => function_lookup_from(self.functions@, ou, 0) is None,
            },
    {
        let n = self.functions.len();
        let mut i: usize = 0;
        while i < n
            invariant
                i <= n,
                n == self.functions@.len(),
                function_lookup_from(self.functions@, ou, 0) == function_lookup_from(
                    self.functions@,
                    ou,
                    i as int,
                ),
            decreases n - i,
        {
            if self.functions[i].0 == ou {
                return Some(i);
            }
            i = i + 1;
        }
        None
    }
}

impl RaciMask {
    /// An exact copy of the mask.
    pub fn clone_mask(&self) -> (r: Self)
        ensures
            r.roles@ == self.roles@,
    {
        let mut roles: Vec<RaciRole> = Vec::new();
        let mut i: usize = 0;
        while i < self.roles.len()
            invariant
                i <= self.roles@.len(),
                roles@ =~= self.roles@.subrange(0, i as int),
            decreases self.roles@.len() - i,
        {
            roles.push(self.roles[i]);
            i = i + 1;
        }
        proof {
            assert(roles@ =~= self.roles@);
        }
        RaciMask { roles }
    }
}

/// Merge a function entry's masks: the result grants exactly the roles
/// granted by at least one mask.
fn merge_masks(f: &RaciFunction) -> (r: RaciMask)
    ensures
        forall|role: RaciRole| #[trigger] r.roles@.contains(role) == merged_allows(*f, role),
{
    let mut out: Vec<RaciRole> = Vec::new();
    let n = f.roles.len();
    let mut i: usize = 0;
    while i < n
        invariant
            i <= n,
            n == f.roles@.len(),
            forall|role: RaciRole|
                #[trigger] out@.contains(role) == exists|j: int|
                    0 <= j < i && (#[trigger] f.roles@[j]).1.roles@.contains(role),
        decreases n - i,
    {
        let ghost fr = f.roles@[i as int].1.roles@;
        let mn = f.roles[i].1.roles.len();
        let mut t: usize = 0;
        while t < mn
            invariant
                t <= mn,
                i < n,
                n == f.roles@.len(),
                mn == fr.len(),
                fr == f.roles@[i as int].1.roles@,
                forall|role: RaciRole|
                    #[trigger] out@.contains(role) == ((exists|j: int|
                        0 <= j < i && (#[trigger] f.roles@[j]).1.roles@.contains(role)) || (
                    exists|u: int| 0 <= u < t && fr[u] == role)),
            decreases mn - t,
        {
            let role = f.roles[i].1.roles[t];
            let ghost pre = out@;
            if !contains_role(&out, role) {
                out.push(role);
            }
            proof {
                assert forall|ro: RaciRole|
                    #[trigger] out@.contains(ro) == (pre.contains(ro) || ro == role) by {
                    if pre.contains(ro) {
                        let w = choose|w: int| 0 <= w < pre.len() && pre[w] == ro;
                        assert(out@[w] == ro);
                        assert(out@.contains(ro));
                    }
                    if ro == role {
                        if out@.len() > pre.len() {
                            assert(out@[pre.len() as int] == role);
                        }
                        assert(out@.contains(ro));
                    }
                    if out@.contains(ro) && !pre.contains(ro) {
                        let w = choose|w: int| 0 <= w < out@.len() && out@[w] == ro;
                        if w < pre.len() {
                            assert(pre[w] == ro);
                        } else {
                            assert(out@[w] == role);
                        }
                    }
                }
            }
            t = t + 1;
            proof {
                assert forall|ro: RaciRole|
                    #[trigger] out@.contains(ro) == ((exists|j: int|
                        0 <= j < i && (#[trigger] f.roles@[j]).1.roles@.contains(ro)) || (
                    exists|u: int| 0 <= u < t && fr[u] == ro)) by {
                    let before = (exists|j: int|
                        0 <= j < i && (#[trigger] f.roles@[j]).1.roles@.contains(ro)) || (
                    exists|u: int| 0 <= u < t - 1 && fr[u] == ro);
                    assert(pre.contains(ro) == before);
                    assert(out@.contains(ro) == (before || ro == fr[t - 1]));
                    if exists|u: int| 0 <= u < t && fr[u] == ro {
                        let u = choose|u: int| 0 <= u < t && fr[u] == ro;
                        if u == t - 1 {
                            assert(ro == fr[t - 1]);
                        }
                    }
                }
            }
        }
        i = i + 1;
        proof {
            assert forall|ro: RaciRole|
                #[trigger] out@.contains(ro) == exists|j: int|
                    0 <= j < i && (#[trigger] f.roles@[j]).1.roles@.contains(ro) by {
                if out@.contains(ro) {
                    if exists|u: int| 0 <= u < mn && fr[u] == ro {
                        assert(f.roles@[i - 1].1.roles@.contains(ro));
                    }
                }
                if exists|j: int| 0 <= j < i && (#[trigger] f.roles@[j]).1.roles@.contains(ro) {
                    let j = choose|j: int|
                        0 <= j < i && (#[trigger] f.roles@[j]).1.roles@.contains(ro);
                    if j == i - 1 {
                        let u = choose|u: int| 0 <= u < fr.len() && fr[u] == ro;
                        assert(exists|u2: int| 0 <= u2 < mn && fr[u2] == ro);
                    }
                }
            }
        }
    }
    RaciMask { roles: out }
}

fn contains_role(v: &Vec<RaciRole>, r: RaciRole) -> (b: bool)
    ensures
        b == v@.contains(r),
{
    let n = v.len();
    let mut i: usize = 0;
    while i < n
        invariant
            i <= n,
            n == v@.len(),
            forall|j: int| 0 <= j < i ==> v@[j] != r,
        decreases n - i,
    {
        if v[i] == r {
            return true;
        }
        i = i + 1;
    }
    false
}

} // verus!

//! Organizational hierarchy: units with parents, the ancestor closure,
//! and per-unit descendant scopes held as compressed bitmaps. An external
//! collaborator of the storage core: it consumes ids, never engine state.

use vstd::prelude::*;
use vstd::pervasive::VecAdditionalExecFns;

verus! {

/// The compressed bitmap type of the roaring crate, declared so scopes
/// can hold and hand out bitmap values.
#[verifier::external_type_specification]
#[verifier::external_body]
pub struct ExRoaringBitmap(roaring::RoaringBitmap);

/// What a roaring bitmap holds, as a set of 32-bit values.
pub uninterp spec fn bitmap_set(b: roaring::RoaringBitmap) -> Set<u32>;

/// Relies on roaring's RoaringBitmap::new: an empty bitmap.
#[verifier::external_body]
pub(crate) fn bitmap_new() -> (r: roaring::RoaringBitmap)
    ensures
        bitmap_set(r) == Set::<u32>::empty(),
{
    roaring::RoaringBitmap::new()
}

/// Relies on roaring's RoaringBitmap::insert: adds one value and reports
/// whether it was absent.
#[verifier::external_body]
pub(crate) fn bitmap_insert(b: &mut roaring::RoaringBitmap, v: u32) -> (r: bool)
    ensures
        bitmap_set(*final(b)) == bitmap_set(*old(b)).insert(v),
        r == !bitmap_set(*old(b)).contains(v),
{
    b.insert(v)
}

/// Relies on roaring's RoaringBitmap::contains: membership of one value.
#[verifier::external_body]
pub(crate) fn bitmap_contains(b: &roaring::RoaringBitmap, v: u32) -> (r: bool)
    ensures
        r == bitmap_set(*b).contains(v),
{
    b.contains(v)
}

/// Relies on roaring's Clone for RoaringBitmap: an equal bitmap.
#[verifier::external_body]
pub(crate) fn bitmap_clone(b: &roaring::RoaringBitmap) -> (r: roaring::RoaringBitmap)
    ensures
        bitmap_set(r) == bitmap_set(*b),
{
    b.clone()
}

/// One organizational unit and its parents.
pub struct OrgUnit {
    pub id: u32,
    pub name: String,
    pub parent_ids: Vec<u32>,
}

/// `parent` is a direct parent of the unit with id `child`.
pub open spec fn parent_step(units: Seq<OrgUnit>, child: u32, parent: u32) -> bool {
    exists|i: int|
        0 <= i < units.len() && (#[trigger] units[i]).id == child
            && units[i].parent_ids@.contains(parent)
}

/// `to` is reachable from `from` by walking up at most `fuel` parent steps
/// (at least one).
pub open spec fn reach_up(units: Seq<OrgUnit>, from: u32, to: u32, fuel: nat) -> bool
    decreases fuel,
{
    fuel > 0 && (parent_step(units, from, to) || exists|mid: u32|
        #![auto]
        parent_step(units, from, mid) && reach_up(units, mid, to, (fuel - 1) as nat))
}

/// More fuel never hurts a walk.
proof fn lemma_reach_mono(units: Seq<OrgUnit>, from: u32, to: u32, f1: nat, f2: nat)
    requires
        reach_up(units, from, to, f1),
        f1 <= f2,
    ensures
        reach_up(units, from, to, f2),
    decreases f1,
{
    if parent_step(units, from, to) {
        assert(reach_up(units, from, to, f2));
    } else {
        let mid = choose|mid: u32|
            #![auto]
            parent_step(units, from, mid) && reach_up(units, mid, to, (f1 - 1) as nat);
        lemma_reach_mono(units, mid, to, (f1 - 1) as nat, (f2 - 1) as nat);
        assert(parent_step(units, from, mid) && reach_up(units, mid, to, (f2 - 1) as nat));
        assert(reach_up(units, from, to, f2));
    }
}

/// Extending a walk by one more parent step stays a walk.
proof fn lemma_reach_extend(units: Seq<OrgUnit>, from: u32, mid: u32, to: u32, fuel: nat)
    requires
        reach_up(units, from, mid, fuel),
        parent_step(units, mid, to),
    ensures
        reach_up(units, from, to, fuel + 1),
    decreases fuel,
{
    if parent_step(units, from, mid) {
        assert(reach_up(units, mid, to, 1));
        lemma_reach_mono(units, mid, to, 1, fuel);
        assert(parent_step(units, from, mid) && reach_up(units, mid, to, fuel));
        assert(reach_up(units, from, to, fuel + 1));
    } else {
        let m2 = choose|m2: u32|
            #![auto]
            parent_step(units, from, m2) && reach_up(units, m2, mid, (fuel - 1) as nat);
        lemma_reach_extend(units, m2, mid, to, (fuel - 1) as nat);
        assert(((fuel - 1) as nat) + 1 == fuel);
        assert(parent_step(units, from, m2) && reach_up(units, m2, to, fuel));
        assert(reach_up(units, from, to, fuel + 1));
    }
}

/// First bitmap recorded for a unit id.
pub open spec fn scope_lookup_from(
    scopes: Seq<(u32, roaring::RoaringBitmap)>,
    a: u32,
    i: int,
) -> Option<roaring::RoaringBitmap>
    decreases scopes.len() - i,
{
    if i < 0 || i >= scopes.len() {
        None
    } else if scopes[i].0 == a {
        Some(scopes[i].1)
    } else {
        scope_lookup_from(scopes, a, i + 1)
    }
}

/// The descendants that the closure records under ancestor `a`.
pub open spec fn desc_set(cl: Seq<(u32, u32, u32)>, a: u32) -> Set<u32> {
    Set::new(
        |d: u32| exists|i: int| 0 <= i < cl.len() && (#[trigger] cl[i]).0 == a && cl[i].1 == d,
    )
}

/// The organizational graph: units, the ancestor closure as
/// `(ancestor, descendant, depth)` triples, and per-ancestor descendant
/// bitmaps.
pub struct OrgGraph {
    pub units: Vec<OrgUnit>,
    pub closure: Vec<(u32, u32, u32)>,
    pub scopes: Vec<(u32, roaring::RoaringBitmap)>,
}

impl OrgGraph {
    /// Unit ids are unique (so are scope keys), and the closure is sound:
    /// depth zero entries are the self pairs, and an entry of depth `d`
    /// records a real ancestor reachable within `d` parent steps.
    pub open spec fn wf(&self) -> bool {
        &&& forall|i: int, j: int|
            0 <= i < j < self.units@.len() ==> (#[trigger] self.units@[i]).id != (
            #[trigger] self.units@[j]).id
        &&& forall|i: int, j: int|
            0 <= i < j < self.scopes@.len() ==> (#[trigger] self.scopes@[i]).0 != (
            #[trigger] self.scopes@[j]).0
        &&& closure_sound(self.units@, self.closure@)
    }

    pub fn new() -> (r: Self)
        ensures
            r.wf(),
            r.units@.len() == 0,
            r.closure@.len() == 0,
            r.scopes@.len() == 0,
    {
        OrgGraph { units: Vec::new(), closure: Vec::new(), scopes: Vec::new() }
    }

    /// Insert or replace the unit with this id; all other units are kept.
    pub fn upsert_unit(&mut self, unit: OrgUnit)
        requires
            old(self).wf(),
        ensures
            final(self).units@.len() <= old(self).units@.len() + 1,
            exists|i: int|
                0 <= i < final(self).units@.len() && final(self).units@[i] == unit,
            forall|i: int, j: int|
                0 <= i < j < final(self).units@.len() ==> (#[trigger] final(self).units@[i]).id
                    != (#[trigger] final(self).units@[j]).id,
            final(self).closure == old(self).closure,
            final(self).scopes == old(self).scopes,
    {
        let ghost gunit = unit;
        let uid = unit.id;
        let n = self.units.len();
        let mut found: Option<usize> = None;
        let mut i: usize = 0;
        while i < n && found.is_none()
            invariant
                i <= n,
                n == self.units@.len(),
                match found {
                    Some(fi) => fi < n && self.units@[fi as int].id == uid,
                    None => forall|j: int| 0 <= j < i ==> (#[trigger] self.units@[j]).id != uid,
                },
            decreases n - i, (if found is None { 1int } else { 0int }),
        {
            if self.units[i].id == uid {
                found = Some(i);
            } else {
                i = i + 1;
            }
        }
        match found {
            Some(fi) => {
                self.units.set(fi, unit);
                proof {
                    assert(self.units@[fi as int] == gunit);
                    assert forall|a: int, b: int|
                        0 <= a < b < self.units@.len() implies (#[trigger] self.units@[a]).id != (
                    #[trigger] self.units@[b]).id by {
                        if a == fi as int {
                            assert(self.units@[b] == old(self).units@[b]);
                            assert(old(self).units@[b].id != old(self).units@[fi as int].id);
                        } else if b == fi as int {
                            assert(self.units@[a] == old(self).units@[a]);
                            assert(old(self).units@[a].id != old(self).units@[fi as int].id);
                        } else {
                            assert(self.units@[a] == old(self).units@[a]);
                            assert(self.units@[b] == old(self).units@[b]);
                        }
                    }
                }
            },
            None => {
                self.units.push(unit);
                proof {
                    assert(self.units@[self.units@.len() - 1] == gunit);
                    assert forall|a: int, b: int|
                        0 <= a < b < self.units@.len() implies (#[trigger] self.units@[a]).id != (
                    #[trigger] self.units@[b]).id by {
                        if b == self.units@.len() - 1 {
                            assert(self.units@[a] == old(self).units@[a]);
                        }
                    }
                }
            },
        }
    }
}

/// Every closure entry is justified: depth zero entries are self pairs,
/// and a depth-`d` entry's ancestor is reachable from its descendant in at
/// most `d` parent steps.
pub open spec fn closure_sound(units: Seq<OrgUnit>, cl: Seq<(u32, u32, u32)>) -> bool {
    forall|i: int|
        0 <= i < cl.len() ==> {
            let e = #[trigger] cl[i];
            if e.2 == 0 {
                e.0 == e.1
            } else {
                reach_up(units, e.1, e.0, e.2 as nat)
            }
        }
}

/// The closure records triple `(a, d, dep)`.
pub open spec fn closure_has(cl: Seq<(u32, u32, u32)>, a: u32, d: u32, dep: u32) -> bool {
    exists|i: int| 0 <= i < cl.len() && #[trigger] cl[i] == (a, d, dep)
}

/// Every scope bitmap only holds descendants the closure records for its
/// key.
pub open spec fn scopes_sound(
    scopes: Seq<(u32, roaring::RoaringBitmap)>,
    cl: Seq<(u32, u32, u32)>,
) -> bool {
    forall|i: int|
        0 <= i < scopes.len() ==> (forall|d: u32|
            bitmap_set((#[trigger] scopes[i]).1).contains(d) ==> desc_set(cl, (scopes[i]).0).contains(
                d,
            ))
}

impl OrgGraph {
    /// Recompute the ancestor closure by levels: level zero is the self
    /// pairs, and each further level adds the parents of the previous
    /// level's ancestors (an entry's depth is the level that first reached
    /// it), up to as many levels as there are units; then rebuild the
    /// per-ancestor descendant bitmaps from the closure. Every entry is
    /// sound: a depth-`d` entry records an ancestor reachable in at most
    /// `d` parent steps.
    pub fn rebuild_closure(&mut self)
        requires
            forall|i: int, j: int|
                0 <= i < j < old(self).units@.len() ==> (#[trigger] old(self).units@[i]).id != (
                #[trigger] old(self).units@[j]).id,
        ensures
            final(self).wf(),
            final(self).units == old(self).units,
            forall|i: int|
                0 <= i < final(self).units@.len() ==> closure_has(
                    final(self).closure@,
                    (#[trigger] final(self).units@[i]).id,
                    final(self).units@[i].id,
                    0,
                ),
            scopes_sound(final(self).scopes@, final(self).closure@),
    {
        let n = self.units.len();
        let mut cl: Vec<(u32, u32, u32)> = Vec::new();
        let mut ui: usize = 0;
        while ui < n
            invariant
                ui <= n,
                n == self.units@.len(),
                *self == *old(self),
                closure_sound(self.units@, cl@),
                forall|j: int|
                    0 <= j < ui ==> closure_has(
                        cl@,
                        (#[trigger] self.units@[j]).id,
                        self.units@[j].id,
                        0,
                    ),
            decreases n - ui,
        {
            let id = self.units[ui].id;
            let ghost pre = cl@;
            cl.push((id, id, 0));
            proof {
                assert(cl@[pre.len() as int] == (id, id, 0u32));
                assert forall|j: int| 0 <= j <= ui implies closure_has(
                    cl@,
                    (#[trigger] self.units@[j]).id,
                    self.units@[j].id,
                    0,
                ) by {
                    if j < ui {
                        let w = choose|w: int|
                            0 <= w < pre.len() && #[trigger] pre[w] == (
                                self.units@[j].id,
                                self.units@[j].id,
                                0u32,
                            );
                        assert(cl@[w] == (self.units@[j].id, self.units@[j].id, 0u32));
                    }
                }
            }
            ui = ui + 1;
        }
        let max_rounds: usize = if n < 0xFFFF_FFFEusize {
            n
        } else {
            0xFFFF_FFFE
        };
        let mut round: u32 = 1;
        let mut r: usize = 1;
        while r <= max_rounds
            invariant
                1 <= r <= max_rounds + 1,
                max_rounds <= 0xFFFF_FFFE,
                round == r,
                n == self.units@.len(),
                *self == *old(self),
                closure_sound(self.units@, cl@),
                forall|j: int|
                    0 <= j < n ==> closure_has(
                        cl@,
                        (#[trigger] self.units@[j]).id,
                        self.units@[j].id,
                        0,
                    ),
            decreases max_rounds + 1 - r,
        {
            let snapshot = cl.len();
            let mut e: usize = 0;
            while e < snapshot
                invariant
                    e <= snapshot <= cl@.len(),
                    n == self.units@.len(),
                    *self == *old(self),
                    1 <= round,
                    closure_sound(self.units@, cl@),
                    forall|j: int|
                        0 <= j < n ==> closure_has(
                            cl@,
                            (#[trigger] self.units@[j]).id,
                            self.units@[j].id,
                            0,
                        ),
                decreases snapshot - e,
            {
                let entry = cl[e];
                if entry.2 == round - 1 {
                    match self.find_unit(entry.0) {
                        Some(u) => {
                            let pn = self.units[u].parent_ids.len();
                            let mut p: usize = 0;
                            while p < pn
                                invariant
                                    p <= pn,
                                    snapshot <= cl@.len(),
                                    u < n == self.units@.len(),
                                    pn == self.units@[u as int].parent_ids@.len(),
                                    *self == *old(self),
                                    e < cl@.len(),
                                    cl@[e as int] == entry,
                                    self.units@[u as int].id == entry.0,
                                    entry.2 == round - 1,
                                    1 <= round,
                                    closure_sound(self.units@, cl@),
                                    forall|j: int|
                                        0 <= j < n ==> closure_has(
                                            cl@,
                                            (#[trigger] self.units@[j]).id,
                                            self.units@[j].id,
                                            0,
                                        ),
                                decreases pn - p,
                            {
                                let parent = self.units[u].parent_ids[p];
                                proof {
                                    assert(self.units@[u as int].parent_ids@.contains(parent));
                                    assert(parent_step(self.units@, entry.0, parent));
                                    if entry.2 == 0 {
                                        assert(entry.0 == entry.1);
                                        assert(reach_up(self.units@, entry.1, parent, 1));
                                        lemma_reach_mono(
                                            self.units@,
                                            entry.1,
                                            parent,
                                            1,
                                            round as nat,
                                        );
                                    } else {
                                        assert(reach_up(
                                            self.units@,
                                            entry.1,
                                            entry.0,
                                            entry.2 as nat,
                                        ));
                                        lemma_reach_extend(
                                            self.units@,
                                            entry.1,
                                            entry.0,
                                            parent,
                                            entry.2 as nat,
                                        );
                                        assert(entry.2 + 1 == round);
                                    }
                                    assert(reach_up(self.units@, entry.1, parent, round as nat));
                                }
                                let ghost pre = cl@;
                                cl.push((parent, entry.1, round));
                                proof {
                                    assert forall|j: int| 0 <= j < n implies closure_has(
                                        cl@,
                                        (#[trigger] self.units@[j]).id,
                                        self.units@[j].id,
                                        0,
                                    ) by {
                                        let w = choose|w: int|
                                            0 <= w < pre.len() && #[trigger] pre[w] == (
                                                self.units@[j].id,
                                                self.units@[j].id,
                                                0u32,
                                            );
                                        assert(cl@[w] == (self.units@[j].id, self.units@[j].id,
                                        0u32));
                                    }
                                }
                                p = p + 1;
                            }
                        },
                        None => {
                        },
                    }
                }
                e = e + 1;
            }
            round = round + 1;
            r = r + 1;
        }
        // descendant bitmaps, one per ancestor that the closure mentions
        let mut scopes: Vec<(u32, roaring::RoaringBitmap)> = Vec::new();
        let cn = cl.len();
        let mut ci: usize = 0;
        while ci < cn
            invariant
                ci <= cn,
                cn == cl@.len(),
                forall|i: int, j: int|
                    0 <= i < j < scopes@.len() ==> (#[trigger] scopes@[i]).0 != (
                    #[trigger] scopes@[j]).0,
                scopes_sound(scopes@, cl@),
            decreases cn - ci,
        {
            let a = cl[ci].0;
            let d = cl[ci].1;
            proof {
                assert(desc_set(cl@, a).contains(d));
            }
            let mut fi: Option<usize> = None;
            let sn = scopes.len();
            let mut s: usize = 0;
            while s < sn && fi.is_none()
                invariant
                    s <= sn,
                    sn == scopes@.len(),
                    match fi {
                        Some(x) => x < sn && scopes@[x as int].0 == a,
                        None => forall|q: int| 0 <= q < s ==> (#[trigger] scopes@[q]).0 != a,
                    },
                decreases sn - s, (if fi is None { 1int } else { 0int }),
            {
                if scopes[s].0 == a {
                    fi = Some(s);
                } else {
                    s = s + 1;
                }
            }
            match fi {
                Some(x) => {
                    let ghost pre = scopes@;
                    proof {
                        assert(forall|i: int, j: int|
                            0 <= i < j < pre.len() ==> (#[trigger] pre[i]).0 != (
                            #[trigger] pre[j]).0);
                        assert(forall|i: int|
                            0 <= i < pre.len() ==> (forall|d2: u32|
                                bitmap_set((#[trigger] pre[i]).1).contains(d2) ==> desc_set(
                                    cl@,
                                    (pre[i]).0,
                                ).contains(d2)));
                    }
                    let mut slot: (u32, roaring::RoaringBitmap) = (a, bitmap_new());
                    scopes.set_and_swap(x, &mut slot);
                    let mut bmp = slot.1;
                    let _fresh = bitmap_insert(&mut bmp, d);
                    let mut back: (u32, roaring::RoaringBitmap) = (a, bmp);
                    scopes.set_and_swap(x, &mut back);
                    proof {
                        assert(scopes@[x as int].0 == a);
                        assert(pre[x as int].0 == a);
                        assert(bitmap_set(scopes@[x as int].1) == bitmap_set(
                            pre[x as int].1,
                        ).insert(d));
                        assert forall|i: int, j: int|
                            0 <= i < j < scopes@.len() implies (#[trigger] scopes@[i]).0 != (
                        #[trigger] scopes@[j]).0 by {
                            if i != x as int {
                                assert(scopes@[i] == pre[i]);
                            }
                            if j != x as int {
                                assert(scopes@[j] == pre[j]);
                            }
                            assert(pre[i].0 != pre[j].0);
                        }
                        assert forall|i: int|
                            0 <= i < scopes@.len() implies (forall|d2: u32|
                            bitmap_set((#[trigger] scopes@[i]).1).contains(d2) ==> desc_set(
                                cl@,
                                (scopes@[i]).0,
                            ).contains(d2)) by {
                            if i != x as int {
                                assert(scopes@[i] == pre[i]);
                            }
                        }
                    }
                },
                None => {
                    let ghost pre = scopes@;
                    proof {
                        assert(forall|i: int, j: int|
                            0 <= i < j < pre.len() ==> (#[trigger] pre[i]).0 != (
                            #[trigger] pre[j]).0);
                        assert(forall|i: int|
                            0 <= i < pre.len() ==> (forall|d2: u32|
                                bitmap_set((#[trigger] pre[i]).1).contains(d2) ==> desc_set(
                                    cl@,
                                    (pre[i]).0,
                                ).contains(d2)));
                    }
                    let mut bmp = bitmap_new();
                    let _fresh = bitmap_insert(&mut bmp, d);
                    scopes.push((a, bmp));
                    proof {
                        assert(scopes@[pre.len() as int].0 == a);
                        assert forall|i: int, j: int|
                            0 <= i < j < scopes@.len() implies (#[trigger] scopes@[i]).0 != (
                        #[trigger] scopes@[j]).0 by {
                            if j < pre.len() {
                                assert(scopes@[i] == pre[i]);
                                assert(scopes@[j] == pre[j]);
                                assert(pre[i].0 != pre[j].0);
                            } else {
                                assert(scopes@[i] == pre[i]);
                                assert(pre[i].0 != a);
                            }
                        }
                        assert forall|i: int|
                            0 <= i < scopes@.len() implies (forall|d2: u32|
                            bitmap_set((#[trigger] scopes@[i]).1).contains(d2) ==> desc_set(
                                cl@,
                                (scopes@[i]).0,
                            ).contains(d2)) by {
                            if i < pre.len() {
                                assert(scopes@[i] == pre[i]);
                            }
                        }
                    }
                },
            }
            ci = ci + 1;
        }
        self.closure = cl;
        self.scopes = scopes;
    }

    fn find_unit(&self, id: u32) -> (r: Option<usize>)
        ensures
            match r {
                Some(i) => i < self.units@.len() && self.units@[i as int].id == id,
                None => true,
            },
    {
        let n = self.units.len();
        let mut i: usize = 0;
        while i < n
            invariant
                i <= n,
                n == self.units@.len(),
            decreases n - i,
        {
            if self.units[i].id == id {
                return Some(i);
            }
            i = i + 1;
        }
        None
    }

    /// The descendant bitmap recorded for a unit, or an empty bitmap when
    /// none was built.
    pub fn scope_bitmap(&self, unit_id: u32) -> (r: roaring::RoaringBitmap)
        ensures
            match scope_lookup_from(self.scopes@, unit_id, 0) {
                Some(b) => bitmap_set(r) == bitmap_set(b),
                None => bitmap_set(r) == Set::<u32>::empty(),
            },
    {
        let n = self.scopes.len();
        let mut i: usize = 0;
        while i < n
            invariant
                i <= n,
                n == self.scopes@.len(),
                scope_lookup_from(self.scopes@, unit_id, 0) == scope_lookup_from(
                    self.scopes@,
                    unit_id,
                    i as int,
                ),
            decreases n - i,
        {
            if self.scopes[i].0 == unit_id {
                return bitmap_clone(&self.scopes[i].1);
            }
            i = i + 1;
        }
        bitmap_new()
    }
}

} // verus!

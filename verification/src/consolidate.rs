//! The consolidation plan of a duplicate group, and what applying it leaves
//! on disk.
//!
//! Consolidating a group deletes every member's file except the last — the
//! newest by `(created, modified)` — and renames that survivor to its
//! canonical name inside its own directory. The functions here only compute
//! the paths involved; performing the deletions and the rename is the
//! caller's side of the bargain. A directory tree is modeled as a map from
//! full path to file content, over which the effect of a plan is stated and
//! proved.

use vstd::prelude::*;
use vstd::string::StringExecFns;
use crate::grouping::DuplicateGroup;
use crate::names::norm_spec;
use crate::names::normalize;
use crate::records::path_of;

verus! {

/// The filesystem actions that consolidate one duplicate group.
pub struct GroupPlan {
    /// Full paths of the files to delete: every member but the last.
    pub deletions: Vec<String>,
    /// Full path of the survivor, the source of the rename.
    pub survivor_path: String,
    /// Full path the survivor is renamed to: its directory followed by its
    /// normalized base name.
    pub renamed_path: String,
}

/// The plan `p` is exactly the consolidation of group `g`.
pub open spec fn plan_for(g: DuplicateGroup, p: GroupPlan) -> bool {
    &&& g.members@.len() >= 1
    &&& p.deletions@.len() == g.members@.len() - 1
    &&& forall|j: int|
        0 <= j < p.deletions@.len() ==> (#[trigger] p.deletions@[j])@ == path_of(g.members@[j])
    &&& p.survivor_path@ == path_of(g.members@.last())
    &&& p.renamed_path@ == g.members@.last().dir@ + norm_spec(g.members@.last().name@)
}

/// Builds the consolidation plan of one group.
pub fn consolidate_plan(g: &DuplicateGroup) -> (p: GroupPlan)
    requires
        g.members@.len() >= 1,
    ensures
        plan_for(*g, p),
{
    let n = g.members.len();
    let mut deletions: Vec<String> = Vec::new();
    let mut j: usize = 0;
    while j < n - 1
        invariant
            1 <= n == g.members@.len(),
            j <= n - 1,
            deletions@.len() == j,
            forall|t: int| 0 <= t < j ==> (#[trigger] deletions@[t])@ == path_of(g.members@[t]),
        decreases n - 1 - j,
    {
        let m = &g.members[j];
        let full = m.dir.clone().concat(m.name.as_str());
        deletions.push(full);
        j += 1;
    }
    let last = &g.members[n - 1];
    let survivor_path = last.dir.clone().concat(last.name.as_str());
    let canon = normalize(last.name.as_str());
    let renamed_path = last.dir.clone().concat(canon.as_str());
    GroupPlan { deletions, survivor_path, renamed_path }
}

/// The paths a plan deletes, as a set.
pub open spec fn deletion_set(p: GroupPlan) -> Set<Seq<char>> {
    Set::new(
        |q: Seq<char>|
            exists|j: int| 0 <= j < p.deletions@.len() && (#[trigger] p.deletions@[j])@ == q,
    )
}

/// Some member of `g` has `q` as its full path.
pub open spec fn is_member_path(g: DuplicateGroup, q: Seq<char>) -> bool {
    exists|j: int| 0 <= j < g.members@.len() && path_of(#[trigger] g.members@[j]) == q
}

/// The effect of one group's plan on a directory tree, modeled as a map from
/// full path to file content: the deletions are applied, then the survivor's
/// entry moves to the renamed path.
pub open spec fn apply_group_plan(fs: Map<Seq<char>, Seq<u8>>, p: GroupPlan) -> Map<
    Seq<char>,
    Seq<u8>,
> {
    let afterdel = fs.remove_keys(deletion_set(p));
    afterdel.remove(p.survivor_path@).insert(p.renamed_path@, afterdel[p.survivor_path@])
}

/// Consolidating one duplicate group leaves exactly one file of the group on
/// disk: the canonical path holds the content of the group's last — newest —
/// member, every other member path is gone, and every path outside the group
/// is untouched. Stated for groups whose member paths are distinct and all
/// present, and whose canonical path does not collide with a file outside
/// the group (on such a collision the behavior of the rename is left to the
/// filesystem).
pub proof fn lemma_consolidate_group(fs: Map<Seq<char>, Seq<u8>>, g: DuplicateGroup, p: GroupPlan)
    requires
        plan_for(g, p),
        forall|a: int, b: int|
            0 <= a < b < g.members@.len() ==> path_of(g.members@[a]) != path_of(g.members@[b]),
        forall|j: int| 0 <= j < g.members@.len() ==> fs.dom().contains(path_of(#[trigger] g.members@[j])),
        fs.dom().contains(p.renamed_path@) ==> is_member_path(g, p.renamed_path@),
    ensures
        ({
            let out = apply_group_plan(fs, p);
            let n = g.members@.len();
            &&& out.dom().contains(p.renamed_path@)
            &&& out[p.renamed_path@] == fs[path_of(g.members@.last())]
            &&& forall|j: int|
                0 <= j < n && path_of(#[trigger] g.members@[j]) != p.renamed_path@
                    ==> !out.dom().contains(path_of(g.members@[j]))
            &&& forall|q: Seq<char>|
                q != p.renamed_path@ && !is_member_path(g, q) ==> ((
                #[trigger] out.dom().contains(q)) <==> fs.dom().contains(q)) && (out.dom().contains(
                    q,
                ) ==> out[q] == fs[q])
        }),
{
    let n = g.members@.len();
    let sp = p.survivor_path@;
    let dels = deletion_set(p);
    let afterdel = fs.remove_keys(dels);
    let out = apply_group_plan(fs, p);
    assert(sp == path_of(g.members@[n - 1]));
    assert(!dels.contains(sp)) by {
        if dels.contains(sp) {
            let j = choose|j: int| 0 <= j < p.deletions@.len() && (#[trigger] p.deletions@[j])@ == sp;
            assert(path_of(g.members@[j]) == path_of(g.members@[n - 1]));
        }
    }
    assert(afterdel.dom().contains(sp) && afterdel[sp] == fs[sp]);
    assert(out.dom().contains(p.renamed_path@) && out[p.renamed_path@] == fs[sp]);
    assert forall|j: int|
        0 <= j < n && path_of(#[trigger] g.members@[j]) != p.renamed_path@ implies !out.dom().contains(
        path_of(g.members@[j]),
    ) by {
        let q = path_of(g.members@[j]);
        if j < n - 1 {
            assert(p.deletions@[j]@ == q);
            assert(dels.contains(q));
            assert(!afterdel.dom().contains(q));
        } else {
            assert(q == sp);
        }
    }
    assert forall|q: Seq<char>|
        q != p.renamed_path@ && !is_member_path(g, q) implies ((
    #[trigger] out.dom().contains(q)) <==> fs.dom().contains(q)) && (out.dom().contains(q)
        ==> out[q] == fs[q]) by {
        assert(!dels.contains(q)) by {
            if dels.contains(q) {
                let j = choose|j: int|
                    0 <= j < p.deletions@.len() && (#[trigger] p.deletions@[j])@ == q;
                assert(path_of(g.members@[j]) == q);
                assert(is_member_path(g, q));
            }
        }
        assert(q != sp) by {
            if q == sp {
                assert(path_of(g.members@[n - 1]) == q);
                assert(is_member_path(g, q));
            }
        }
    }
}

/// The effect of consolidating every group in turn, first to last.
pub open spec fn apply_plans(fs: Map<Seq<char>, Seq<u8>>, ps: Seq<GroupPlan>) -> Map<
    Seq<char>,
    Seq<u8>,
>
    decreases ps.len(),
{
    if ps.len() == 0 {
        fs
    } else {
        apply_plans(apply_group_plan(fs, ps[0]), ps.drop_first())
    }
}

/// No member of any group has path `q`, and no plan renames onto `q`: the
/// run of plans leaves `q` alone.
pub open spec fn untouched_by(gs: Seq<DuplicateGroup>, ps: Seq<GroupPlan>, q: Seq<char>) -> bool
    recommends
        gs.len() == ps.len(),
{
    forall|i: int|
        0 <= i < gs.len() ==> !is_member_path(#[trigger] gs[i], q) && ps[i].renamed_path@ != q
}

/// Consolidating a whole run of duplicate groups leaves, for each group,
/// exactly one file: the canonical path with the content of that group's
/// newest member. Every other member path of every group is gone, and every
/// path outside the groups is untouched. Stated for groups whose member
/// paths are distinct and all present, and whose canonical paths neither
/// collide with one another, with other groups' files, nor with files
/// outside the groups.
pub proof fn lemma_consolidate_run(
    fs: Map<Seq<char>, Seq<u8>>,
    gs: Seq<DuplicateGroup>,
    ps: Seq<GroupPlan>,
)
    requires
        gs.len() == ps.len(),
        forall|i: int| 0 <= i < gs.len() ==> plan_for(#[trigger] gs[i], ps[i]),
        forall|i: int, a: int, b: int|
            #![trigger gs[i].members@[a], gs[i].members@[b]]
            0 <= i < gs.len() && 0 <= a < b < gs[i].members@.len() ==> path_of(gs[i].members@[a])
                != path_of(gs[i].members@[b]),
        forall|i: int, j: int|
            #![trigger gs[i].members@[j]]
            0 <= i < gs.len() && 0 <= j < gs[i].members@.len() ==> fs.dom().contains(
                path_of(gs[i].members@[j]),
            ),
        forall|i1: int, i2: int, q: Seq<char>|
            #![trigger is_member_path(gs[i1], q), is_member_path(gs[i2], q)]
            0 <= i1 < gs.len() && 0 <= i2 < gs.len() && i1 != i2 && is_member_path(gs[i1], q)
                ==> !is_member_path(gs[i2], q),
        forall|i: int|
            0 <= i < gs.len() && fs.dom().contains((#[trigger] ps[i]).renamed_path@)
                ==> is_member_path(gs[i], ps[i].renamed_path@),
        forall|i1: int, i2: int|
            0 <= i1 < gs.len() && 0 <= i2 < gs.len() && i1 != i2 ==> (
            #[trigger] ps[i1]).renamed_path@ != (#[trigger] ps[i2]).renamed_path@,
        forall|i1: int, i2: int|
            #![trigger is_member_path(gs[i2], ps[i1].renamed_path@)]
            0 <= i1 < gs.len() && 0 <= i2 < gs.len() && i1 != i2 ==> !is_member_path(
                gs[i2],
                ps[i1].renamed_path@,
            ),
    ensures
        ({
            let out = apply_plans(fs, ps);
            &&& forall|i: int|
                0 <= i < gs.len() ==> out.dom().contains((#[trigger] ps[i]).renamed_path@)
                    && out[ps[i].renamed_path@] == fs[path_of(gs[i].members@.last())]
            &&& forall|i: int, j: int|
                #![trigger gs[i].members@[j]]
                0 <= i < gs.len() && 0 <= j < gs[i].members@.len() && path_of(gs[i].members@[j])
                    != ps[i].renamed_path@ ==> !out.dom().contains(path_of(gs[i].members@[j]))
            &&& forall|q: Seq<char>|
                #[trigger] untouched_by(gs, ps, q) ==> (out.dom().contains(q)
                    <==> fs.dom().contains(q)) && (out.dom().contains(q) ==> out[q] == fs[q])
        }),
    decreases gs.len(),
{
    if gs.len() == 0 {
        return ;
    }
    let g0 = gs[0];
    let p0 = ps[0];
    let t0 = p0.renamed_path@;
    let fs1 = apply_group_plan(fs, p0);
    let gs1 = gs.drop_first();
    let ps1 = ps.drop_first();
    let out = apply_plans(fs, ps);
    assert(out == apply_plans(fs1, ps1));
    lemma_consolidate_group(fs, g0, p0);
    // The later groups' paths and targets are out of the first plan's way.
    assert forall|i: int, j: int|
        #![trigger gs1[i].members@[j]]
        0 <= i < gs1.len() && 0 <= j < gs1[i].members@.len() implies fs1.dom().contains(
        path_of(gs1[i].members@[j]),
    ) && fs1[path_of(gs1[i].members@[j])] == fs[path_of(gs1[i].members@[j])] by {
        let q = path_of(gs1[i].members@[j]);
        assert(gs1[i] == gs[i + 1]);
        assert(is_member_path(gs[i + 1], q));
        assert(!is_member_path(g0, q));
        assert(q != t0) by {
            if q == t0 {
                assert(is_member_path(gs[i + 1], ps[0].renamed_path@));
            }
        }
    }
    assert forall|i: int|
        0 <= i < gs1.len() && fs1.dom().contains((#[trigger] ps1[i]).renamed_path@) implies
        is_member_path(gs1[i], ps1[i].renamed_path@) by {
        let ti = ps1[i].renamed_path@;
        assert(ps1[i] == ps[i + 1] && gs1[i] == gs[i + 1]);
        assert(ti != t0);
        assert(!is_member_path(g0, ti));
        assert(fs.dom().contains(ti));
    }
    assert forall|i: int| 0 <= i < gs1.len() implies plan_for(#[trigger] gs1[i], ps1[i]) by {
        assert(gs1[i] == gs[i + 1] && ps1[i] == ps[i + 1]);
    }
    assert forall|i1: int, i2: int, q: Seq<char>|
        #![trigger is_member_path(gs1[i1], q), is_member_path(gs1[i2], q)]
        0 <= i1 < gs1.len() && 0 <= i2 < gs1.len() && i1 != i2 && is_member_path(
        gs1[i1],
        q,
    ) implies !is_member_path(gs1[i2], q) by {
        assert(gs1[i1] == gs[i1 + 1] && gs1[i2] == gs[i2 + 1]);
    }
    assert forall|i1: int, i2: int|
        #![trigger is_member_path(gs1[i2], ps1[i1].renamed_path@)]
        0 <= i1 < gs1.len() && 0 <= i2 < gs1.len() && i1 != i2 implies !is_member_path(
        gs1[i2],
        ps1[i1].renamed_path@,
    ) by {
        assert(gs1[i2] == gs[i2 + 1] && ps1[i1] == ps[i1 + 1]);
    }
    assert forall|i1: int, i2: int|
        0 <= i1 < gs1.len() && 0 <= i2 < gs1.len() && i1 != i2 implies (
    #[trigger] ps1[i1]).renamed_path@ != (#[trigger] ps1[i2]).renamed_path@ by {
        assert(ps1[i1] == ps[i1 + 1] && ps1[i2] == ps[i2 + 1]);
    }
    assert forall|i: int, a: int, b: int|
        #![trigger gs1[i].members@[a], gs1[i].members@[b]]
        0 <= i < gs1.len() && 0 <= a < b < gs1[i].members@.len() implies path_of(
        gs1[i].members@[a],
    ) != path_of(gs1[i].members@[b]) by {
        assert(gs1[i] == gs[i + 1]);
    }
    lemma_consolidate_run(fs1, gs1, ps1);
    // The first group's outcome survives the later plans untouched.
    assert(untouched_by(gs1, ps1, t0)) by {
        assert forall|i: int|
            0 <= i < gs1.len() implies !is_member_path(#[trigger] gs1[i], t0) && (
        ps1[i]).renamed_path@ != t0 by {
            assert(gs1[i] == gs[i + 1] && ps1[i] == ps[i + 1]);
            assert(!is_member_path(gs[i + 1], ps[0].renamed_path@));
        }
    }
    assert(out.dom().contains(t0) && out[t0] == fs1[t0]);
    assert(fs1[t0] == fs[path_of(g0.members@.last())]);
    assert forall|i: int|
        0 <= i < gs.len() implies out.dom().contains((#[trigger] ps[i]).renamed_path@)
            && out[ps[i].renamed_path@] == fs[path_of(gs[i].members@.last())] by {
        if i > 0 {
            assert(gs1[i - 1] == gs[i] && ps1[i - 1] == ps[i]);
            let spi = path_of(gs[i].members@.last());
            assert(gs[i].members@.last() == gs[i].members@[gs[i].members@.len() - 1]);
            assert(fs1[spi] == fs[spi]);
        }
    }
    assert forall|i: int, j: int|
        #![trigger gs[i].members@[j]]
        0 <= i < gs.len() && 0 <= j < gs[i].members@.len() && path_of(gs[i].members@[j])
            != ps[i].renamed_path@ implies !out.dom().contains(path_of(gs[i].members@[j])) by {
        let q = path_of(gs[i].members@[j]);
        if i == 0 {
            assert(!fs1.dom().contains(q));
            assert(is_member_path(g0, q));
            assert(untouched_by(gs1, ps1, q)) by {
                assert forall|m: int|
                    0 <= m < gs1.len() implies !is_member_path(#[trigger] gs1[m], q) && (
                ps1[m]).renamed_path@ != q by {
                    assert(gs1[m] == gs[m + 1] && ps1[m] == ps[m + 1]);
                    assert(!is_member_path(gs[m + 1], ps[0].renamed_path@));
                    if ps[m + 1].renamed_path@ == q {
                        assert(is_member_path(gs[0], ps[m + 1].renamed_path@));
                    }
                }
            }
        } else {
            assert(gs1[i - 1] == gs[i] && ps1[i - 1] == ps[i]);
            assert(gs1[i - 1].members@[j] == gs[i].members@[j]);
        }
    }
    assert forall|q: Seq<char>| #[trigger] untouched_by(gs, ps, q) implies (out.dom().contains(q)
        <==> fs.dom().contains(q)) && (out.dom().contains(q) ==> out[q] == fs[q]) by {
        assert(!is_member_path(gs[0], q) && ps[0].renamed_path@ != q);
        assert(untouched_by(gs1, ps1, q)) by {
            assert forall|i: int|
                0 <= i < gs1.len() implies !is_member_path(#[trigger] gs1[i], q) && (
            ps1[i]).renamed_path@ != q by {
                assert(gs1[i] == gs[i + 1] && ps1[i] == ps[i + 1]);
                assert(!is_member_path(gs[i + 1], q) && ps[i + 1].renamed_path@ != q);
            }
        }
    }
}

} // verus!

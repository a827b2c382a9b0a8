//! Grouping file records by canonical identity.
//!
//! Every record's identity is the normalized form of its base name. Records
//! sharing an identity form a duplicate group; identities held by a single
//! record are not duplicates and are discarded. Each surviving group is
//! ordered ascending by `(created, modified)`, so its last member is the
//! newest — the designated survivor of consolidation.

use vstd::prelude::*;
use crate::names::normalize;
use crate::records::FileRecord;
use crate::records::identity_of;
use crate::records::key_le;

verus! {

/// A canonical identity together with the records that normalize to it.
pub struct DuplicateGroup {
    pub identity: String,
    pub members: Vec<FileRecord>,
}

/// The records of `rs` whose identity is `k`, in their order in `rs`.
pub open spec fn recs_with(rs: Seq<FileRecord>, k: Seq<char>) -> Seq<FileRecord>
    decreases rs.len(),
{
    if rs.len() == 0 {
        Seq::empty()
    } else if identity_of(rs.last()) == k {
        recs_with(rs.drop_last(), k).push(rs.last())
    } else {
        recs_with(rs.drop_last(), k)
    }
}

/// Each adjacent pair of members ascends by `(created, modified)`.
pub open spec fn sorted_adjacent(ms: Seq<FileRecord>) -> bool {
    forall|j: int| 0 <= j < ms.len() - 1 ==> key_le(#[trigger] ms[j], ms[j + 1])
}

/// Any two members in positional order ascend by `(created, modified)`.
pub open spec fn sorted_pairwise(ms: Seq<FileRecord>) -> bool {
    forall|a: int, b: int| 0 <= a < b < ms.len() ==> key_le(#[trigger] ms[a], #[trigger] ms[b])
}

/// A well-formed duplicate group: at least two members, every member's
/// normalized name equals the group identity, and the members ascend by
/// `(created, modified)` — index 0 oldest, the last index the survivor.
pub open spec fn group_wf(g: DuplicateGroup) -> bool {
    &&& g.members@.len() >= 2
    &&& forall|j: int|
        0 <= j < g.members@.len() ==> identity_of(#[trigger] g.members@[j]) == g.identity@
    &&& sorted_pairwise(g.members@)
}

/// Members ordered pairwise are in particular ordered between neighbours.
pub proof fn lemma_pairwise_implies_adjacent(ms: Seq<FileRecord>)
    requires
        sorted_pairwise(ms),
    ensures
        sorted_adjacent(ms),
{
}

proof fn lemma_recs_with_take_step(rs: Seq<FileRecord>, i: int, k: Seq<char>)
    requires
        0 <= i < rs.len(),
    ensures
        recs_with(rs.take(i + 1), k) == if identity_of(rs[i]) == k {
            recs_with(rs.take(i), k).push(rs[i])
        } else {
            recs_with(rs.take(i), k)
        },
{
    assert(rs.take(i + 1).drop_last() =~= rs.take(i));
    assert(rs.take(i + 1).last() == rs[i]);
}

/// Every record selected by `recs_with` bears the identity selected for.
proof fn lemma_recs_with_identity(rs: Seq<FileRecord>, k: Seq<char>)
    ensures
        forall|j: int|
            0 <= j < recs_with(rs, k).len() ==> identity_of(#[trigger] recs_with(rs, k)[j]) == k,
    decreases rs.len(),
{
    if rs.len() > 0 {
        lemma_recs_with_identity(rs.drop_last(), k);
        let rest = recs_with(rs.drop_last(), k);
        assert forall|j: int| 0 <= j < recs_with(rs, k).len() implies identity_of(
            #[trigger] recs_with(rs, k)[j],
        ) == k by {
            if identity_of(rs.last()) == k {
                assert(recs_with(rs, k) == rest.push(rs.last()));
                if j < rest.len() {
                    assert(recs_with(rs, k)[j] == rest[j]);
                } else {
                    assert(recs_with(rs, k)[j] == rs.last());
                }
            } else {
                assert(recs_with(rs, k) == rest);
            }
        }
    }
}

/// A non-empty selection means some record of `rs` bears the identity.
proof fn lemma_recs_with_witness(rs: Seq<FileRecord>, k: Seq<char>)
    requires
        recs_with(rs, k).len() >= 1,
    ensures
        exists|m: int| 0 <= m < rs.len() && identity_of(#[trigger] rs[m]) == k,
    decreases rs.len(),
{
    if rs.len() > 0 {
        if identity_of(rs.last()) == k {
            assert(identity_of(rs[rs.len() - 1]) == k);
        } else {
            lemma_recs_with_witness(rs.drop_last(), k);
            let m = choose|m: int|
                0 <= m < rs.drop_last().len() && identity_of(#[trigger] rs.drop_last()[m]) == k;
            assert(identity_of(rs[m]) == k);
        }
    }
}

/// Sorts records ascending by `(created, modified)`, keeping the collection
/// of records itself unchanged.
pub fn sort_records(input: Vec<FileRecord>) -> (out: Vec<FileRecord>)
    ensures
        out@.to_multiset() == input@.to_multiset(),
        out@.len() == input@.len(),
        sorted_pairwise(out@),
{
    broadcast use vstd::seq_lib::group_to_multiset_ensures;
    broadcast use vstd::multiset::group_multiset_axioms;

    let mut rest = input;
    let mut out: Vec<FileRecord> = Vec::new();
    proof {
        assert(out@.to_multiset().add(rest@.to_multiset()) =~= input@.to_multiset());
    }
    while rest.len() > 0
        invariant
            out@.to_multiset().add(rest@.to_multiset()) == input@.to_multiset(),
            out@.len() + rest@.len() == input@.len(),
            sorted_pairwise(out@),
            forall|a: int, b: int|
                0 <= a < out@.len() && 0 <= b < rest@.len() ==> key_le(
                    #[trigger] out@[a],
                    #[trigger] rest@[b],
                ),
        decreases rest@.len(),
    {
        broadcast use vstd::seq_lib::group_to_multiset_ensures;
        broadcast use vstd::multiset::group_multiset_axioms;

        let mut mi: usize = 0;
        let mut j: usize = 1;
        while j < rest.len()
            invariant
                mi < j <= rest@.len(),
                rest@.len() > 0,
                forall|t: int| 0 <= t < j ==> key_le(rest@[mi as int], #[trigger] rest@[t]),
            decreases rest@.len() - j,
        {
            if !rest[mi].older_or_same(&rest[j]) {
                mi = j;
            }
            j += 1;
        }
        let ghost old_out = out@;
        let ghost old_rest = rest@;
        let x = rest.remove(mi);
        out.push(x);
        proof {
            assert(old_rest.contains(x));
            assert(out@.to_multiset() =~= old_out.to_multiset().insert(x));
            assert(rest@.to_multiset() =~= old_rest.to_multiset().remove(x));
            assert(out@.to_multiset().add(rest@.to_multiset()) =~= old_out.to_multiset().add(
                old_rest.to_multiset(),
            ));
            assert forall|a: int, b: int|
                0 <= a < out@.len() && 0 <= b < rest@.len() implies key_le(
                #[trigger] out@[a],
                #[trigger] rest@[b],
            ) by {
                assert(rest@[b] == if b < mi {
                    old_rest[b]
                } else {
                    old_rest[b + 1]
                });
            }
        }
    }
    out
}

/// Finds the group that already carries `ident`, if any.
fn find_group(gs: &Vec<DuplicateGroup>, ident: &String) -> (r: Option<usize>)
    ensures
        match r {
            Some(x) => x < gs@.len() && gs@[x as int].identity@ == ident@,
            None => forall|j: int| 0 <= j < gs@.len() ==> (#[trigger] gs@[j]).identity@ != ident@,
        },
{
    let mut j: usize = 0;
    while j < gs.len()
        invariant
            j <= gs@.len(),
            forall|t: int| 0 <= t < j ==> (#[trigger] gs@[t]).identity@ != ident@,
        decreases gs@.len() - j,
    {
        if gs[j].identity == *ident {
            return Some(j);
        }
        j += 1;
    }
    None
}

/// Groups records by canonical identity, discards identities held by a
/// single record, and sorts each surviving group ascending by
/// `(created, modified)`. The result holds one group per identity that at
/// least two records share — exactly the records bearing it — and no other.
pub fn group(records: &Vec<FileRecord>) -> (res: Vec<DuplicateGroup>)
    ensures
        forall|i: int| 0 <= i < res@.len() ==> group_wf(#[trigger] res@[i]),
        forall|i: int|
            0 <= i < res@.len() ==> (#[trigger] res@[i]).members@.to_multiset() == recs_with(
                records@,
                res@[i].identity@,
            ).to_multiset(),
        forall|i: int|
            0 <= i < res@.len() ==> (#[trigger] res@[i]).members@.len() == recs_with(
                records@,
                res@[i].identity@,
            ).len(),
        forall|i: int, j: int|
            0 <= i < j < res@.len() ==> res@[i].identity@ != res@[j].identity@,
        forall|k: Seq<char>|
            #[trigger] recs_with(records@, k).len() >= 2 ==> exists|i: int|
                0 <= i < res@.len() && (#[trigger] res@[i]).identity@ == k,
{
    broadcast use vstd::seq_lib::group_to_multiset_ensures;

    let mut res: Vec<DuplicateGroup> = Vec::new();
    let mut idx: usize = 0;
    while idx < records.len()
        invariant
            idx <= records@.len(),
            forall|i: int| 0 <= i < res@.len() ==> group_wf(#[trigger] res@[i]),
            forall|i: int|
                0 <= i < res@.len() ==> (#[trigger] res@[i]).members@.to_multiset() == recs_with(
                    records@,
                    res@[i].identity@,
                ).to_multiset(),
            forall|i: int, j: int|
                0 <= i < j < res@.len() ==> res@[i].identity@ != res@[j].identity@,
            forall|m: int|
                0 <= m < idx ==> (recs_with(records@, identity_of(#[trigger] records@[m])).len()
                    >= 2 ==> exists|i: int|
                    0 <= i < res@.len() && (#[trigger] res@[i]).identity@ == identity_of(
                        records@[m],
                    )),
        decreases records@.len() - idx,
    {
        broadcast use vstd::seq_lib::group_to_multiset_ensures;

        let ghost res0 = res@;
        let rec = &records[idx];
        let ident = normalize(rec.name.as_str());
        proof {
            assert(ident@ == identity_of(records@[idx as int]));
        }
        match find_group(&res, &ident) {
            Some(x) => {
                proof {
                    assert(res@[x as int].identity@ == identity_of(records@[idx as int]));
                }
            },
            None => {
                let mut members: Vec<FileRecord> = Vec::new();
                let mut j: usize = 0;
                while j < records.len()
                    invariant
                        j <= records@.len(),
                        members@ == recs_with(records@.take(j as int), ident@),
                    decreases records@.len() - j,
                {
                    let rj = &records[j];
                    let idj = normalize(rj.name.as_str());
                    if idj == ident {
                        members.push(rj.duplicate());
                    }
                    proof {
                        lemma_recs_with_take_step(records@, j as int, ident@);
                    }
                    j += 1;
                }
                proof {
                    assert(records@.take(records@.len() as int) =~= records@);
                    assert(members@ == recs_with(records@, ident@));
                }
                if members.len() >= 2 {
                    let ghost members_seq = members@;
                    let sorted = sort_records(members);
                    proof {
                        lemma_recs_with_identity(records@, ident@);
                        assert forall|t: int| 0 <= t < sorted@.len() implies identity_of(
                            #[trigger] sorted@[t],
                        ) == ident@ by {
                            assert(sorted@.contains(sorted@[t]));
                            assert(sorted@.to_multiset().count(sorted@[t]) > 0);
                            assert(members_seq.to_multiset().count(sorted@[t]) > 0);
                            assert(members_seq.contains(sorted@[t]));
                            let w = choose|w: int|
                                0 <= w < members_seq.len() && members_seq[w] == sorted@[t];
                            assert(identity_of(members_seq[w]) == ident@);
                        }
                    }
                    res.push(DuplicateGroup { identity: ident, members: sorted });
                    proof {
                        assert(res@[res0.len() as int].identity@ == identity_of(
                            records@[idx as int],
                        ));
                    }
                } else {
                    proof {
                        assert(recs_with(records@, identity_of(records@[idx as int])).len() < 2);
                    }
                }
            },
        }
        proof {
            assert(forall|i: int| 0 <= i < res0.len() ==> res@[i] == res0[i]);
            assert forall|m: int|
                0 <= m < idx + 1 && recs_with(
                    records@,
                    identity_of(#[trigger] records@[m]),
                ).len() >= 2 implies exists|i: int|
                0 <= i < res@.len() && (#[trigger] res@[i]).identity@ == identity_of(
                    records@[m],
                ) by {
                if m < idx {
                    let i = choose|i: int|
                        0 <= i < res0.len() && (#[trigger] res0[i]).identity@ == identity_of(
                            records@[m],
                        );
                    assert(res@[i].identity@ == identity_of(records@[m]));
                }
            }
        }
        idx += 1;
    }
    proof {
        assert forall|i: int| 0 <= i < res@.len() implies (#[trigger] res@[i]).members@.len()
            == recs_with(records@, res@[i].identity@).len() by {
            assert(res@[i].members@.to_multiset().len() == res@[i].members@.len());
            assert(recs_with(records@, res@[i].identity@).to_multiset().len() == recs_with(
                records@,
                res@[i].identity@,
            ).len());
        }
        assert forall|k: Seq<char>| #[trigger] recs_with(records@, k).len() >= 2 implies exists|
            i: int,
        | 0 <= i < res@.len() && (#[trigger] res@[i]).identity@ == k by {
            lemma_recs_with_witness(records@, k);
            let m = choose|m: int|
                0 <= m < records@.len() && identity_of(#[trigger] records@[m]) == k;
            assert(recs_with(records@, identity_of(records@[m])).len() >= 2);
        }
    }
    res
}

} // verus!

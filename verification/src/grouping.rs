//! The grouping view: partitioning catalog components by their declared
//! group and ordering the groups by display rank. A read-only
//! presentation helper, not on the install path.

use vstd::prelude::*;
use crate::model::Group;
use crate::model::GroupView;
use crate::model::InstallError;
use crate::model::ModInfo;
use crate::model::ModInfoView;
use crate::resolve::views;

verus! {

/// One bucket of the grouping view: a group and the components that
/// declare it.
#[derive(Debug)]
pub struct GroupBox {
    pub group: Group,
    pub mods: Vec<ModInfo>,
}

/// The mathematical values of a list of groups.
pub open spec fn gviews(s: Seq<Group>) -> Seq<GroupView> {
    s.map_values(|g: Group| g@)
}

/// Whether some group in the catalog carries this name.
pub open spec fn has_group(groups: Seq<GroupView>, name: Seq<char>) -> bool {
    exists|i: int| 0 <= i < groups.len() && groups[i].name == name
}

/// Whether some bucket carries this group name.
pub open spec fn has_bucket(bs: Seq<GroupBox>, name: Seq<char>) -> bool {
    exists|i: int| 0 <= i < bs.len() && bs[i].group.name@ == name
}

/// The members a bucket for `name` must hold: every component that
/// declares that group, in input order.
pub open spec fn bucket_of(infos: Seq<ModInfoView>, name: Seq<char>) -> Seq<ModInfoView> {
    infos.filter(|m: ModInfoView| m.group == name)
}

/// Finds the first group with the given name.
fn find_group<'a>(groups: &'a Vec<Group>, name: &String) -> (r: Option<&'a Group>)
    ensures
        match r {
            Option::Some(g) => g@.name == name@ && gviews(groups@).contains(g@),
            Option::None => forall|i: int|
                0 <= i < groups@.len() ==> gviews(groups@)[i].name != name@,
        },
{
    let mut i: usize = 0;
    while i < groups.len()
        invariant
            i <= groups.len(),
            forall|j: int| 0 <= j < i ==> gviews(groups@)[j].name != name@,
        decreases groups.len() - i,
    {
        if groups[i].name == *name {
            proof {
                assert(gviews(groups@)[i as int] == groups@[i as int]@);
            }
            return Option::Some(&groups[i]);
        }
        i = i + 1;
    }
    Option::None
}

/// Finds the bucket already holding components of the given group.
fn find_bucket(out: &Vec<GroupBox>, name: &String) -> (r: Option<usize>)
    ensures
        match r {
            Option::Some(bi) => bi < out@.len() && out@[bi as int].group.name@ == name@,
            Option::None => forall|j: int|
                0 <= j < out@.len() ==> (#[trigger] out@[j]).group.name@ != name@,
        },
{
    let mut bi: usize = 0;
    while bi < out.len()
        invariant
            bi <= out.len(),
            forall|j: int| 0 <= j < bi ==> (#[trigger] out@[j]).group.name@ != name@,
        decreases out.len() - bi,
    {
        if out[bi].group.name == *name {
            return Option::Some(bi);
        }
        bi = bi + 1;
    }
    Option::None
}

/// The position where a bucket of the given rank is inserted: after
/// every bucket whose rank is not greater.
fn insertion_pos(out: &Vec<GroupBox>, rank: u8) -> (pi: usize)
    ensures
        pi <= out@.len(),
        forall|j: int| 0 <= j < pi ==> (#[trigger] out@[j]).group.rank <= rank,
        pi < out@.len() ==> out@[pi as int].group.rank > rank,
{
    let mut pi: usize = 0;
    while pi < out.len()
        invariant
            pi <= out.len(),
            forall|j: int| 0 <= j < pi ==> (#[trigger] out@[j]).group.rank <= rank,
        decreases out.len() - pi,
    {
        if out[pi].group.rank > rank {
            return pi;
        }
        pi = pi + 1;
    }
    pi
}

/// Partitions the components by their declared group name and orders
/// the buckets by ascending group rank; groups of equal rank keep the
/// order in which the input first mentions them. Each distinct group
/// name gets exactly one bucket, holding every component that declares
/// it, in input order. A component whose group name no group descriptor
/// carries is a fatal reference error, never silently dropped.
pub fn grouped(groups: Vec<Group>, infos: Vec<ModInfo>) -> (r: Result<Vec<GroupBox>, InstallError>)
    ensures
        r matches Ok(bs) ==> forall|i: int, j: int|
            0 <= i < j < bs@.len() ==> (#[trigger] bs@[i]).group.rank
                <= (#[trigger] bs@[j]).group.rank,
        r matches Ok(bs) ==> forall|i: int, j: int|
            0 <= i < j < bs@.len() ==> (#[trigger] bs@[i]).group.name@
                != (#[trigger] bs@[j]).group.name@,
        r matches Ok(bs) ==> forall|i: int|
            0 <= i < bs@.len() ==> gviews(groups@).contains((#[trigger] bs@[i]).group@),
        r matches Ok(bs) ==> forall|i: int|
            0 <= i < bs@.len() ==> views((#[trigger] bs@[i]).mods@) == bucket_of(
                views(infos@),
                bs@[i].group.name@,
            ),
        r matches Ok(bs) ==> forall|i: int| 0 <= i < bs@.len() ==> (#[trigger] bs@[i]).mods@.len()
            > 0,
        r matches Ok(bs) ==> forall|w: int|
            0 <= w < views(infos@).len() ==> has_bucket(bs@, (#[trigger] views(infos@)[w]).group),
        r matches Err(e) ==> (e matches InstallError::Reference(n) && exists|w: int|
            0 <= w < views(infos@).len() && (#[trigger] views(infos@)[w]).group == n@ && !has_group(
                gviews(groups@),
                n@,
            )),
        (r is Ok) <==> (forall|w: int|
            0 <= w < views(infos@).len() ==> has_group(gviews(groups@), (#[trigger] views(
                infos@,
            )[w]).group)),
{
    let ghost groupsv = gviews(groups@);
    let ghost infosv = views(infos@);
    let mut out: Vec<GroupBox> = Vec::new();
    let mut k: usize = 0;
    while k < infos.len()
        invariant
            k <= infos.len(),
            groupsv == gviews(groups@),
            infosv == views(infos@),
            forall|i: int, j: int|
                0 <= i < j < out@.len() ==> (#[trigger] out@[i]).group.rank
                    <= (#[trigger] out@[j]).group.rank,
            forall|i: int, j: int|
                0 <= i < j < out@.len() ==> (#[trigger] out@[i]).group.name@
                    != (#[trigger] out@[j]).group.name@,
            forall|i: int| 0 <= i < out@.len() ==> groupsv.contains((#[trigger] out@[i]).group@),
            forall|i: int|
                0 <= i < out@.len() ==> views((#[trigger] out@[i]).mods@) == bucket_of(
                    infosv.take(k as int),
                    out@[i].group.name@,
                ),
            forall|i: int| 0 <= i < out@.len() ==> (#[trigger] out@[i]).mods@.len() > 0,
            forall|w: int| 0 <= w < k ==> has_bucket(out@, (#[trigger] infosv[w]).group),
            forall|w: int| 0 <= w < k ==> has_group(groupsv, (#[trigger] infosv[w]).group),
        decreases infos.len() - k,
    {
        let m = &infos[k];
        let ghost mv = infosv[k as int];
        proof {
            assert(mv == infos@[k as int]@);
        }
        let ghost out_pre = out@;
        if let Option::Some(bi) = find_bucket(&out, &m.group) {
            let mut b = out.remove(bi);
            b.mods.push(m.clone());
            out.insert(bi, b);
            proof {
                reveal(Seq::filter);
                assert(out@ =~= out_pre.update(bi as int, out@[bi as int]));
                let b2 = out@[bi as int];
                assert(b2.group == out_pre[bi as int].group);
                assert(views(b2.mods@) =~= views(out_pre[bi as int].mods@).push(mv));
                assert(infosv.take(k + 1 as int).drop_last() =~= infosv.take(k as int));
                assert forall|i: int|
                    0 <= i < out@.len() implies views((#[trigger] out@[i]).mods@) == bucket_of(
                    infosv.take(k + 1 as int),
                    out@[i].group.name@,
                ) by {
                    if i == bi {
                        assert(views(b2.mods@) =~= bucket_of(
                            infosv.take(k + 1 as int),
                            b2.group.name@,
                        ));
                    } else {
                        assert(out@[i] == out_pre[i]);
                        assert(out@[i].group.name@ != mv.group);
                        assert(bucket_of(infosv.take(k + 1 as int), out@[i].group.name@)
                            == bucket_of(infosv.take(k as int), out@[i].group.name@));
                    }
                }
                assert forall|w: int| 0 <= w < k + 1 implies has_bucket(
                    out@,
                    (#[trigger] infosv[w]).group,
                ) by {
                    if w < k {
                        let i0 = choose|i0: int|
                            0 <= i0 < out_pre.len() && out_pre[i0].group.name@ == infosv[w].group;
                        assert(out@[i0].group.name@ == infosv[w].group);
                    } else {
                        assert(out@[bi as int].group.name@ == mv.group);
                    }
                }
                assert(has_group(groupsv, mv.group)) by {
                    let g0 = choose|g0: int|
                        0 <= g0 < groupsv.len() && groupsv[g0] == out@[bi as int].group@;
                    assert(groupsv[g0].name == mv.group);
                }
            }
        } else {
            match find_group(&groups, &m.group) {
                Option::None => {
                    proof {
                        assert(infosv[k as int].group == m.group@);
                        assert(!has_group(groupsv, m.group@));
                    }
                    return Err(InstallError::Reference(m.group.clone()));
                },
                Option::Some(g) => {
                    let gc = g.clone();
                    let mut first_mods: Vec<ModInfo> = Vec::new();
                    first_mods.push(m.clone());
                    let nb = GroupBox { group: gc, mods: first_mods };
                    let ghost nbv = nb;
                    let pi = insertion_pos(&out, nb.group.rank);
                    let ghost pos = pi as int;
                    proof {
                        assert forall|j: int| pos <= j < out_pre.len() implies (
                        #[trigger] out_pre[j]).group.rank > nbv.group.rank by {
                            if j > pos {
                                assert(out_pre[pos].group.rank <= out_pre[j].group.rank);
                            }
                        }
                    }
                    out.insert(pi, nb);
                    proof {
                        reveal(Seq::filter);
                        assert(out@ == out_pre.insert(pos, nbv));
                        assert(out@.len() == out_pre.len() + 1);
                        assert forall|i: int| 0 <= i < out@.len() implies #[trigger] out@[i] == (
                        if i < pos {
                            out_pre[i]
                        } else if i == pos {
                            nbv
                        } else {
                            out_pre[i - 1]
                        }) by {}
                        // the new bucket's members are exactly the new
                        // component: no earlier component declares this group
                        assert forall|w: int| 0 <= w < k implies (#[trigger] infosv[w]).group
                            != mv.group by {
                            if infosv[w].group == mv.group {
                                let i0 = choose|i0: int|
                                    0 <= i0 < out_pre.len() && out_pre[i0].group.name@
                                        == infosv[w].group;
                                assert(out_pre[i0].group.name@ != mv.group);
                            }
                        }
                        assert(forall|w: int|
                            0 <= w < k ==> (#[trigger] infosv.take(k as int)[w]).group
                                != nbv.group.name@);
                        infosv.take(k as int).lemma_all_neg_filter_empty(
                            |x: ModInfoView| x.group == nbv.group.name@,
                        );
                        assert(infosv.take(k + 1 as int).drop_last() =~= infosv.take(k as int));
                        assert(views(nbv.mods@) =~= Seq::<ModInfoView>::empty().push(mv));
                        assert(views(nbv.mods@) =~= bucket_of(
                            infosv.take(k + 1 as int),
                            nbv.group.name@,
                        ));
                        assert forall|i: int|
                            0 <= i < out@.len() implies views((#[trigger] out@[i]).mods@)
                            == bucket_of(infosv.take(k + 1 as int), out@[i].group.name@) by {
                            if i != pos {
                                let b0 = out@[i];
                                assert(b0.group.name@ != mv.group);
                                assert(bucket_of(infosv.take(k + 1 as int), b0.group.name@)
                                    == bucket_of(infosv.take(k as int), b0.group.name@));
                            }
                        }
                        assert forall|w: int| 0 <= w < k + 1 implies has_bucket(
                            out@,
                            (#[trigger] infosv[w]).group,
                        ) by {
                            if w < k {
                                let i0 = choose|i0: int|
                                    0 <= i0 < out_pre.len() && out_pre[i0].group.name@
                                        == infosv[w].group;
                                if i0 < pos {
                                    assert(out@[i0].group.name@ == infosv[w].group);
                                } else {
                                    assert(out@[i0 + 1].group.name@ == infosv[w].group);
                                }
                            } else {
                                assert(out@[pos].group.name@ == mv.group);
                            }
                        }
                        assert(has_group(groupsv, mv.group)) by {
                            let g0 = choose|g0: int|
                                0 <= g0 < groupsv.len() && groupsv[g0] == nbv.group@;
                            assert(groupsv[g0].name == mv.group);
                        }
                    }
                },
            }
        }
        k = k + 1;
    }
    proof {
        assert(infosv.take(infos@.len() as int) =~= infosv);
        assert(forall|i: int|
            0 <= i < out@.len() ==> views((#[trigger] out@[i]).mods@) == bucket_of(
                infosv,
                out@[i].group.name@,
            ));
    }
    Ok(out)
}

} // verus!

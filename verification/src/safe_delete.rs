use vstd::prelude::*;
use vstd::seq_lib::*;
use crate::scanner::{DuplicateIndex, GroupModel, actionable, actionable_of, is_actionable};
use crate::text::{
    clone_strings, lemma_lex_antisym, lemma_lex_total, lemma_lex_trans, lex_leq, str_leq,
    string_views,
};

verus! {

/// The views of a list of owned paths.
pub open spec fn path_views(s: Seq<String>) -> Seq<Seq<char>> {
    string_views(s)
}

/// Paths in non-decreasing lexicographic order.
pub open spec fn sorted_by_path(s: Seq<Seq<char>>) -> bool {
    forall|i: int, j: int| 0 <= i < j < s.len() ==> lex_leq(s[i], s[j])
}

/// Sorts paths lexicographically: the deterministic order every "keep one,
/// act on the rest" decision rests on, whatever order the parallel hashing
/// pass delivered them in.
pub fn sort_paths(v: Vec<String>) -> (r: Vec<String>)
    ensures
        sorted_by_path(path_views(r@)),
        path_views(r@).to_multiset() == path_views(v@).to_multiset(),
        r@.len() == v@.len(),
{
    broadcast use group_to_multiset_ensures;

    let mut rest = v;
    let ghost orig = path_views(rest@);
    let mut out: Vec<String> = Vec::new();
    proof {
        assert(path_views(out@) =~= Seq::<Seq<char>>::empty());
        assert(path_views(out@).to_multiset().add(path_views(rest@).to_multiset())
            =~= orig.to_multiset());
    }
    while rest.len() > 0
        invariant
            path_views(out@).to_multiset().add(path_views(rest@).to_multiset())
                == orig.to_multiset(),
            out@.len() + rest@.len() == orig.len(),
            sorted_by_path(path_views(out@)),
            forall|i: int, j: int|
                0 <= i < out@.len() && 0 <= j < rest@.len() ==> lex_leq(
                    path_views(out@)[i],
                    path_views(rest@)[j],
                ),
        decreases rest@.len(),
    {
        let mut k: usize = 0;
        let mut j: usize = 1;
        proof {
            lemma_lex_total(path_views(rest@)[0], path_views(rest@)[0]);
        }
        while j < rest.len()
            invariant
                k < j <= rest@.len(),
                rest@.len() > 0,
                forall|l: int| 0 <= l < j ==> lex_leq(path_views(rest@)[k as int], path_views(rest@)[l]),
            decreases rest@.len() - j,
        {
            if !str_leq(rest[k].as_str(), rest[j].as_str()) {
                proof {
                    assert(path_views(rest@)[k as int] == rest@[k as int]@);
                    assert(path_views(rest@)[j as int] == rest@[j as int]@);
                    lemma_lex_total(path_views(rest@)[k as int], path_views(rest@)[j as int]);
                    assert forall|l: int| 0 <= l < j + 1 implies lex_leq(
                        path_views(rest@)[j as int],
                        path_views(rest@)[l],
                    ) by {
                        if l < j {
                            lemma_lex_trans(
                                path_views(rest@)[j as int],
                                path_views(rest@)[k as int],
                                path_views(rest@)[l],
                            );
                        } else {
                            lemma_lex_total(path_views(rest@)[j as int], path_views(rest@)[j as int]);
                        }
                    }
                }
                k = j;
            } else {
                proof {
                    assert(path_views(rest@)[k as int] == rest@[k as int]@);
                    assert(path_views(rest@)[j as int] == rest@[j as int]@);
                }
            }
            j = j + 1;
        }
        let ghost out_before = path_views(out@);
        let ghost rest_before = path_views(rest@);
        let s = rest.remove(k);
        proof {
            assert(s@ == rest_before[k as int]);
        }
        out.push(s);
        proof {
            broadcast use group_to_multiset_ensures;

            assert(path_views(rest@) =~= rest_before.remove(k as int));
            assert(path_views(out@) =~= out_before.push(s@));
            assert(rest_before.remove(k as int).to_multiset() == rest_before.to_multiset()
                .remove(s@));
            assert(out_before.push(s@).to_multiset() =~= out_before.to_multiset().insert(s@));
            assert(rest_before.to_multiset().count(s@) > 0) by {
                assert(rest_before.contains(rest_before[k as int]));
            }
            assert(path_views(out@).to_multiset().add(path_views(rest@).to_multiset())
                =~= out_before.to_multiset().add(rest_before.to_multiset()));
            assert forall|i: int, jj: int|
                0 <= i < jj < path_views(out@).len() implies lex_leq(
                path_views(out@)[i],
                path_views(out@)[jj],
            ) by {
                if jj < out_before.len() {
                    assert(lex_leq(out_before[i], out_before[jj]));
                } else {
                    assert(lex_leq(out_before[i], rest_before[k as int]));
                }
            }
            assert forall|i: int, jj: int|
                0 <= i < path_views(out@).len() && 0 <= jj < path_views(rest@).len() implies lex_leq(
                path_views(out@)[i],
                path_views(rest@)[jj],
            ) by {
                let w = path_views(rest@)[jj];
                assert(w == rest_before.remove(k as int)[jj]);
                if jj < k {
                    assert(w == rest_before[jj]);
                } else {
                    assert(w == rest_before[jj + 1]);
                }
                if i < out_before.len() {
                } else {
                    assert(path_views(out@)[i] == rest_before[k as int]);
                }
            }
        }
    }
    proof {
        assert(path_views(rest@).to_multiset().len() == 0);
        assert(path_views(out@).to_multiset() =~= orig.to_multiset());
    }
    out
}

/// What a scan decides for one actionable group: the survivor to keep and
/// the redundant copies to act on.
pub struct GroupPlan {
    pub digest: String,
    pub survivor: String,
    pub to_delete: Vec<String>,
}

/// The mathematical content of a group's plan.
#[verifier::ext_equal]
pub struct GroupPlanModel {
    pub digest: Seq<char>,
    pub survivor: Seq<char>,
    pub to_delete: Seq<Seq<char>>,
}

impl View for GroupPlan {
    type V = GroupPlanModel;

    open spec fn view(&self) -> GroupPlanModel {
        GroupPlanModel {
            digest: self.digest@,
            survivor: self.survivor@,
            to_delete: path_views(self.to_delete@),
        }
    }
}

/// A faithful plan for one group: the group's members, reordered into the
/// deterministic sort, with the least one designated survivor and exactly
/// the others scheduled.
pub open spec fn plan_matches(p: GroupPlanModel, g: GroupModel) -> bool {
    &&& p.digest == g.digest
    &&& sorted_by_path(seq![p.survivor] + p.to_delete)
    &&& (seq![p.survivor] + p.to_delete).to_multiset() == g.members.to_multiset()
    &&& p.to_delete.len() == g.members.len() - 1
    &&& forall|i: int| 0 <= i < g.members.len() ==> lex_leq(p.survivor, g.members[i])
}

/// The views of a list of group plans.
pub open spec fn plan_views(s: Seq<GroupPlan>) -> Seq<GroupPlanModel> {
    s.map_values(|p: GroupPlan| p@)
}

/// Plans one actionable group: sorts the members, keeps the first, schedules
/// the rest.
fn plan_group(digest: &String, members: &Vec<String>) -> (r: GroupPlan)
    requires
        members@.len() > 1,
    ensures
        r@.digest == digest@,
        plan_matches(r@, GroupModel { digest: digest@, members: path_views(members@) }),
{
    broadcast use group_to_multiset_ensures;

    let mut sorted = sort_paths(clone_strings(members));
    let ghost sortedv = path_views(sorted@);
    let survivor = sorted.remove(0);
    let ghost g = GroupModel { digest: digest@, members: path_views(members@) };
    proof {
        assert(path_views(sorted@) =~= sortedv.remove(0));
        assert(seq![survivor@] + sortedv.remove(0) =~= sortedv);
        assert forall|i: int| 0 <= i < g.members.len() implies lex_leq(
            survivor@,
            g.members[i],
        ) by {
            assert(g.members.contains(g.members[i]));
            assert(sortedv.to_multiset().count(g.members[i]) > 0);
            assert(sortedv.contains(g.members[i]));
            let j = choose|j: int| 0 <= j < sortedv.len() && sortedv[j] == g.members[i];
            if j > 0 {
                assert(lex_leq(sortedv[0], sortedv[j]));
            } else {
                lemma_lex_total(survivor@, survivor@);
            }
        }
    }
    GroupPlan { digest: digest.clone(), survivor, to_delete: sorted }
}

/// Plans the whole deletion pass: one plan per actionable group, in index
/// order; groups with a single member are left alone.
#[verifier::loop_isolation(false)]
pub fn plan_deletions(index: &DuplicateIndex) -> (r: Vec<GroupPlan>)
    ensures
        plan_views(r@).len() == actionable_of(index@).len(),
        forall|k: int|
            0 <= k < r@.len() ==> plan_matches(
                plan_views(r@)[k],
                #[trigger] actionable_of(index@)[k],
            ),
{
    reveal(Seq::filter);
    let ghost groupsv = index@;
    let mut plans: Vec<GroupPlan> = Vec::new();
    proof {
        assert(groupsv.take(0) =~= Seq::<GroupModel>::empty());
        assert(plan_views(plans@) =~= Seq::<GroupPlanModel>::empty());
    }
    let mut i: usize = 0;
    while i < index.groups.len()
        invariant
            i <= groupsv.len(),
            plan_views(plans@).len() == actionable_of(groupsv.take(i as int)).len(),
            forall|k: int|
                0 <= k < plans@.len() ==> plan_matches(
                    plan_views(plans@)[k],
                    #[trigger] actionable_of(groupsv.take(i as int))[k],
                ),
        decreases groupsv.len() - i,
    {
        let group = &index.groups[i];
        let ghost before = plan_views(plans@);
        proof {
            assert(groupsv.take(i + 1).drop_last() =~= groupsv.take(i as int));
            assert(groupsv.take(i + 1).last() == groupsv[i as int]);
            assert(groupsv[i as int] == index.groups@[i as int]@);
        }
        if group.members.len() > 1 {
            let plan = plan_group(&group.digest, &group.members);
            let ghost planm = plan@;
            plans.push(plan);
            proof {
                assert(is_actionable()(groupsv[i as int]));
                assert(actionable_of(groupsv.take(i + 1)) =~= actionable_of(
                    groupsv.take(i as int),
                ).push(groupsv[i as int]));
                assert(plan_views(plans@) =~= before.push(planm));
                assert(planm.digest == groupsv[i as int].digest);
                assert(plan_matches(planm, groupsv[i as int]));
            }
        } else {
            proof {
                assert(!is_actionable()(groupsv[i as int]));
                assert(actionable_of(groupsv.take(i + 1)) =~= actionable_of(
                    groupsv.take(i as int),
                ));
            }
        }
        i = i + 1;
    }
    proof {
        assert(groupsv.take(groupsv.len() as int) =~= groupsv);
    }
    plans
}

/// Deletion safety: a faithful plan for an actionable group keeps exactly
/// one member — the lexicographically least — and schedules every other
/// copy; when the members are pairwise distinct, the survivor is never among
/// the scheduled deletions.
pub proof fn lemma_deletion_safety(p: GroupPlanModel, g: GroupModel)
    requires
        plan_matches(p, g),
        actionable(g),
    ensures
        g.members.to_multiset().contains(p.survivor),
        p.to_delete.len() == g.members.len() - 1,
        forall|i: int| 0 <= i < g.members.len() ==> lex_leq(p.survivor, g.members[i]),
        g.members.no_duplicates() ==> !p.to_delete.contains(p.survivor),
{
    broadcast use group_to_multiset_ensures;

    let whole = seq![p.survivor] + p.to_delete;
    assert(whole.contains(p.survivor)) by {
        assert(whole[0] == p.survivor);
    }
    assert(g.members.to_multiset().count(p.survivor) > 0);
    if g.members.no_duplicates() {
        g.members.lemma_multiset_has_no_duplicates();
        assert(g.members.to_multiset().count(p.survivor) == 1);
        if p.to_delete.contains(p.survivor) {
            let j = choose|j: int| 0 <= j < p.to_delete.len() && p.to_delete[j] == p.survivor;
            assert(whole[j + 1] == p.survivor);
            let w2 = whole.remove(0);
            assert(w2.to_multiset() == whole.to_multiset().remove(whole[0]));
            assert(w2[j] == p.survivor);
            assert(w2.contains(p.survivor));
            assert(w2.to_multiset().count(p.survivor) > 0);
            assert(whole.to_multiset().count(p.survivor) >= 2);
            assert(false);
        }
    }
}

/// A sorted arrangement of given members is unique: two sorted sequences
/// holding the same members are equal. A decision made on the sorted members
/// is therefore a function of the members alone, whatever order the parallel
/// hashing pass delivered them in.
pub proof fn lemma_sorted_unique(a: Seq<Seq<char>>, b: Seq<Seq<char>>)
    requires
        sorted_by_path(a),
        sorted_by_path(b),
        a.to_multiset() == b.to_multiset(),
    ensures
        a == b,
    decreases a.len(),
{
    broadcast use group_to_multiset_ensures;

    if a.len() == 0 {
        assert(b.to_multiset().len() == 0);
        assert(b.len() == 0);
        assert(a =~= b);
    } else {
        assert(a.contains(a[0]));
        assert(b.to_multiset().count(a[0]) > 0);
        assert(b.contains(a[0]));
        let j = choose|j: int| 0 <= j < b.len() && b[j] == a[0];
        if j > 0 {
            assert(lex_leq(b[0], b[j]));
        } else {
            lemma_lex_total(b[0], b[0]);
        }
        assert(b.contains(b[0]));
        assert(a.to_multiset().count(b[0]) > 0);
        assert(a.contains(b[0]));
        let k = choose|k: int| 0 <= k < a.len() && a[k] == b[0];
        if k > 0 {
            assert(lex_leq(a[0], a[k]));
        } else {
            lemma_lex_total(a[0], a[0]);
        }
        lemma_lex_antisym(a[0], b[0]);
        let a2 = a.drop_first();
        let b2 = b.drop_first();
        assert(a2 =~= a.remove(0));
        assert(b2 =~= b.remove(0));
        assert(a.remove(0).to_multiset() == a.to_multiset().remove(a[0]));
        assert(b.remove(0).to_multiset() == b.to_multiset().remove(b[0]));
        assert(sorted_by_path(a2)) by {
            assert(forall|i: int| 0 <= i < a2.len() ==> a2[i] == a[i + 1]);
        }
        assert(sorted_by_path(b2)) by {
            assert(forall|i: int| 0 <= i < b2.len() ==> b2[i] == b[i + 1]);
        }
        lemma_sorted_unique(a2, b2);
        assert forall|i: int| 0 <= i < a.len() implies a[i] == b[i] by {
            if i > 0 {
                assert(a2[i - 1] == b2[i - 1]);
            }
        }
        assert(a =~= b);
    }
}

/// Determinism of deletion selection: two faithful plans for groups holding
/// the same members decide the same survivor and schedule the same
/// deletions, in the same order.
pub proof fn lemma_plan_deterministic(
    p1: GroupPlanModel,
    p2: GroupPlanModel,
    g1: GroupModel,
    g2: GroupModel,
)
    requires
        plan_matches(p1, g1),
        plan_matches(p2, g2),
        g1.members.to_multiset() == g2.members.to_multiset(),
    ensures
        p1.survivor == p2.survivor,
        p1.to_delete == p2.to_delete,
{
    let w1 = seq![p1.survivor] + p1.to_delete;
    let w2 = seq![p2.survivor] + p2.to_delete;
    lemma_sorted_unique(w1, w2);
    assert(p1.survivor == w1[0] && p2.survivor == w2[0]);
    assert(p1.to_delete =~= w1.drop_first());
    assert(p2.to_delete =~= w2.drop_first());
}

/// The candidates whose attempts ended one way, in order: the report a
/// best-effort deletion pass owes for each side.
pub open spec fn picked(paths: Seq<Seq<char>>, outcomes: Seq<bool>, keep: bool) -> Seq<Seq<char>>
    decreases paths.len(),
{
    if paths.len() == 0 || outcomes.len() == 0 {
        Seq::empty()
    } else if outcomes.last() == keep {
        picked(paths.drop_last(), outcomes.drop_last(), keep).push(paths.last())
    } else {
        picked(paths.drop_last(), outcomes.drop_last(), keep)
    }
}

/// Splits a deletion pass's candidates into the files removed and the files
/// whose removal failed, by the outcome of each attempt: every candidate is
/// accounted for on exactly one side.
pub fn partition_outcomes(candidates: &Vec<String>, outcomes: &Vec<bool>) -> (r: (
    Vec<String>,
    Vec<String>,
))
    requires
        candidates@.len() == outcomes@.len(),
    ensures
        path_views(r.0@) == picked(path_views(candidates@), outcomes@, true),
        path_views(r.1@) == picked(path_views(candidates@), outcomes@, false),
        r.0@.len() + r.1@.len() == candidates@.len(),
{
    let ghost pathsv = path_views(candidates@);
    let mut removed: Vec<String> = Vec::new();
    let mut failed: Vec<String> = Vec::new();
    proof {
        assert(path_views(removed@) =~= picked(pathsv.take(0), outcomes@.take(0), true));
        assert(path_views(failed@) =~= picked(pathsv.take(0), outcomes@.take(0), false));
    }
    let mut i: usize = 0;
    while i < candidates.len()
        invariant
            candidates@.len() == outcomes@.len(),
            pathsv == path_views(candidates@),
            i <= candidates@.len(),
            removed@.len() + failed@.len() == i,
            path_views(removed@) == picked(pathsv.take(i as int), outcomes@.take(i as int), true),
            path_views(failed@) == picked(pathsv.take(i as int), outcomes@.take(i as int), false),
        decreases candidates@.len() - i,
    {
        proof {
            assert(pathsv.take(i + 1).drop_last() =~= pathsv.take(i as int));
            assert(outcomes@.take(i + 1).drop_last() =~= outcomes@.take(i as int));
            assert(pathsv.take(i + 1).last() == pathsv[i as int]);
            assert(outcomes@.take(i + 1).last() == outcomes@[i as int]);
            assert(pathsv[i as int] == candidates@[i as int]@);
        }
        if outcomes[i] {
            removed.push(candidates[i].clone());
            proof {
                assert(path_views(removed@) =~= picked(
                    pathsv.take(i as int),
                    outcomes@.take(i as int),
                    true,
                ).push(pathsv[i as int]));
            }
        } else {
            failed.push(candidates[i].clone());
            proof {
                assert(path_views(failed@) =~= picked(
                    pathsv.take(i as int),
                    outcomes@.take(i as int),
                    false,
                ).push(pathsv[i as int]));
            }
        }
        i = i + 1;
    }
    proof {
        assert(pathsv.take(pathsv.len() as int) =~= pathsv);
        assert(outcomes@.take(outcomes@.len() as int) =~= outcomes@);
    }
    (removed, failed)
}

} // verus!

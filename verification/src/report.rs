use vstd::prelude::*;
use crate::scanner::{
    DuplicateIndex, DuplicateGroup, GroupModel, actionable_of, is_actionable, group_views,
};
use crate::text::clone_strings;

verus! {

/// The groups a report shows: exactly those with more than one member, in
/// index order. Rendering them to JSON and writing them out is the report
/// destination's business; this selects what it receives.
#[verifier::loop_isolation(false)]
pub fn actionable_groups(index: &DuplicateIndex) -> (r: Vec<DuplicateGroup>)
    ensures
        group_views(r@) == actionable_of(index@),
{
    reveal(Seq::filter);
    let ghost groupsv = index@;
    let mut out: Vec<DuplicateGroup> = Vec::new();
    proof {
        assert(groupsv.take(0) =~= Seq::<GroupModel>::empty());
        assert(group_views(out@) =~= actionable_of(groupsv.take(0)));
    }
    let mut i: usize = 0;
    while i < index.groups.len()
        invariant
            i <= groupsv.len(),
            group_views(out@) == actionable_of(groupsv.take(i as int)),
        decreases groupsv.len() - i,
    {
        let group = &index.groups[i];
        let ghost before = group_views(out@);
        proof {
            assert(groupsv.take(i + 1).drop_last() =~= groupsv.take(i as int));
            assert(groupsv.take(i + 1).last() == groupsv[i as int]);
            assert(groupsv[i as int] == index.groups@[i as int]@);
        }
        if group.members.len() > 1 {
            let copy = DuplicateGroup {
                digest: group.digest.clone(),
                members: clone_strings(&group.members),
            };
            let ghost copym = copy@;
            out.push(copy);
            proof {
                assert(copym =~= groupsv[i as int]);
                assert(is_actionable()(groupsv[i as int]));
                assert(actionable_of(groupsv.take(i + 1)) =~= actionable_of(
                    groupsv.take(i as int),
                ).push(groupsv[i as int]));
                assert(group_views(out@) =~= before.push(copym));
            }
        } else {
            proof {
                assert(!is_actionable()(groupsv[i as int]));
                assert(actionable_of(groupsv.take(i + 1)) =~= actionable_of(
                    groupsv.take(i as int),
                ));
            }
        }
        i = i + 1;
    }
    proof {
        assert(groupsv.take(groupsv.len() as int) =~= groupsv);
    }
    out
}

} // verus!

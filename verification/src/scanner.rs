use vstd::prelude::*;
use vstd::seq_lib::*;
use crate::text::str_eq;

verus! {

/// One hashed file, as the hashing pass hands it to the index: the digest of
/// its content (a lower-case hex string) and its path.
pub struct HashedFile {
    pub digest: String,
    pub path: String,
}

/// The mathematical content of a hashed file.
#[verifier::ext_equal]
pub struct EntryModel {
    pub digest: Seq<char>,
    pub path: Seq<char>,
}

impl View for HashedFile {
    type V = EntryModel;

    open spec fn view(&self) -> EntryModel {
        EntryModel { digest: self.digest@, path: self.path@ }
    }
}

/// The files sharing one digest, in the order their hashes arrived.
pub struct DuplicateGroup {
    pub digest: String,
    pub members: Vec<String>,
}

/// The mathematical content of a group.
#[verifier::ext_equal]
pub struct GroupModel {
    pub digest: Seq<char>,
    pub members: Seq<Seq<char>>,
}

impl View for DuplicateGroup {
    type V = GroupModel;

    open spec fn view(&self) -> GroupModel {
        GroupModel { digest: self.digest@, members: self.members@.map_values(|m: String| m@) }
    }
}

/// A group is worth acting on only when it holds more than one member.
pub open spec fn actionable(g: GroupModel) -> bool {
    g.members.len() > 1
}

/// The test for a group worth acting on.
pub open spec fn is_actionable() -> spec_fn(GroupModel) -> bool {
    |g: GroupModel| actionable(g)
}

/// The actionable groups of an index, in index order.
pub open spec fn actionable_of(groups: Seq<GroupModel>) -> Seq<GroupModel> {
    groups.filter(is_actionable())
}

/// The views of a list of groups.
pub open spec fn group_views(s: Seq<DuplicateGroup>) -> Seq<GroupModel> {
    s.map_values(|g: DuplicateGroup| g@)
}

/// The digest-to-members mapping from a list of groups. A later group with
/// the same digest would shadow an earlier one; a well-formed index has no
/// such pair.
pub open spec fn map_of_groups(groups: Seq<GroupModel>) -> Map<Seq<char>, Seq<Seq<char>>>
    decreases groups.len(),
{
    if groups.len() == 0 {
        Map::empty()
    } else {
        map_of_groups(groups.drop_last()).insert(
            groups.last().digest,
            groups.last().members,
        )
    }
}

/// No two groups carry the same digest.
pub open spec fn distinct_digests(groups: Seq<GroupModel>) -> bool {
    forall|i: int, j: int|
        0 <= i < j < groups.len() ==> groups[i].digest != groups[j].digest
}

/// The index a scan builds: every group keyed by its digest.
pub struct DuplicateIndex {
    pub groups: Vec<DuplicateGroup>,
}

impl View for DuplicateIndex {
    type V = Seq<GroupModel>;

    open spec fn view(&self) -> Seq<GroupModel> {
        self.groups@.map_values(|g: DuplicateGroup| g@)
    }
}

impl DuplicateIndex {
    /// Well-formed: digests are pairwise distinct and no group is empty.
    pub open spec fn wf(&self) -> bool {
        distinct_digests(self@) && forall|i: int|
            0 <= i < self@.len() ==> self@[i].members.len() >= 1
    }

    /// The index as a mapping from digest to members.
    pub open spec fn as_map(&self) -> Map<Seq<char>, Seq<Seq<char>>> {
        map_of_groups(self@)
    }

    /// Whether the scan found no file at all.
    pub fn is_empty(&self) -> (r: bool)
        ensures
            r == (self@.len() == 0),
    {
        self.groups.len() == 0
    }
}

/// The index contents determined by a sequence of hashed files: each file's
/// path appended, in order, to the group keyed by its digest.
pub open spec fn spec_index(entries: Seq<EntryModel>) -> Map<Seq<char>, Seq<Seq<char>>>
    decreases entries.len(),
{
    if entries.len() == 0 {
        Map::empty()
    } else {
        let prev = spec_index(entries.drop_last());
        let e = entries.last();
        if prev.dom().contains(e.digest) {
            prev.insert(e.digest, prev[e.digest].push(e.path))
        } else {
            prev.insert(e.digest, seq![e.path])
        }
    }
}

proof fn lemma_map_of_groups_get(groups: Seq<GroupModel>, k: int)
    requires
        distinct_digests(groups),
        0 <= k < groups.len(),
    ensures
        map_of_groups(groups).dom().contains(groups[k].digest),
        map_of_groups(groups)[groups[k].digest] == groups[k].members,
    decreases groups.len(),
{
    if k < groups.len() - 1 {
        assert(distinct_digests(groups.drop_last())) by {
            assert(forall|i: int|
                0 <= i < groups.len() - 1 ==> groups.drop_last()[i] == groups[i]);
        }
        lemma_map_of_groups_get(groups.drop_last(), k);
        assert(groups.drop_last()[k] == groups[k]);
        assert(groups[k].digest != groups.last().digest);
    }
}

proof fn lemma_map_of_groups_dom(groups: Seq<GroupModel>, d: Seq<char>)
    ensures
        map_of_groups(groups).dom().contains(d) <==> exists|i: int|
            0 <= i < groups.len() && groups[i].digest == d,
    decreases groups.len(),
{
    if groups.len() > 0 {
        lemma_map_of_groups_dom(groups.drop_last(), d);
        if groups.last().digest == d {
            assert(groups[groups.len() - 1].digest == d);
        } else if map_of_groups(groups).dom().contains(d) {
            let i = choose|i: int| 0 <= i < groups.len() - 1 && groups.drop_last()[i].digest == d;
            assert(groups[i].digest == d);
        } else {
            assert forall|i: int| 0 <= i < groups.len() implies groups[i].digest != d by {
                if i < groups.len() - 1 {
                    assert(groups.drop_last()[i] == groups[i]);
                }
            }
        }
    }
}

proof fn lemma_map_of_groups_update(groups: Seq<GroupModel>, k: int, g: GroupModel)
    requires
        distinct_digests(groups),
        0 <= k < groups.len(),
        g.digest == groups[k].digest,
    ensures
        map_of_groups(groups.update(k, g)) == map_of_groups(groups).insert(g.digest, g.members),
    decreases groups.len(),
{
    if k == groups.len() - 1 {
        assert(groups.update(k, g).drop_last() =~= groups.drop_last());
        assert(groups.update(k, g).last() == g);
        assert(map_of_groups(groups.update(k, g)) =~= map_of_groups(groups).insert(
            g.digest,
            g.members,
        ));
    } else {
        assert(distinct_digests(groups.drop_last())) by {
            assert(forall|i: int|
                0 <= i < groups.len() - 1 ==> groups.drop_last()[i] == groups[i]);
        }
        assert(groups.drop_last()[k] == groups[k]);
        assert(groups.update(k, g).drop_last() =~= groups.drop_last().update(k, g));
        assert(groups.update(k, g).last() == groups.last());
        lemma_map_of_groups_update(groups.drop_last(), k, g);
        assert(groups.last().digest != g.digest);
        assert(map_of_groups(groups.update(k, g)) =~= map_of_groups(groups).insert(
            g.digest,
            g.members,
        ));
    }
}

/// Finds the group already keyed by a digest.
fn find_group(groups: &Vec<DuplicateGroup>, digest: &String) -> (r: Option<usize>)
    ensures
        match r {
            Some(k) => k < groups@.len() && groups@[k as int].digest@ == digest@,
            None => forall|i: int|
                0 <= i < groups@.len() ==> groups@[i].digest@ != digest@,
        },
{
    let mut i: usize = 0;
    while i < groups.len()
        invariant
            i <= groups@.len(),
            forall|j: int| 0 <= j < i ==> groups@[j].digest@ != digest@,
        decreases groups@.len() - i,
    {
        if str_eq(groups[i].digest.as_str(), digest.as_str()) {
            return Some(i);
        }
        i = i + 1;
    }
    None
}

/// Builds the duplicate index from the hashed files of one scan: each path
/// is appended to the group keyed by its content digest, so that files land
/// in one group exactly when their contents hashed alike.
#[verifier::loop_isolation(false)]
pub fn build_index(entries: &Vec<HashedFile>) -> (r: DuplicateIndex)
    ensures
        r.wf(),
        r.as_map() == spec_index(entries@.map_values(|e: HashedFile| e@)),
{
    let ghost entriesv = entries@.map_values(|e: HashedFile| e@);
    let mut index = DuplicateIndex { groups: Vec::new() };
    proof {
        assert(index@ =~= Seq::<GroupModel>::empty());
        assert(entriesv.take(0) =~= Seq::<EntryModel>::empty());
    }
    let mut i: usize = 0;
    while i < entries.len()
        invariant
            i <= entriesv.len(),
            index.wf(),
            index.as_map() == spec_index(entriesv.take(i as int)),
        decreases entriesv.len() - i,
    {
        let entry = &entries[i];
        let ghost before = index@;
        proof {
            assert(entriesv.take(i + 1).drop_last() =~= entriesv.take(i as int));
            assert(entriesv.take(i + 1).last() == entriesv[i as int]);
            assert(entriesv[i as int] == entries@[i as int]@);
        }
        match find_group(&index.groups, &entry.digest) {
            Some(k) => {
                proof {
                    lemma_map_of_groups_dom(before, entry.digest@);
                    lemma_map_of_groups_get(before, k as int);
                }
                let members: &mut Vec<String> = &mut index.groups[k].members;
                members.push(entry.path.clone());
                proof {
                    let updated = GroupModel {
                        digest: entry.digest@,
                        members: before[k as int].members.push(entry.path@),
                    };
                    assert(index@ =~= before.update(k as int, updated)) by {
                        assert forall|j: int| 0 <= j < before.len() implies index@[j]
                            == before.update(k as int, updated)[j] by {
                            if j == k {
                                assert(index.groups@[j].members@.map_values(|m: String| m@)
                                    =~= before[j].members.push(entry.path@));
                            }
                        }
                    }
                    lemma_map_of_groups_update(before, k as int, updated);
                }
            },
            None => {
                proof {
                    assert forall|j: int| 0 <= j < before.len() implies before[j].digest
                        != entry.digest@ by {
                        assert(before[j] == index.groups@[j]@);
                    }
                    lemma_map_of_groups_dom(before, entry.digest@);
                }
                let mut members: Vec<String> = Vec::new();
                members.push(entry.path.clone());
                let group = DuplicateGroup { digest: entry.digest.clone(), members };
                let ghost groupm = group@;
                proof {
                    assert(groupm.members =~= seq![entry.path@]);
                }
                index.groups.push(group);
                proof {
                    assert(index@ =~= before.push(groupm));
                    assert(index@.drop_last() =~= before);
                    assert(index@.last() == groupm);
                }
            },
        }
        i = i + 1;
    }
    proof {
        assert(entriesv.take(entriesv.len() as int) =~= entriesv);
    }
    index
}

/// The test an index groups by: carrying a given digest.
pub open spec fn has_digest(d: Seq<char>) -> spec_fn(EntryModel) -> bool {
    |e: EntryModel| e.digest == d
}

/// The path of a hashed file.
pub open spec fn entry_path() -> spec_fn(EntryModel) -> Seq<char> {
    |e: EntryModel| e.path
}

/// The members a digest's group must hold: the paths of exactly the hashed
/// files that carried that digest, in arrival order.
pub open spec fn members_of(entries: Seq<EntryModel>, d: Seq<char>) -> Seq<Seq<char>> {
    entries.filter(has_digest(d)).map_values(entry_path())
}

proof fn lemma_filter_none(s: Seq<EntryModel>, d: Seq<char>)
    requires
        forall|i: int| 0 <= i < s.len() ==> s[i].digest != d,
    ensures
        s.filter(has_digest(d)).len() == 0,
    decreases s.len(),
{
    reveal(Seq::filter);
    if s.len() > 0 {
        assert(forall|i: int| 0 <= i < s.len() - 1 ==> s.drop_last()[i] == s[i]);
        lemma_filter_none(s.drop_last(), d);
        assert(!has_digest(d)(s.last()));
    }
}

proof fn lemma_filter_subset(s: Seq<EntryModel>, d: Seq<char>, k: int)
    requires
        0 <= k < s.filter(has_digest(d)).len(),
    ensures
        s.contains(s.filter(has_digest(d))[k]),
    decreases s.len(),
{
    reveal(Seq::filter);
    if s.len() > 0 {
        let sub = s.drop_last().filter(has_digest(d));
        if has_digest(d)(s.last()) && k == s.filter(has_digest(d)).len() - 1 {
            assert(s.filter(has_digest(d))[k] == s.last());
            assert(s[s.len() - 1] == s.last());
        } else {
            assert(k < sub.len());
            assert(s.filter(has_digest(d))[k] == sub[k]);
            lemma_filter_subset(s.drop_last(), d, k);
            let j = choose|j: int| 0 <= j < s.drop_last().len() && s.drop_last()[j] == sub[k];
            assert(s[j] == sub[k]);
        }
    }
}

/// Grouping is sound and complete: a digest keys the index exactly when some
/// hashed file carried it, and its group's members are exactly the paths of
/// the files that hashed to it, in arrival order.
pub proof fn lemma_index_characterizes(entries: Seq<EntryModel>, d: Seq<char>)
    ensures
        spec_index(entries).dom().contains(d) <==> exists|i: int|
            0 <= i < entries.len() && entries[i].digest == d,
        spec_index(entries).dom().contains(d) ==> spec_index(entries)[d] == members_of(
            entries,
            d,
        ),
    decreases entries.len(),
{
    reveal(Seq::filter);
    if entries.len() > 0 {
        let prev = entries.drop_last();
        let e = entries.last();
        lemma_index_characterizes(prev, d);
        assert(forall|i: int| 0 <= i < prev.len() ==> prev[i] == entries[i]);
        let pm = spec_index(prev);
        if e.digest == d {
            assert(entries[entries.len() - 1].digest == d);
            assert(has_digest(d)(e));
            assert(entries.filter(has_digest(d)) == prev.filter(has_digest(d)).push(e));
            assert(members_of(entries, d) =~= members_of(prev, d).push(e.path));
            if pm.dom().contains(d) {
                assert(spec_index(entries)[d] == pm[d].push(e.path));
            } else {
                assert(forall|i: int| 0 <= i < prev.len() ==> prev[i].digest != d);
                lemma_filter_none(prev, d);
                assert(members_of(prev, d) =~= Seq::<Seq<char>>::empty());
                assert(members_of(entries, d) =~= seq![e.path]);
                assert(spec_index(entries)[d] == seq![e.path]);
            }
        } else {
            assert(!has_digest(d)(e));
            assert(entries.filter(has_digest(d)) == prev.filter(has_digest(d)));
            if exists|i: int| 0 <= i < entries.len() && entries[i].digest == d {
                let i = choose|i: int| 0 <= i < entries.len() && entries[i].digest == d;
                assert(prev[i].digest == d);
            }
        }
    }
}

/// Grouping soundness: every member of a digest's group arrived as a hashed
/// file carrying exactly that digest, so files grouped apart hashed
/// differently.
pub proof fn lemma_member_from_entry(entries: Seq<EntryModel>, d: Seq<char>, k: int)
    requires
        spec_index(entries).dom().contains(d),
        0 <= k < spec_index(entries)[d].len(),
    ensures
        exists|i: int|
            0 <= i < entries.len() && entries[i].digest == d && entries[i].path == spec_index(
                entries,
            )[d][k],
{
    broadcast use group_filter_ensures;

    lemma_index_characterizes(entries, d);
    let f = entries.filter(has_digest(d));
    assert(has_digest(d)(f[k]));
    lemma_filter_subset(entries, d, k);
    let i = choose|i: int| 0 <= i < entries.len() && entries[i] == f[k];
    assert(spec_index(entries)[d][k] == entry_path()(f[k]));
    assert(entries[i].digest == d && entries[i].path == spec_index(entries)[d][k]);
}

proof fn lemma_filter_to_multiset(s: Seq<EntryModel>, d: Seq<char>)
    ensures
        s.filter(has_digest(d)).to_multiset() == s.to_multiset().filter(has_digest(d)),
    decreases s.len(),
{
    reveal(Seq::filter);
    broadcast use group_to_multiset_ensures;
    broadcast use vstd::multiset::group_multiset_axioms;

    if s.len() == 0 {
        assert forall|v: EntryModel| s.filter(has_digest(d)).to_multiset().count(v)
            == s.to_multiset().filter(has_digest(d)).count(v) by {
            assert(!s.contains(v));
            assert(!s.filter(has_digest(d)).contains(v));
        }
        assert(s.filter(has_digest(d)).to_multiset() =~= s.to_multiset().filter(has_digest(d)));
    } else {
        let prev = s.drop_last();
        let x = s.last();
        lemma_filter_to_multiset(prev, d);
        assert(prev.push(x) =~= s);
        assert(prev.push(x).to_multiset() =~= prev.to_multiset().insert(x));
        if has_digest(d)(x) {
            assert(s.filter(has_digest(d)) == prev.filter(has_digest(d)).push(x));
            assert(prev.filter(has_digest(d)).push(x).to_multiset() =~= prev.filter(
                has_digest(d),
            ).to_multiset().insert(x));
            assert(prev.to_multiset().insert(x).filter(has_digest(d)) =~= prev.to_multiset()
                .filter(has_digest(d)).insert(x));
        } else {
            assert(s.filter(has_digest(d)) == prev.filter(has_digest(d)));
            assert(prev.to_multiset().insert(x).filter(has_digest(d)) =~= prev.to_multiset()
                .filter(has_digest(d)));
        }
    }
}

proof fn lemma_map_values_multiset(a: Seq<EntryModel>, b: Seq<EntryModel>)
    requires
        a.to_multiset() == b.to_multiset(),
    ensures
        a.map_values(entry_path()).to_multiset() == b.map_values(entry_path()).to_multiset(),
    decreases a.len(),
{
    broadcast use group_to_multiset_ensures;
    broadcast use vstd::multiset::group_multiset_axioms;

    if a.len() == 0 {
        assert(b.to_multiset().len() == 0);
        assert(b.len() == 0);
        assert(a.map_values(entry_path()) =~= b.map_values(entry_path()));
    } else {
        let x = a.last();
        assert(a.contains(x));
        assert(b.to_multiset().count(x) > 0);
        assert(b.contains(x));
        let j = choose|j: int| 0 <= j < b.len() && b[j] == x;
        let b2 = b.remove(j);
        assert(b2.to_multiset() == b.to_multiset().remove(x));
        assert(a.drop_last().push(x) =~= a);
        assert(a.drop_last().push(x).to_multiset() =~= a.drop_last().to_multiset().insert(x));
        assert(a.drop_last().to_multiset() =~= a.to_multiset().remove(x));
        lemma_map_values_multiset(a.drop_last(), b2);
        assert(a.map_values(entry_path()) =~= a.drop_last().map_values(entry_path()).push(
            x.path,
        ));
        assert(a.drop_last().map_values(entry_path()).push(x.path).to_multiset()
            =~= a.drop_last().map_values(entry_path()).to_multiset().insert(x.path));
        assert(b2.map_values(entry_path()) =~= b.map_values(entry_path()).remove(j));
        assert(b.map_values(entry_path())[j] == x.path);
        assert(b.map_values(entry_path()).remove(j).to_multiset() == b.map_values(
            entry_path(),
        ).to_multiset().remove(x.path));
        assert(b.map_values(entry_path()).contains(b.map_values(entry_path())[j]));
        assert(b.map_values(entry_path()).to_multiset().count(x.path) > 0);
        assert(b.map_values(entry_path()).to_multiset() =~= b.map_values(
            entry_path(),
        ).to_multiset().remove(x.path).insert(x.path));
        assert(a.map_values(entry_path()).to_multiset() =~= b.map_values(
            entry_path(),
        ).to_multiset());
    }
}

/// Re-scanning an unchanged tree is idempotent: two scans that hash the same
/// files — in whatever order the parallel workers finish — key the same
/// digests, and fill each digest's group with the same members, up to member
/// order.
pub proof fn lemma_rescan_equivalent(e1: Seq<EntryModel>, e2: Seq<EntryModel>, d: Seq<char>)
    requires
        e1.to_multiset() == e2.to_multiset(),
    ensures
        spec_index(e1).dom() =~= spec_index(e2).dom(),
        spec_index(e1).dom().contains(d) ==> spec_index(e1)[d].to_multiset() == spec_index(
            e2,
        )[d].to_multiset(),
{
    broadcast use group_to_multiset_ensures;

    assert forall|x: Seq<char>|
        spec_index(e1).dom().contains(x) == spec_index(e2).dom().contains(x) by {
        lemma_index_characterizes(e1, x);
        lemma_index_characterizes(e2, x);
        if exists|i: int| 0 <= i < e1.len() && e1[i].digest == x {
            let i = choose|i: int| 0 <= i < e1.len() && e1[i].digest == x;
            assert(e1.contains(e1[i]));
            assert(e2.to_multiset().count(e1[i]) > 0);
            assert(e2.contains(e1[i]));
            let j = choose|j: int| 0 <= j < e2.len() && e2[j] == e1[i];
            assert(e2[j].digest == x);
        }
        if exists|i: int| 0 <= i < e2.len() && e2[i].digest == x {
            let i = choose|i: int| 0 <= i < e2.len() && e2[i].digest == x;
            assert(e2.contains(e2[i]));
            assert(e1.to_multiset().count(e2[i]) > 0);
            assert(e1.contains(e2[i]));
            let j = choose|j: int| 0 <= j < e1.len() && e1[j] == e2[i];
            assert(e1[j].digest == x);
        }
    }
    if spec_index(e1).dom().contains(d) {
        lemma_index_characterizes(e1, d);
        lemma_index_characterizes(e2, d);
        lemma_filter_to_multiset(e1, d);
        lemma_filter_to_multiset(e2, d);
        lemma_map_values_multiset(e1.filter(has_digest(d)), e2.filter(has_digest(d)));
    }
}

} // verus!

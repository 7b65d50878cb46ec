//! The manifest that records, per flake input, the revision it is pinned
//! to and the requirements behind it.
use crate::config::{copy_strings, PinConfig};
use crate::merge::PinGroup;
use crate::text::{copy_string, owned, text_eq, text_less, text_lt, texts};
use vstd::prelude::*;

verus! {

/// One requirement behind a pinned input.
#[derive(Debug)]
pub struct ManifestMember {
    pub name: String,
    pub packages: Vec<String>,
    pub wish_packages: Vec<String>,
}

/// One pinned input.
#[derive(Debug)]
pub struct ManifestTarget {
    pub input_name: String,
    pub revision: String,
    pub branch: String,
    pub branch_fallbacks: Vec<String>,
    pub members: Vec<ManifestMember>,
}

/// The manifest of every pinned input.
#[derive(Debug)]
pub struct Manifest {
    pub schema_version: u32,
    pub source_of_truth: String,
    pub targets: Vec<ManifestTarget>,
}

/// The content of a requirement's entry.
pub struct MemberView {
    pub name: Seq<char>,
    pub packages: Seq<Seq<char>>,
    pub wish_packages: Seq<Seq<char>>,
}

/// The content of a pinned input's entry.
pub struct TargetView {
    pub input_name: Seq<char>,
    pub revision: Seq<char>,
    pub branch: Seq<char>,
    pub branch_fallbacks: Seq<Seq<char>>,
    pub members: Seq<MemberView>,
}

impl View for ManifestMember {
    type V = MemberView;

    open spec fn view(&self) -> MemberView {
        MemberView { name: self.name@, packages: texts(self.packages@), wish_packages: texts(self.wish_packages@) }
    }
}

impl View for ManifestTarget {
    type V = TargetView;

    open spec fn view(&self) -> TargetView {
        TargetView {
            input_name: self.input_name@,
            revision: self.revision@,
            branch: self.branch@,
            branch_fallbacks: texts(self.branch_fallbacks@),
            members: self.members@.map_values(|m: ManifestMember| m@),
        }
    }
}

/// The revision recorded for an input: the first one given for it, else
/// empty.
pub open spec fn revision_for(revisions: Seq<(String, String)>, input: Seq<char>) -> Seq<char>
    decreases revisions.len(),
{
    if revisions.len() == 0 {
        seq![]
    } else if revisions[0].0@ == input {
        revisions[0].1@
    } else {
        revision_for(revisions.drop_first(), input)
    }
}

/// The entry of a requirement.
pub open spec fn member_entry(c: PinConfig) -> MemberView {
    MemberView { name: c.name@, packages: texts(c.packages@), wish_packages: texts(c.wish_packages@) }
}

/// The entry of a pinned input.
pub open spec fn target_entry(g: PinGroup, revisions: Seq<(String, String)>) -> TargetView {
    TargetView {
        input_name: g.input_name@,
        revision: revision_for(revisions, g.input_name@),
        branch: g.merged.branch@,
        branch_fallbacks: texts(g.merged.branch_fallbacks@),
        members: g.members@.map_values(|c: PinConfig| member_entry(c)),
    }
}

/// `t` placed after every entry whose input name is not greater.
pub open spec fn insert_by_input(sorted: Seq<TargetView>, t: TargetView) -> Seq<TargetView>
    decreases sorted.len(),
{
    if sorted.len() == 0 {
        seq![t]
    } else if text_lt(t.input_name, sorted.last().input_name) {
        insert_by_input(sorted.drop_last(), t).push(sorted.last())
    } else {
        sorted.push(t)
    }
}

/// The entries ordered by input name, equal names in their given order.
pub open spec fn sort_by_input(ts: Seq<TargetView>) -> Seq<TargetView>
    decreases ts.len(),
{
    if ts.len() == 0 {
        seq![]
    } else {
        insert_by_input(sort_by_input(ts.drop_last()), ts.last())
    }
}

/// The entries of every group.
pub open spec fn target_entries(groups: Seq<PinGroup>, revisions: Seq<(String, String)>) -> Seq<TargetView>
    decreases groups.len(),
{
    if groups.len() == 0 {
        seq![]
    } else {
        target_entries(groups.drop_last(), revisions).push(target_entry(groups.last(), revisions))
    }
}

proof fn lemma_insert_by_input(s: Seq<TargetView>, t: TargetView, j: int)
    requires
        0 <= j <= s.len(),
        forall|k: int| j <= k < s.len() ==> text_lt(t.input_name, #[trigger] s[k].input_name),
        j > 0 ==> !text_lt(t.input_name, s[j - 1].input_name),
    ensures
        insert_by_input(s, t) == s.subrange(0, j).push(t) + s.subrange(j, s.len() as int),
    decreases s.len(),
{
    if s.len() == 0 {
        assert(s.subrange(0, j).push(t) + s.subrange(j, s.len() as int) =~= seq![t]);
    } else if j == s.len() {
        assert(s.subrange(0, j).push(t) + s.subrange(j, s.len() as int) =~= s.push(t));
    } else {
        let u = s.drop_last();
        assert forall|k: int| j <= k < u.len() implies text_lt(t.input_name, #[trigger] u[k].input_name) by {
            assert(u[k] == s[k]);
        }
        lemma_insert_by_input(u, t, j);
        assert(s.subrange(0, j).push(t) + s.subrange(j, s.len() as int) =~= (u.subrange(0, j).push(t) + u.subrange(j, u.len() as int)).push(s.last()));
    }
}

fn member_of(c: &PinConfig) -> (r: ManifestMember)
    ensures
        r@ == member_entry(*c),
{
    ManifestMember { name: copy_string(&c.name), packages: copy_strings(&c.packages), wish_packages: copy_strings(&c.wish_packages) }
}

fn revision_lookup(revisions: &Vec<(String, String)>, input: &str) -> (r: String)
    ensures
        r@ == revision_for(revisions@, input@),
{
    let mut i: usize = 0;
    assert(revisions@.subrange(0, revisions@.len() as int) =~= revisions@);
    while i < revisions.len()
        invariant
            i <= revisions@.len(),
            revision_for(revisions@, input@) == revision_for(revisions@.subrange(i as int, revisions@.len() as int), input@),
        decreases revisions@.len() - i,
    {
        let ghost tail = revisions@.subrange(i as int, revisions@.len() as int);
        assert(tail[0] == revisions@[i as int]);
        assert(tail.drop_first() =~= revisions@.subrange(i + 1, revisions@.len() as int));
        if text_eq(revisions[i].0.as_str(), input) {
            return copy_string(&revisions[i].1);
        }
        i = i + 1;
    }
    assert(revisions@.subrange(i as int, revisions@.len() as int) =~= Seq::<(String, String)>::empty());
    String::new()
}

fn target_of(g: &PinGroup, revisions: &Vec<(String, String)>) -> (r: ManifestTarget)
    ensures
        r@ == target_entry(*g, revisions@),
{
    let mut members: Vec<ManifestMember> = Vec::new();
    let mut i: usize = 0;
    while i < g.members.len()
        invariant
            i <= g.members@.len(),
            members@.map_values(|m: ManifestMember| m@) == g.members@.subrange(0, i as int).map_values(|c: PinConfig| member_entry(c)),
        decreases g.members@.len() - i,
    {
        let ghost before = members@.map_values(|m: ManifestMember| m@);
        members.push(member_of(&g.members[i]));
        assert(members@.map_values(|m: ManifestMember| m@) =~= before.push(member_entry(g.members@[i as int])));
        assert(g.members@.subrange(0, i + 1).map_values(|c: PinConfig| member_entry(c)) =~= g.members@.subrange(0, i as int).map_values(|c: PinConfig| member_entry(c)).push(member_entry(g.members@[i as int])));
        i = i + 1;
    }
    assert(g.members@.subrange(0, i as int) =~= g.members@);
    ManifestTarget {
        input_name: copy_string(&g.input_name),
        revision: revision_lookup(revisions, g.input_name.as_str()),
        branch: copy_string(&g.merged.branch),
        branch_fallbacks: copy_strings(&g.merged.branch_fallbacks),
        members,
    }
}

/// The views of a list of entries.
pub open spec fn target_views(v: Seq<ManifestTarget>) -> Seq<TargetView> {
    v.map_values(|t: ManifestTarget| t@)
}

/// The manifest for the groups and the revisions they move to: one entry
/// per group, ordered by input name.
pub fn manifest(groups: &Vec<PinGroup>, revisions: &Vec<(String, String)>) -> (r: Manifest)
    ensures
        r.schema_version == 1,
        r.source_of_truth@ == "flake.lock"@,
        target_views(r.targets@) == sort_by_input(target_entries(groups@, revisions@)),
{
    let ghost all = target_entries(groups@, revisions@);
    let mut sorted: Vec<ManifestTarget> = Vec::new();
    let mut i: usize = 0;
    while i < groups.len()
        invariant
            i <= groups@.len(),
            all == target_entries(groups@, revisions@),
            target_views(sorted@) == sort_by_input(target_entries(groups@.subrange(0, i as int), revisions@)),
        decreases groups@.len() - i,
    {
        let t = target_of(&groups[i], revisions);
        let ghost before = target_views(sorted@);
        let mut j: usize = sorted.len();
        while j > 0 && text_less(t.input_name.as_str(), sorted[j - 1].input_name.as_str())
            invariant
                j <= sorted@.len(),
                before == target_views(sorted@),
                forall|k: int| j <= k < sorted@.len() ==> text_lt(t.input_name@, #[trigger] before[k].input_name),
            decreases j,
        {
            assert(before[j - 1] == sorted@[j - 1]@);
            j = j - 1;
        }
        proof {
            if j > 0 {
                assert(before[j - 1] == sorted@[j - 1]@);
            }
            lemma_insert_by_input(before, t@, j as int);
            assert(groups@.subrange(0, i + 1).drop_last() =~= groups@.subrange(0, i as int));
            assert(groups@.subrange(0, i + 1).last() == groups@[i as int]);
        }
        let ghost tv = t@;
        sorted.insert(j, t);
        assert(target_views(sorted@) =~= before.subrange(0, j as int).push(tv) + before.subrange(j as int, before.len() as int));
        proof {
            let te = target_entries(groups@.subrange(0, i + 1), revisions@);
            assert(te.drop_last() =~= target_entries(groups@.subrange(0, i as int), revisions@));
            assert(te.last() == tv);
        }
        i = i + 1;
    }
    assert(groups@.subrange(0, i as int) =~= groups@);
    Manifest { schema_version: 1, source_of_truth: owned("flake.lock"), targets: sorted }
}

} // verus!

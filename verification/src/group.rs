//! The multiline grouper: multiline annotations whose line ranges overlap
//! share a group, and with it the gutter space in which their brackets
//! nest.

use crate::classify::MultilineAnnotation;
use vstd::prelude::*;

verus! {

/// Multiline annotations that share gutter space. `members` holds their
/// places in the list of multiline annotations, in the order in which they
/// joined; a member's place in `members` is its side index.
#[derive(Debug, Clone, PartialEq, Eq)]
pub struct MultilineGroup {
    pub first_line: usize,
    pub last_line: usize,
    pub members: Vec<usize>,
}

/// A group as contracts see it.
pub struct GroupView {
    pub first_line: usize,
    pub last_line: usize,
    pub members: Seq<usize>,
}

impl View for MultilineGroup {
    type V = GroupView;

    open spec fn view(&self) -> GroupView {
        GroupView {
            first_line: self.first_line,
            last_line: self.last_line,
            members: self.members@,
        }
    }
}

/// The groups as contracts see them.
pub open spec fn groups_view(groups: Seq<MultilineGroup>) -> Seq<GroupView> {
    Seq::new(groups.len(), |i: int| groups[i]@)
}

/// Whether the line ranges of the group and of the annotation, both closed,
/// share a line.
pub open spec fn touches(g: GroupView, m: MultilineAnnotation) -> bool {
    g.first_line <= m.end_line && m.start_line <= g.last_line
}

/// Whether the line ranges of two annotations, both closed, share a line.
pub open spec fn ranges_overlap(a: MultilineAnnotation, b: MultilineAnnotation) -> bool {
    a.start_line <= b.end_line && b.start_line <= a.end_line
}

/// The index of the first group from `from` on that touches the
/// annotation, or the number of groups where none does.
pub open spec fn first_touching(groups: Seq<GroupView>, m: MultilineAnnotation, from: int) -> int
    decreases groups.len() - from,
{
    if from >= groups.len() {
        groups.len() as int
    } else if touches(groups[from], m) {
        from
    } else {
        first_touching(groups, m, from + 1)
    }
}

/// The group once the annotation at place `k` has joined it: its bounds
/// widened to hold the annotation, the annotation last among its members.
pub open spec fn widened(g: GroupView, m: MultilineAnnotation, k: usize) -> GroupView {
    GroupView {
        first_line: if m.start_line < g.first_line {
            m.start_line
        } else {
            g.first_line
        },
        last_line: if m.end_line > g.last_line {
            m.end_line
        } else {
            g.last_line
        },
        members: g.members.push(k),
    }
}

/// The groups once the annotation at place `k` is placed: it joins the
/// first group that it touches and no other, or starts a group of its own
/// behind the others.
pub open spec fn place(groups: Seq<GroupView>, m: MultilineAnnotation, k: usize) -> Seq<
    GroupView,
> {
    let g = first_touching(groups, m, 0);
    if g < groups.len() {
        groups.update(g, widened(groups[g], m, k))
    } else {
        groups.push(GroupView { first_line: m.start_line, last_line: m.end_line, members: seq![k] })
    }
}

/// The groups that the annotations form when they are placed one by one,
/// in order.
pub open spec fn grouped(multi: Seq<MultilineAnnotation>) -> Seq<GroupView>
    decreases multi.len(),
{
    if multi.len() == 0 {
        Seq::empty()
    } else {
        place(grouped(multi.drop_last()), multi.last(), (multi.len() - 1) as usize)
    }
}

/// The size of the largest group, 0 where there is none.
pub open spec fn largest_group(groups: Seq<GroupView>) -> nat
    decreases groups.len(),
{
    if groups.len() == 0 {
        0
    } else {
        let rest = largest_group(groups.drop_last());
        if groups.last().members.len() > rest {
            groups.last().members.len()
        } else {
            rest
        }
    }
}

/// What `first_touching` finds lies between `from` and the number of
/// groups, no group from `from` up to it touches the annotation, and it
/// touches the annotation unless it is the number of groups.
pub proof fn lemma_first_touching(groups: Seq<GroupView>, m: MultilineAnnotation, from: int)
    requires
        0 <= from <= groups.len(),
    ensures
        from <= first_touching(groups, m, from) <= groups.len(),
        forall|j: int|
            from <= j < first_touching(groups, m, from) ==> !touches(#[trigger] groups[j], m),
        first_touching(groups, m, from) < groups.len() ==> touches(
            groups[first_touching(groups, m, from)],
            m,
        ),
    decreases groups.len() - from,
{
    if from >= groups.len() {
    } else if touches(groups[from], m) {
    } else {
        lemma_first_touching(groups, m, from + 1);
    }
}

/// The number of members of all the groups together.
pub open spec fn member_count(groups: Seq<GroupView>) -> nat
    decreases groups.len(),
{
    if groups.len() == 0 {
        0
    } else {
        member_count(groups.drop_last()) + groups.last().members.len()
    }
}

/// Whether the groups are sound for `count` annotations on lines below
/// `n_lines`: every group has a member, every member is the place of one
/// of the annotations, and every group ends on one of the lines.
pub open spec fn groups_sound(groups: Seq<GroupView>, count: int, n_lines: int) -> bool {
    forall|g: int|
        0 <= g < groups.len() ==> {
            &&& (#[trigger] groups[g]).members.len() >= 1
            &&& groups[g].last_line < n_lines
            &&& forall|s: int|
                0 <= s < groups[g].members.len() ==> (#[trigger] groups[g].members[s]) < count
        }
}

/// Giving one group one member more gives all the groups together one
/// member more.
pub proof fn lemma_member_count_update(groups: Seq<GroupView>, g: int, joined: GroupView)
    requires
        0 <= g < groups.len(),
        joined.members.len() == groups[g].members.len() + 1,
    ensures
        member_count(groups.update(g, joined)) == member_count(groups) + 1,
    decreases groups.len(),
{
    let updated = groups.update(g, joined);
    if g == groups.len() - 1 {
        assert(updated.drop_last() =~= groups.drop_last());
    } else {
        assert(updated.drop_last() =~= groups.drop_last().update(g, joined));
        lemma_member_count_update(groups.drop_last(), g, joined);
    }
}

/// No group has more members than all the groups together.
pub proof fn lemma_largest_group_bound(groups: Seq<GroupView>)
    ensures
        largest_group(groups) <= member_count(groups),
        forall|g: int| 0 <= g < groups.len() ==> (#[trigger] groups[g]).members.len() <= largest_group(groups),
    decreases groups.len(),
{
    if groups.len() > 0 {
        lemma_largest_group_bound(groups.drop_last());
        assert forall|g: int| 0 <= g < groups.len() implies (#[trigger] groups[g]).members.len()
            <= largest_group(groups) by {
            if g < groups.len() - 1 {
                assert(groups[g] == groups.drop_last()[g]);
            }
        }
    }
}

/// The groups that annotations form hold each annotation once: together
/// they have as many members as there are annotations, and they are sound
/// for the lines on which the annotations end.
pub proof fn lemma_grouped_sound(multi: Seq<MultilineAnnotation>, n_lines: int)
    requires
        multi.len() <= usize::MAX,
        forall|k: int| 0 <= k < multi.len() ==> (#[trigger] multi[k]).end_line < n_lines,
    ensures
        member_count(grouped(multi)) == multi.len(),
        groups_sound(grouped(multi), multi.len() as int, n_lines),
    decreases multi.len(),
{
    if multi.len() > 0 {
        let head = multi.drop_last();
        assert forall|k: int| 0 <= k < head.len() implies (#[trigger] head[k]).end_line
            < n_lines by {
            assert(head[k] == multi[k]);
        }
        lemma_grouped_sound(head, n_lines);
        let before = grouped(head);
        let m = multi.last();
        let k = (multi.len() - 1) as usize;
        let g = first_touching(before, m, 0);
        lemma_first_touching(before, m, 0);
        let after = place(before, m, k);
        if g < before.len() {
            lemma_member_count_update(before, g, widened(before[g], m, k));
            assert forall|h: int| 0 <= h < after.len() implies {
                &&& (#[trigger] after[h]).members.len() >= 1
                &&& after[h].last_line < n_lines
                &&& forall|s: int|
                    0 <= s < after[h].members.len() ==> (#[trigger] after[h].members[s])
                        < multi.len()
            } by {
                if h != g {
                    assert(after[h] == before[h]);
                }
                assert forall|s: int| 0 <= s < after[h].members.len() implies (
                #[trigger] after[h].members[s]) < multi.len() by {
                    if h == g && s == before[g].members.len() {
                    } else {
                        assert(after[h].members[s] == before[h].members[s]);
                    }
                }
            }
        } else {
            assert(after.drop_last() =~= before);
            assert forall|h: int| 0 <= h < after.len() implies {
                &&& (#[trigger] after[h]).members.len() >= 1
                &&& after[h].last_line < n_lines
                &&& forall|s: int|
                    0 <= s < after[h].members.len() ==> (#[trigger] after[h].members[s])
                        < multi.len()
            } by {
                if h < before.len() {
                    assert(after[h] == before[h]);
                }
            }
        }
    }
}

/// Whether the group's line range holds that of the annotation.
pub open spec fn covers(g: GroupView, m: MultilineAnnotation) -> bool {
    g.first_line <= m.start_line && m.end_line <= g.last_line
}

/// The index of the group that the annotation at place `k` joins or starts
/// when it is placed.
pub open spec fn group_index(multi: Seq<MultilineAnnotation>, k: int) -> int {
    first_touching(grouped(multi.take(k)), multi[k], 0)
}

/// The groups as they are when the annotation at place `k` is placed: the
/// groups of the annotations before it.
pub open spec fn groups_before(multi: Seq<MultilineAnnotation>, k: int) -> Seq<GroupView> {
    grouped(multi.take(k))
}

/// Placing the first `upto` annotations is placing the last of them among
/// the groups of those before it.
pub proof fn lemma_grouped_step(multi: Seq<MultilineAnnotation>, upto: int)
    requires
        0 < upto <= multi.len() <= usize::MAX,
    ensures
        grouped(multi.take(upto)) == place(
            grouped(multi.take(upto - 1)),
            multi[upto - 1],
            (upto - 1) as usize,
        ),
{
    assert(multi.take(upto).drop_last() =~= multi.take(upto - 1));
    assert(multi.take(upto).last() == multi[upto - 1]);
}

/// Once placed, an annotation stays in its group and in no other, whatever
/// is placed after it: among the groups of the first `upto` annotations the
/// group at its index holds it and covers its line range, and no other
/// group holds it.
pub proof fn lemma_group_of_member(multi: Seq<MultilineAnnotation>, k: int, upto: int)
    requires
        0 <= k < upto <= multi.len() <= usize::MAX,
    ensures
        0 <= group_index(multi, k) < grouped(multi.take(upto)).len(),
        grouped(multi.take(upto))[group_index(multi, k)].members.contains(k as usize),
        covers(grouped(multi.take(upto))[group_index(multi, k)], multi[k]),
        forall|g: int|
            0 <= g < grouped(multi.take(upto)).len() && g != group_index(multi, k) ==> !(
            #[trigger] grouped(multi.take(upto))[g]).members.contains(k as usize),
    decreases upto,
{
    let gi = group_index(multi, k);
    let after = grouped(multi.take(upto));
    let before = grouped(multi.take(upto - 1));
    let m = multi[upto - 1];
    let place_at = (upto - 1) as usize;
    lemma_grouped_step(multi, upto);
    let g = first_touching(before, m, 0);
    lemma_first_touching(before, m, 0);
    if upto == k + 1 {
        lemma_grouped_sound(multi.take(k), usize::MAX + 1);
        assert(g == gi);
        if g < before.len() {
            let joined = widened(before[g], m, place_at);
            assert(joined.members[joined.members.len() - 1] == place_at);
        } else {
            assert(after[gi].members[0] == place_at);
        }
        assert forall|h: int| 0 <= h < after.len() && h != gi implies !(#[trigger] after[h]).members.contains(
            k as usize,
        ) by {
            assert(after[h] == before[h]);
            if before[h].members.contains(k as usize) {
                let s = choose|s: int|
                    0 <= s < before[h].members.len() && before[h].members[s] == k as usize;
                assert(before[h].members[s] < k);
            }
        }
    } else {
        lemma_group_of_member(multi, k, upto - 1);
        let s = choose|s: int|
            0 <= s < before[gi].members.len() && before[gi].members[s] == k as usize;
        if g < before.len() {
            let joined = widened(before[g], m, place_at);
            if g == gi {
                assert(joined.members[s] == k as usize);
            }
            assert forall|h: int| 0 <= h < after.len() && h != gi implies !(
            #[trigger] after[h]).members.contains(k as usize) by {
                if h == g {
                    if joined.members.contains(k as usize) {
                        let t = choose|t: int|
                            0 <= t < joined.members.len() && joined.members[t] == k as usize;
                        assert(t < before[g].members.len());
                        assert(before[g].members[t] == k as usize);
                    }
                } else {
                    assert(after[h] == before[h]);
                }
            }
        } else {
            assert(after[gi] == before[gi]);
            assert forall|h: int| 0 <= h < after.len() && h != gi implies !(
            #[trigger] after[h]).members.contains(k as usize) by {
                if h < before.len() {
                    assert(after[h] == before[h]);
                } else {
                    if after[h].members.contains(k as usize) {
                        let t = choose|t: int|
                            0 <= t < after[h].members.len() && after[h].members[t] == k as usize;
                        assert(t == 0);
                    }
                }
            }
        }
    }
}

/// In the end every annotation is in the group at its index and in no
/// other.
pub proof fn lemma_member_of_final_group(multi: Seq<MultilineAnnotation>, k: int)
    requires
        0 <= k < multi.len() <= usize::MAX,
    ensures
        0 <= group_index(multi, k) < grouped(multi).len(),
        grouped(multi)[group_index(multi, k)].members.contains(k as usize),
        covers(grouped(multi)[group_index(multi, k)], multi[k]),
        forall|g: int|
            0 <= g < grouped(multi).len() && g != group_index(multi, k) ==> !(
            #[trigger] grouped(multi)[g]).members.contains(k as usize),
{
    lemma_group_of_member(multi, k, multi.len() as int);
    assert(multi.take(multi.len() as int) =~= multi);
}

/// An annotation whose line range overlaps that of an earlier one joins
/// the earlier one's group or a group made before it; it joins the earlier
/// one's group where no group made before that one reaches it.
///
/// That condition is needed: an annotation joins the first group that it
/// touches and no other, so one that bridges two groups leaves them apart.
pub proof fn lemma_overlapping_share_group(multi: Seq<MultilineAnnotation>, i: int, j: int)
    requires
        0 <= i < j < multi.len() <= usize::MAX,
        ranges_overlap(multi[i], multi[j]),
    ensures
        group_index(multi, j) <= group_index(multi, i),
        (forall|g: int|
            0 <= g < group_index(multi, i) ==> !touches(
                #[trigger] groups_before(multi, j)[g],
                multi[j],
            )) ==> group_index(multi, j) == group_index(multi, i),
{
    lemma_group_of_member(multi, i, j);
    lemma_first_touching(groups_before(multi, j), multi[j], 0);
}

/// An annotation whose line range shares no line with that of an earlier
/// one stays out of the earlier one's group, unless that group has since
/// grown to reach it and no group made before it does.
pub proof fn lemma_disjoint_kept_apart(multi: Seq<MultilineAnnotation>, i: int, j: int)
    requires
        0 <= i < j < multi.len() <= usize::MAX,
        !ranges_overlap(multi[i], multi[j]),
        !(touches(groups_before(multi, j)[group_index(multi, i)], multi[j]) && forall|g: int|
            0 <= g < group_index(multi, i) ==> !touches(
                #[trigger] groups_before(multi, j)[g],
                multi[j],
            )),
    ensures
        group_index(multi, j) != group_index(multi, i),
{
    lemma_group_of_member(multi, i, j);
    lemma_first_touching(groups_before(multi, j), multi[j], 0);
}

/// Of two annotations alone, those whose line ranges overlap form one
/// group, and those whose line ranges share no line form two.
pub proof fn lemma_pair_grouping(a: MultilineAnnotation, b: MultilineAnnotation)
    requires
        a.start_line <= a.end_line,
        b.start_line <= b.end_line,
    ensures
        ranges_overlap(a, b) ==> grouped(seq![a, b]).len() == 1 && grouped(seq![a, b])[0].members
            == seq![0usize, 1usize],
        !ranges_overlap(a, b) ==> grouped(seq![a, b]).len() == 2 && grouped(
            seq![a, b],
        )[0].members == seq![0usize] && grouped(seq![a, b])[1].members == seq![1usize],
{
    let multi = seq![a, b];
    assert(multi.drop_last() =~= seq![a]);
    assert(seq![a].drop_last() =~= Seq::<MultilineAnnotation>::empty());
    let none = grouped(Seq::<MultilineAnnotation>::empty());
    assert(none.len() == 0);
    let one = grouped(seq![a]);
    assert(one == place(none, a, 0usize));
    assert(one.len() == 1);
    assert(one[0].members =~= seq![0usize]);
    reveal_with_fuel(first_touching, 3);
    let two = grouped(multi);
    assert(two == place(one, b, 1usize));
    if ranges_overlap(a, b) {
        assert(touches(one[0], b));
        assert(two[0].members =~= seq![0usize, 1usize]);
    } else {
        assert(!touches(one[0], b));
        assert(two[1].members =~= seq![1usize]);
    }
}

/// Places the multiline annotations into groups, one by one, in order.
pub fn group_multiline(multi: &Vec<MultilineAnnotation>) -> (groups: Vec<MultilineGroup>)
    ensures
        groups_view(groups@) == grouped(multi@),
{
    let mut groups: Vec<MultilineGroup> = Vec::new();
    let mut k: usize = 0;
    proof {
        assert(groups_view(groups@) =~= grouped(multi@.take(0)));
    }
    while k < multi.len()
        invariant
            0 <= k <= multi@.len(),
            groups_view(groups@) == grouped(multi@.take(k as int)),
        decreases multi@.len() - k,
    {
        let m = multi[k];
        let ghost before = groups_view(groups@);
        proof {
            assert(multi@.take(k + 1).drop_last() =~= multi@.take(k as int));
            assert(multi@.take(k + 1).last() == m);
        }
        let mut g: usize = 0;
        while g < groups.len() && !(groups[g].first_line <= m.end_line && m.start_line
            <= groups[g].last_line)
            invariant
                0 <= g <= groups@.len(),
                before == groups_view(groups@),
                first_touching(before, m, 0) == first_touching(before, m, g as int),
            decreases groups@.len() - g,
        {
            assert(before[g as int] == groups@[g as int]@);
            g = g + 1;
        }
        proof {
            if g < groups@.len() {
                assert(before[g as int] == groups@[g as int]@);
            }
            assert(first_touching(before, m, 0) == g);
        }
        if g < groups.len() {
            let ghost old_groups = groups@;
            if m.start_line < groups[g].first_line {
                groups[g].first_line = m.start_line;
            }
            if m.end_line > groups[g].last_line {
                groups[g].last_line = m.end_line;
            }
            groups[g].members.push(k);
            proof {
                assert(groups@.len() == old_groups.len());
                assert(groups@[g as int]@ == widened(before[g as int], m, k));
                assert forall|j: int| 0 <= j < groups@.len() implies groups_view(groups@)[j]
                    == place(before, m, k)[j] by {
                    if j != g {
                        assert(groups@[j] == old_groups[j]);
                        assert(before[j] == old_groups[j]@);
                    }
                }
                assert(groups_view(groups@) =~= place(before, m, k));
            }
        } else {
            let ghost old_groups = groups@;
            let mut members: Vec<usize> = Vec::new();
            members.push(k);
            groups.push(MultilineGroup { first_line: m.start_line, last_line: m.end_line, members });
            proof {
                assert(members@ =~= seq![k]);
                assert forall|j: int| 0 <= j < groups@.len() implies groups_view(groups@)[j]
                    == place(before, m, k)[j] by {
                    if j < old_groups.len() {
                        assert(groups@[j] == old_groups[j]);
                        assert(before[j] == old_groups[j]@);
                    }
                }
                assert(groups_view(groups@) =~= place(before, m, k));
            }
        }
        k = k + 1;
    }
    proof {
        assert(multi@.take(k as int) =~= multi@);
    }
    groups
}

/// The size of the largest group, 0 where there is none.
pub fn largest_group_size(groups: &Vec<MultilineGroup>) -> (size: usize)
    ensures
        size == largest_group(groups_view(groups@)),
{
    let mut size: usize = 0;
    let mut g: usize = 0;
    proof {
        assert(groups_view(groups@).take(0) =~= Seq::empty());
    }
    while g < groups.len()
        invariant
            0 <= g <= groups@.len(),
            size == largest_group(groups_view(groups@).take(g as int)),
        decreases groups@.len() - g,
    {
        proof {
            let v = groups_view(groups@);
            assert(v.take(g + 1).drop_last() =~= v.take(g as int));
            assert(v.take(g + 1).last() == groups@[g as int]@);
        }
        if groups[g].members.len() > size {
            size = groups[g].members.len();
        }
        g = g + 1;
    }
    proof {
        assert(groups_view(groups@).take(g as int) =~= groups_view(groups@));
    }
    size
}

} // verus!

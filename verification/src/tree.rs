use vstd::prelude::*;
use vstd::hash_map::StringHashMap;
use vstd::hash_set::StringHashSet;

use crate::error::{UrdfParseError, UrdfParseErrorView};
use crate::types::{
    cmd_count, joints_well_placed, actuated_count, joint_index_map, joints_view, link_index_map, links_view, Joint, JointType,
    JointView, Link,
};

verus! {

// ----- the link/joint graph -----

/// Declared links (by name) and parsed joints, in file order.
pub struct JointGraph {
    pub links: Seq<Seq<char>>,
    pub joints: Seq<JointView>,
}

impl JointGraph {
    pub open spec fn link_map(self) -> Map<Seq<char>, usize> {
        link_index_map(self.links)
    }

    /// The link index that joint `j`'s parent name resolves to.
    pub open spec fn parent_of(self, j: int) -> usize {
        self.link_map()[self.joints[j].parent]
    }

    /// The link index that joint `j`'s child name resolves to, if declared.
    pub open spec fn child_of(self, j: int) -> Option<usize> {
        self.link_map().get(self.joints[j].child)
    }

    /// The joints among the first `n` whose parent is link `p`, in file order.
    pub open spec fn children_upto(self, p: usize, n: int) -> Seq<usize>
        decreases n,
    {
        if n <= 0 {
            seq![]
        } else {
            let prev = self.children_upto(p, n - 1);
            if self.parent_of(n - 1) == p {
                prev.push((n - 1) as usize)
            } else {
                prev
            }
        }
    }

    /// The joints whose parent is link `p`, in file order.
    pub open spec fn children(self, p: usize) -> Seq<usize> {
        self.children_upto(p, self.joints.len() as int)
    }

    /// The first joint at or after `start` whose parent is not a declared link.
    pub open spec fn unknown_parent_from(self, start: int) -> Option<usize>
        decreases self.joints.len() - start,
    {
        if start < 0 || start >= self.joints.len() {
            None
        } else if !self.link_map().contains_key(self.joints[start].parent) {
            Some(start as usize)
        } else {
            self.unknown_parent_from(start + 1)
        }
    }

    /// The names of the links that some joint has as child.
    pub open spec fn child_names_upto(self, n: int) -> Set<Seq<char>>
        decreases n,
    {
        if n <= 0 {
            Set::empty()
        } else {
            self.child_names_upto(n - 1).insert(self.joints[n - 1].child)
        }
    }

    /// The links among the first `n` that no joint has as child, in file order.
    pub open spec fn roots_upto(self, n: int) -> Seq<usize>
        decreases n,
    {
        if n <= 0 {
            seq![]
        } else {
            let prev = self.roots_upto(n - 1);
            if self.child_names_upto(self.joints.len() as int).contains(self.links[n - 1]) {
                prev
            } else {
                prev.push((n - 1) as usize)
            }
        }
    }

    pub open spec fn roots(self) -> Seq<usize> {
        self.roots_upto(self.links.len() as int)
    }
}

/// How a depth-first walk over a list of joints ends.
pub enum DfsOutcome {
    /// Every joint was visited; each visit is (joint, parent link, child link).
    Done(Seq<(usize, usize, usize)>),
    /// The walk reached a joint whose child is not a declared link.
    UnknownChild(usize),
    /// The walk would visit more joints than the budget allows.
    Overflow,
}

/// Depth-first pre-order walk: each joint of `list` (all children of link
/// `parent`) is visited, then the subtree below its child link, then the
/// remaining joints of `list`. At most `budget` joints are visited.
pub open spec fn dfs_list(g: JointGraph, list: Seq<usize>, parent: usize, budget: nat) -> DfsOutcome
    decreases budget, list.len(),
{
    if list.len() == 0 {
        DfsOutcome::Done(seq![])
    } else {
        let j = list[0];
        match g.child_of(j as int) {
            None => DfsOutcome::UnknownChild(j),
            Some(c) => if budget == 0 {
                DfsOutcome::Overflow
            } else {
                match dfs_list(g, g.children(c), c, (budget - 1) as nat) {
                    DfsOutcome::Done(sub) => if sub.len() < budget {
                        match dfs_list(g, list.drop_first(), parent, (budget - 1 - sub.len()) as nat) {
                            DfsOutcome::Done(rest) => DfsOutcome::Done(seq![(j, parent, c)] + sub + rest),
                            other => other,
                        }
                    } else {
                        DfsOutcome::Overflow
                    },
                    other => other,
                }
            },
        }
    }
}

/// The joints in visit order, each placed between its visit's links; movable
/// joints get consecutive command slots from `first_slot`, fixed joints none.
pub open spec fn resolve_visits_from(joints: Seq<JointView>, first_slot: nat, visits: Seq<(usize, usize, usize)>) -> Seq<JointView>
    decreases visits.len(),
{
    if visits.len() == 0 {
        seq![]
    } else {
        let prev = resolve_visits_from(joints, first_slot, visits.drop_last());
        let v = visits.last();
        let jv = joints[v.0 as int];
        prev.push(
            JointView {
                parent_link_idx: v.1,
                child_link_idx: v.2,
                cmd_idx: if jv.joint_type == JointType::Fixed {
                    None
                } else {
                    Some((first_slot + actuated_count(prev)) as usize)
                },
                ..jv
            },
        )
    }
}

/// The joints in visit order, placed, with command slots from 0.
pub open spec fn resolve_visits(joints: Seq<JointView>, visits: Seq<(usize, usize, usize)>) -> Seq<JointView> {
    resolve_visits_from(joints, 0, visits)
}

/// The joints ordered depth-first from the single root link, or why that fails.
pub open spec fn spec_resolve(links: Seq<Seq<char>>, joints: Seq<JointView>) -> Result<Seq<JointView>, UrdfParseErrorView> {
    let g = JointGraph { links, joints };
    match g.unknown_parent_from(0) {
        Some(j) => Err(UrdfParseErrorView::UnknownLink { joint: joints[j as int].name, link: joints[j as int].parent }),
        None => {
            let roots = g.roots();
            if roots.len() == 0 {
                Err(UrdfParseErrorView::NoRootLink)
            } else if roots.len() > 1 {
                Err(UrdfParseErrorView::MultipleRootLinks(roots.map_values(|i: usize| links[i as int])))
            } else {
                match dfs_list(g, g.children(roots[0]), roots[0], joints.len()) {
                    DfsOutcome::Done(v) => if v.len() == joints.len() {
                        Ok(resolve_visits(joints, v))
                    } else {
                        Err(UrdfParseErrorView::UnreachableJoints)
                    },
                    DfsOutcome::UnknownChild(j) => Err(UrdfParseErrorView::UnknownLink { joint: joints[j as int].name, link: joints[j as int].child }),
                    DfsOutcome::Overflow => Err(UrdfParseErrorView::UnreachableJoints),
                }
            }
        },
    }
}

// ----- facts -----

/// Every name in the link map resolves to a link of that name, and every
/// declared link name is in the map.
pub proof fn lemma_link_index_map(names: Seq<Seq<char>>)
    requires
        names.len() <= usize::MAX,
    ensures
        forall|k: Seq<char>| #[trigger] link_index_map(names).contains_key(k) ==> {
            &&& link_index_map(names)[k] < names.len()
            &&& names[link_index_map(names)[k] as int] == k
        },
        forall|i: int| 0 <= i < names.len() ==> link_index_map(names).contains_key(#[trigger] names[i]),
    decreases names.len(),
{
    if names.len() > 0 {
        lemma_link_index_map(names.drop_last());
        let prev = link_index_map(names.drop_last());
        assert(link_index_map(names) == prev.insert(names.last(), (names.len() - 1) as usize));
        assert forall|k: Seq<char>| #[trigger] link_index_map(names).contains_key(k) implies {
            &&& link_index_map(names)[k] < names.len()
            &&& names[link_index_map(names)[k] as int] == k
        } by {
            if k != names.last() {
                assert(prev.contains_key(k));
                let i = prev[k];
                assert(names.drop_last()[i as int] == names[i as int]);
            }
        }
        assert forall|i: int| 0 <= i < names.len() implies link_index_map(names).contains_key(#[trigger] names[i]) by {
            if i < names.len() - 1 {
                assert(names.drop_last()[i] == names[i]);
            }
        }
    }
}

/// `actuated_count` never exceeds the number of joints.
pub proof fn lemma_actuated_count_bound(joints: Seq<JointView>)
    ensures
        actuated_count(joints) <= joints.len(),
    decreases joints.len(),
{
    if joints.len() > 0 {
        lemma_actuated_count_bound(joints.drop_last());
    }
}

/// `outcome`, with the visits `acc` made before it.
pub open spec fn prepend_outcome(acc: Seq<(usize, usize, usize)>, outcome: DfsOutcome) -> DfsOutcome {
    match outcome {
        DfsOutcome::Done(rest) => DfsOutcome::Done(acc + rest),
        other => other,
    }
}

/// Link indices that joints resolve to are links, and children lists hold joints.
pub open spec fn graph_ok(g: JointGraph, num_links: nat) -> bool {
    &&& forall|j: int| 0 <= j < g.joints.len() ==> (#[trigger] g.child_of(j) matches Some(c) ==> c < num_links)
    &&& forall|p: usize, k: int| p < num_links && 0 <= k < g.children(p).len() ==> #[trigger] g.children(p)[k] < g.joints.len()
}

pub proof fn lemma_resolve_visits_len(joints: Seq<JointView>, visits: Seq<(usize, usize, usize)>)
    ensures
        resolve_visits(joints, visits).len() == visits.len(),
{
    lemma_resolve_visits_from_len(joints, 0, visits);
}

pub proof fn lemma_resolve_visits_from_len(joints: Seq<JointView>, first_slot: nat, visits: Seq<(usize, usize, usize)>)
    ensures
        resolve_visits_from(joints, first_slot, visits).len() == visits.len(),
    decreases visits.len(),
{
    if visits.len() > 0 {
        lemma_resolve_visits_from_len(joints, first_slot, visits.drop_last());
    }
}

/// Movable joints of `a` hold the command slots `first_slot`, `first_slot + 1`,
/// ... in order, each the first slot plus the number of movable joints
/// before it; fixed joints hold none.
#[verifier::opaque]
pub open spec fn slots_from(a: Seq<JointView>, first_slot: nat) -> bool {
    forall|i: int| 0 <= i < a.len() ==> (#[trigger] a[i]).cmd_idx == if a[i].joint_type == JointType::Fixed {
        None
    } else {
        Some((first_slot + actuated_count(a.take(i))) as usize)
    }
}

/// Resolved visits hold their command slots in order from the first slot.
pub proof fn lemma_resolve_visits_from_slots(joints: Seq<JointView>, first_slot: nat, visits: Seq<(usize, usize, usize)>)
    ensures
        slots_from(resolve_visits_from(joints, first_slot, visits), first_slot),
    decreases visits.len(),
{
    reveal(slots_from);
    if visits.len() > 0 {
        let r = resolve_visits_from(joints, first_slot, visits);
        let prev = resolve_visits_from(joints, first_slot, visits.drop_last());
        lemma_resolve_visits_from_slots(joints, first_slot, visits.drop_last());
        lemma_resolve_visits_from_len(joints, first_slot, visits.drop_last());
        assert forall|i: int| 0 <= i < r.len() implies (#[trigger] r[i]).cmd_idx == if r[i].joint_type == JointType::Fixed {
            None
        } else {
            Some((first_slot + actuated_count(r.take(i))) as usize)
        } by {
            if i < prev.len() {
                assert(r[i] == prev[i]);
                assert(r.take(i) =~= prev.take(i));
            } else {
                assert(r.take(i) =~= prev);
            }
        }
    }
}

/// What a walk appends after `before` holds its slots in order from `first_slot`.
proof fn lemma_appended_slots(
    before: Seq<JointView>,
    after: Seq<JointView>,
    joints: Seq<JointView>,
    first_slot: nat,
    visits: Seq<(usize, usize, usize)>,
)
    requires
        after == before + resolve_visits_from(joints, first_slot, visits),
    ensures
        after.skip(before.len() as int) == resolve_visits_from(joints, first_slot, visits),
        slots_from(after.skip(before.len() as int), first_slot),
{
    assert(after.skip(before.len() as int) =~= resolve_visits_from(joints, first_slot, visits));
    lemma_resolve_visits_from_slots(joints, first_slot, visits);
}

/// Counting movable joints adds up over a concatenation.
pub proof fn lemma_actuated_count_append(a: Seq<JointView>, b: Seq<JointView>)
    ensures
        actuated_count(a + b) == actuated_count(a) + actuated_count(b),
    decreases b.len(),
{
    if b.len() > 0 {
        lemma_actuated_count_append(a, b.drop_last());
        assert((a + b).drop_last() =~= a + b.drop_last());
    } else {
        assert(a + b =~= a);
    }
}

/// The budget of a walk only caps it: a walk that completes or meets an
/// undeclared child under some budget does the same under any larger one,
/// and a walk that completes with `n` visits completes alike under any
/// budget of at least `n`.
pub proof fn lemma_dfs_budget(g: JointGraph, list: Seq<usize>, p: usize, b1: nat, b2: nat)
    requires
        b1 <= b2,
    ensures
        dfs_list(g, list, p, b1) matches DfsOutcome::Done(v) ==> dfs_list(g, list, p, b2) == DfsOutcome::Done(v),
        dfs_list(g, list, p, b1) matches DfsOutcome::UnknownChild(x) ==> dfs_list(g, list, p, b2) == DfsOutcome::UnknownChild(x),
        dfs_list(g, list, p, b2) matches DfsOutcome::Done(v) ==> (v.len() <= b1 ==> dfs_list(g, list, p, b1) == DfsOutcome::Done(v)),
    decreases b1, list.len(),
{
    if list.len() > 0 {
        let j = list[0];
        if let Some(c) = g.child_of(j as int) {
            if b1 > 0 {
                lemma_dfs_budget(g, g.children(c), c, (b1 - 1) as nat, (b2 - 1) as nat);
                if let DfsOutcome::Done(sub) = dfs_list(g, g.children(c), c, (b1 - 1) as nat) {
                    if sub.len() < b1 {
                        lemma_dfs_budget(g, list.drop_first(), p, (b1 - 1 - sub.len()) as nat, (b2 - 1 - sub.len()) as nat);
                    }
                }
                if let DfsOutcome::Done(sub) = dfs_list(g, g.children(c), c, (b2 - 1) as nat) {
                    if sub.len() < b2 && sub.len() < b1 {
                        lemma_dfs_budget(g, list.drop_first(), p, (b1 - 1 - sub.len()) as nat, (b2 - 1 - sub.len()) as nat);
                    }
                }
            } else {
                if let DfsOutcome::Done(v) = dfs_list(g, list, p, b2) {
                    assert(v.len() > 0);
                }
            }
        }
    }
}

/// The walk over the joints whose parent is link `c`.
pub open spec fn walk_below(g: JointGraph, c: usize, budget: nat) -> DfsOutcome {
    dfs_list(g, g.children(c), c, budget)
}

/// Right after visit `k` of `v` come, in one block, the visits of the walk
/// below that visit's child link.
pub open spec fn block_below(g: JointGraph, v: Seq<(usize, usize, usize)>, k: int) -> bool {
    exists|b: nat| #[trigger] walk_below(g, v[k].2, b) matches DfsOutcome::Done(s) && k + 1 + s.len() <= v.len()
        && v.subrange(k + 1, k + 1 + s.len()) == s
}

/// A completed walk is in depth-first pre-order: every visit is followed at
/// once by the whole walk below its child link, as one consecutive block.
pub proof fn lemma_subtrees_consecutive(g: JointGraph, list: Seq<usize>, p: usize, budget: nat)
    ensures
        dfs_list(g, list, p, budget) matches DfsOutcome::Done(v) ==> forall|k: int| 0 <= k < v.len() ==> #[trigger] block_below(g, v, k),
    decreases budget, list.len(),
{
    if list.len() > 0 {
        let j = list[0];
        if let Some(c) = g.child_of(j as int) {
            if budget > 0 {
                let b1 = (budget - 1) as nat;
                lemma_subtrees_consecutive(g, g.children(c), c, b1);
                if let DfsOutcome::Done(sub) = dfs_list(g, g.children(c), c, b1) {
                    if sub.len() < budget {
                        let rb = (budget - 1 - sub.len()) as nat;
                        lemma_subtrees_consecutive(g, list.drop_first(), p, rb);
                        if let DfsOutcome::Done(rest) = dfs_list(g, list.drop_first(), p, rb) {
                            let v = seq![(j, p, c)] + sub + rest;
                            assert forall|k: int| 0 <= k < v.len() implies #[trigger] block_below(g, v, k) by {
                                if k == 0 {
                                    assert(walk_below(g, c, b1) == DfsOutcome::Done(sub));
                                    assert(v.subrange(1, 1 + sub.len() as int) =~= sub);
                                } else if k <= sub.len() {
                                    assert(v[k] == sub[k - 1]);
                                    assert(block_below(g, sub, k - 1));
                                    let b = choose|b: nat| #[trigger] walk_below(g, sub[k - 1].2, b) matches DfsOutcome::Done(s)
                                        && k + s.len() <= sub.len() && sub.subrange(k, k + s.len()) == s;
                                    if let DfsOutcome::Done(s) = walk_below(g, sub[k - 1].2, b) {
                                        assert(v.subrange(k + 1, k + 1 + s.len()) =~= sub.subrange(k, k + s.len()));
                                    }
                                } else {
                                    let r = k - 1 - sub.len();
                                    assert(v[k] == rest[r]);
                                    assert(block_below(g, rest, r));
                                    let b = choose|b: nat| #[trigger] walk_below(g, rest[r].2, b) matches DfsOutcome::Done(s)
                                        && r + 1 + s.len() <= rest.len() && rest.subrange(r + 1, r + 1 + s.len()) == s;
                                    if let DfsOutcome::Done(s) = walk_below(g, rest[r].2, b) {
                                        assert(v.subrange(k + 1, k + 1 + s.len()) =~= rest.subrange(r + 1, r + 1 + s.len()));
                                    }
                                }
                            }
                        }
                    }
                }
            }
        }
    }
}

/// Each visit of a completed walk hangs from the walk's link `p` or from
/// the child link of an earlier visit.
pub proof fn lemma_dfs_parents(g: JointGraph, list: Seq<usize>, p: usize, budget: nat)
    ensures
        dfs_list(g, list, p, budget) matches DfsOutcome::Done(v) ==> hangs_from(v, p),
    decreases budget, list.len(),
{
    if list.len() > 0 {
        let j = list[0];
        if let Some(c) = g.child_of(j as int) {
            if budget > 0 {
                let b1 = (budget - 1) as nat;
                lemma_dfs_parents(g, g.children(c), c, b1);
                if let DfsOutcome::Done(sub) = dfs_list(g, g.children(c), c, b1) {
                    if sub.len() < budget {
                        let rb = (budget - 1 - sub.len()) as nat;
                        lemma_dfs_parents(g, list.drop_first(), p, rb);
                        if let DfsOutcome::Done(rest) = dfs_list(g, list.drop_first(), p, rb) {
                            let v = seq![(j, p, c)] + sub + rest;
                            let n = sub.len() as int;
                            assert forall|k: int| 0 <= k < v.len() implies (#[trigger] v[k]).1 == p || exists|m: int|
                                0 <= m < k && v[m].2 == v[k].1 by {
                                if 1 <= k <= n {
                                    assert(v[k] == sub[k - 1]);
                                    if sub[k - 1].1 == c {
                                        assert(v[0].2 == v[k].1);
                                    } else {
                                        let m = choose|m: int| 0 <= m < k - 1 && sub[m].2 == sub[k - 1].1;
                                        assert(v[m + 1] == sub[m]);
                                    }
                                } else if k > n {
                                    let r = k - 1 - n;
                                    assert(v[k] == rest[r]);
                                    if rest[r].1 != p {
                                        let m = choose|m: int| 0 <= m < r && rest[m].2 == rest[r].1;
                                        assert(v[m + 1 + n] == rest[m]);
                                    }
                                }
                            }
                        }
                    }
                }
            }
        }
    }
}

/// Visit `q` hangs below visit `k` within `v`: from `k`'s child link, or
/// from the child link of a visit between them.
pub open spec fn visit_hangs_below(v: Seq<(usize, usize, usize)>, k: int, q: int) -> bool {
    v[q].1 == v[k].2 || exists|r: int| k < r < q && v[r].2 == v[q].1
}

/// No two visits of `v` share a child link, and none enters link `p`.
pub open spec fn fresh_children(v: Seq<(usize, usize, usize)>, p: usize) -> bool {
    &&& forall|a: int, b: int| 0 <= a < b < v.len() ==> #[trigger] v[a].2 != #[trigger] v[b].2
    &&& forall|a: int| 0 <= a < v.len() ==> (#[trigger] v[a]).2 != p
}

/// Every visit between a visit and one hanging from its child link hangs
/// below it.
#[verifier::opaque]
pub open spec fn no_interleaving(v: Seq<(usize, usize, usize)>) -> bool {
    forall|k: int, q: int, i: int| #![trigger v[k], v[q], v[i]]
        0 <= k < q < i < v.len() && v[i].1 == v[k].2 ==> visit_hangs_below(v, k, q)
}

/// Each visit hangs from `p` or from the child link of an earlier visit.
pub open spec fn hangs_from(v: Seq<(usize, usize, usize)>, p: usize) -> bool {
    forall|k: int| 0 <= k < v.len() ==> (#[trigger] v[k]).1 == p || exists|m: int| 0 <= m < k && v[m].2 == v[k].1
}

/// No visit of `rest` hangs from the child link of the first visit or of a
/// visit in `sub`.
proof fn lemma_rest_apart_from_front(
    p: usize,
    x0: (usize, usize, usize),
    sub: Seq<(usize, usize, usize)>,
    rest: Seq<(usize, usize, usize)>,
)
    requires
        hangs_from(rest, p),
        fresh_children(seq![x0] + sub + rest, p),
    ensures
        forall|k: int, i: int| 0 <= k <= sub.len() < i < (seq![x0] + sub + rest).len()
            ==> #[trigger] (seq![x0] + sub + rest)[i].1 != #[trigger] (seq![x0] + sub + rest)[k].2,
{
    let v = seq![x0] + sub + rest;
    let n = sub.len() as int;
    assert forall|k: int, i: int| 0 <= k <= n < i < v.len() implies #[trigger] v[i].1 != #[trigger] v[k].2 by {
        let ri = i - 1 - n;
        assert(v[i] == rest[ri]);
        if rest[ri].1 != p {
            let m = choose|m: int| 0 <= m < ri && rest[m].2 == rest[ri].1;
            assert(v[m + 1 + n] == rest[m]);
            assert(v[k].2 != v[m + 1 + n].2);
        } else {
            assert(v[k].2 != p);
        }
    }
}

/// One case of `lemma_no_interleaving_join`: all three visits lie in `rest`.
#[verifier::spinoff_prover]
proof fn lemma_no_interleaving_rest_case(
    x0: (usize, usize, usize),
    sub: Seq<(usize, usize, usize)>,
    rest: Seq<(usize, usize, usize)>,
    k: int,
    q: int,
    i: int,
)
    requires
        no_interleaving(rest),
        sub.len() < k < q < i < (seq![x0] + sub + rest).len(),
        (seq![x0] + sub + rest)[i].1 == (seq![x0] + sub + rest)[k].2,
    ensures
        visit_hangs_below(seq![x0] + sub + rest, k, q),
{
    let v = seq![x0] + sub + rest;
    let n = sub.len() as int;
    let rk = k - 1 - n;
    let rq = q - 1 - n;
    let ri = i - 1 - n;
    assert(v[k] == rest[rk] && v[q] == rest[rq] && v[i] == rest[ri]);
    assert(visit_hangs_below(rest, rk, rq)) by {
        reveal(no_interleaving);
        assert(0 <= rk < rq < ri < rest.len() && rest[ri].1 == rest[rk].2);
    }
    if rest[rq].1 != rest[rk].2 {
        let r = choose|r: int| rk < r < rq && rest[r].2 == rest[rq].1;
        assert(v[r + 1 + n] == rest[r]);
    }
}

/// The part of `lemma_no_interleaving_join` where the later visit lies in
/// the first visit's subtree.
proof fn lemma_no_interleaving_in_sub(
    x0: (usize, usize, usize),
    sub: Seq<(usize, usize, usize)>,
    rest: Seq<(usize, usize, usize)>,
)
    requires
        hangs_from(sub, x0.2),
        no_interleaving(sub),
    ensures
        forall|k: int, q: int, i: int| #![trigger (seq![x0] + sub + rest)[k], (seq![x0] + sub + rest)[q], (seq![x0] + sub + rest)[i]]
            0 <= k < q < i <= sub.len() && (seq![x0] + sub + rest)[i].1 == (seq![x0] + sub + rest)[k].2
            ==> visit_hangs_below(seq![x0] + sub + rest, k, q),
{
    let v = seq![x0] + sub + rest;
    let c = x0.2;
    let n = sub.len() as int;
    reveal(no_interleaving);
    assert forall|a: int| 1 <= a <= n implies v[a] == sub[a - 1] by {}
    assert forall|k: int, q: int, i: int| #![trigger v[k], v[q], v[i]]
        0 <= k < q < i <= n && v[i].1 == v[k].2 implies visit_hangs_below(v, k, q) by {
        if k == 0 {
            let sq = q - 1;
            if sub[sq].1 != c {
                let m = choose|m: int| 0 <= m < sq && sub[m].2 == sub[sq].1;
                assert(v[m + 1] == sub[m]);
            }
        } else {
            let sk = k - 1;
            let sq = q - 1;
            let si = i - 1;
            assert(sub[si].1 == sub[sk].2);
            assert(visit_hangs_below(sub, sk, sq));
            if sub[sq].1 != sub[sk].2 {
                let r = choose|r: int| sk < r < sq && sub[r].2 == sub[sq].1;
                assert(v[r + 1] == sub[r]);
            }
        }
    }
}

/// A walk that visits `x0`, then the walk `sub` below its child link, then
/// `rest` keeps its subtrees whole when `sub` and `rest` do.
proof fn lemma_no_interleaving_join(
    p: usize,
    x0: (usize, usize, usize),
    sub: Seq<(usize, usize, usize)>,
    rest: Seq<(usize, usize, usize)>,
)
    requires
        x0.1 == p,
        hangs_from(sub, x0.2),
        hangs_from(rest, p),
        no_interleaving(sub),
        no_interleaving(rest),
        fresh_children(seq![x0] + sub + rest, p),
    ensures
        no_interleaving(seq![x0] + sub + rest),
{
    lemma_rest_apart_from_front(p, x0, sub, rest);
    lemma_no_interleaving_in_sub(x0, sub, rest);
    let v = seq![x0] + sub + rest;
    reveal(no_interleaving);
    assert forall|k: int, q: int, i: int| #![trigger v[k], v[q], v[i]]
        0 <= k < q < i < v.len() && v[i].1 == v[k].2 implies visit_hangs_below(v, k, q) by {
        if i > sub.len() {
            if k > sub.len() {
                lemma_no_interleaving_rest_case(x0, sub, rest, k, q, i);
            }
        }
    }
}

/// In a completed walk where no two visits share a child link and none
/// enters the walk's own link, subtrees do not interleave: every visit
/// between a visit and one hanging from its child link hangs below it.
pub proof fn lemma_dfs_no_interleaving(g: JointGraph, list: Seq<usize>, p: usize, budget: nat)
    ensures
        dfs_list(g, list, p, budget) matches DfsOutcome::Done(v) ==> (fresh_children(v, p) ==> no_interleaving(v)),
    decreases budget, list.len(),
{
    if list.len() == 0 {
        reveal(no_interleaving);
    }
    if list.len() > 0 {
        let j = list[0];
        if let Some(c) = g.child_of(j as int) {
            if budget > 0 {
                let b1 = (budget - 1) as nat;
                lemma_dfs_no_interleaving(g, g.children(c), c, b1);
                lemma_dfs_parents(g, g.children(c), c, b1);
                if let DfsOutcome::Done(sub) = dfs_list(g, g.children(c), c, b1) {
                    if sub.len() < budget {
                        let rb = (budget - 1 - sub.len()) as nat;
                        lemma_dfs_no_interleaving(g, list.drop_first(), p, rb);
                        lemma_dfs_parents(g, list.drop_first(), p, rb);
                        if let DfsOutcome::Done(rest) = dfs_list(g, list.drop_first(), p, rb) {
                            let x0 = (j, p, c);
                            let v = seq![x0] + sub + rest;
                            let n = sub.len() as int;
                            if fresh_children(v, p) {
                                assert forall|a: int, b: int| 0 <= a < b < sub.len() implies #[trigger] sub[a].2 != #[trigger] sub[b].2 by {
                                    assert(v[a + 1] == sub[a] && v[b + 1] == sub[b]);
                                }
                                assert forall|a: int| 0 <= a < sub.len() implies (#[trigger] sub[a]).2 != c by {
                                    assert(v[a + 1] == sub[a]);
                                    assert(v[0].2 != v[a + 1].2);
                                }
                                assert forall|a: int, b: int| 0 <= a < b < rest.len() implies #[trigger] rest[a].2 != #[trigger] rest[b].2 by {
                                    assert(v[a + 1 + n] == rest[a] && v[b + 1 + n] == rest[b]);
                                }
                                assert forall|a: int| 0 <= a < rest.len() implies (#[trigger] rest[a]).2 != p by {
                                    assert(v[a + 1 + n] == rest[a]);
                                }
                                lemma_no_interleaving_join(p, x0, sub, rest);
                            }
                        }
                    }
                }
            }
        }
    }
}

/// Resolving visits `a` then `b` is resolving `a`, then `b` with its slots
/// continuing where those of `a` end.
pub proof fn lemma_resolve_visits_append(
    joints: Seq<JointView>,
    first_slot: nat,
    a: Seq<(usize, usize, usize)>,
    b: Seq<(usize, usize, usize)>,
)
    ensures
        resolve_visits_from(joints, first_slot, a + b) == resolve_visits_from(joints, first_slot, a)
            + resolve_visits_from(joints, first_slot + actuated_count(resolve_visits_from(joints, first_slot, a)), b),
    decreases b.len(),
{
    let ra = resolve_visits_from(joints, first_slot, a);
    let s1 = first_slot + actuated_count(ra);
    if b.len() == 0 {
        assert(a + b =~= a);
        assert(ra + resolve_visits_from(joints, s1, b) =~= ra);
    } else {
        lemma_resolve_visits_append(joints, first_slot, a, b.drop_last());
        assert((a + b).drop_last() =~= a + b.drop_last());
        let rb = resolve_visits_from(joints, s1, b.drop_last());
        lemma_actuated_count_append(ra, rb);
        assert(resolve_visits_from(joints, first_slot, a + b) =~= ra + resolve_visits_from(joints, s1, b));
    }
}

/// A completed walk makes at most as many visits as its budget.
pub proof fn lemma_dfs_len(g: JointGraph, list: Seq<usize>, p: usize, budget: nat)
    ensures
        dfs_list(g, list, p, budget) matches DfsOutcome::Done(v) ==> v.len() <= budget,
    decreases budget, list.len(),
{
    if list.len() > 0 {
        let j = list[0];
        if let Some(c) = g.child_of(j as int) {
            if budget > 0 {
                lemma_dfs_len(g, g.children(c), c, (budget - 1) as nat);
                if let DfsOutcome::Done(sub) = dfs_list(g, g.children(c), c, (budget - 1) as nat) {
                    if sub.len() < budget {
                        lemma_dfs_len(g, list.drop_first(), p, (budget - 1 - sub.len()) as nat);
                    }
                }
            }
        }
    }
}

pub proof fn lemma_children_upto_bound(g: JointGraph, p: usize, n: int)
    ensures
        forall|k: int| 0 <= k < g.children_upto(p, n).len() ==> #[trigger] g.children_upto(p, n)[k] < n,
    decreases n,
{
    if n > 0 {
        lemma_children_upto_bound(g, p, n - 1);
        let prev = g.children_upto(p, n - 1);
        assert forall|k: int| 0 <= k < g.children_upto(p, n).len() implies #[trigger] g.children_upto(p, n)[k] < n by {
            if k < prev.len() {
                assert(g.children_upto(p, n)[k] == prev[k]);
            }
        }
    }
}

pub proof fn lemma_roots_upto_bound(g: JointGraph, n: int)
    ensures
        forall|k: int| 0 <= k < g.roots_upto(n).len() ==> #[trigger] g.roots_upto(n)[k] < n,
    decreases n,
{
    if n > 0 {
        lemma_roots_upto_bound(g, n - 1);
        let prev = g.roots_upto(n - 1);
        assert forall|k: int| 0 <= k < g.roots_upto(n).len() implies #[trigger] g.roots_upto(n)[k] < n by {
            if k < prev.len() {
                assert(g.roots_upto(n)[k] == prev[k]);
            }
        }
    }
}

/// Every joint listed under link `p` has `p` as its parent.
pub proof fn lemma_children_upto_parent(g: JointGraph, p: usize, n: int)
    requires
        n <= usize::MAX,
    ensures
        forall|k: int| 0 <= k < g.children_upto(p, n).len() ==> g.parent_of(#[trigger] g.children_upto(p, n)[k] as int) == p,
    decreases n,
{
    if n > 0 {
        lemma_children_upto_parent(g, p, n - 1);
        let prev = g.children_upto(p, n - 1);
        assert forall|k: int| 0 <= k < g.children_upto(p, n).len() implies g.parent_of(#[trigger] g.children_upto(p, n)[k] as int) == p by {
            if k < prev.len() {
                assert(g.children_upto(p, n)[k] == prev[k]);
            }
        }
    }
}

/// With no unknown parent from `start` on, every later joint's parent is a declared link.
pub proof fn lemma_no_unknown_parent(g: JointGraph, start: int)
    requires
        0 <= start,
        g.unknown_parent_from(start) is None,
    ensures
        forall|j: int| start <= j < g.joints.len() ==> g.link_map().contains_key(#[trigger] g.joints[j].parent),
    decreases g.joints.len() - start,
{
    if start < g.joints.len() {
        lemma_no_unknown_parent(g, start + 1);
    }
}

/// What each visit of a completed walk over `list` (joints under link `p`)
/// records: the joint, its parent link and its child link; and each visit's
/// parent link is `p` or the child link of an earlier visit.
pub proof fn lemma_dfs_visits(g: JointGraph, list: Seq<usize>, p: usize, budget: nat)
    requires
        g.links.len() <= usize::MAX,
        g.joints.len() <= usize::MAX,
        g.unknown_parent_from(0) is None,
        p < g.links.len(),
        forall|k: int| 0 <= k < list.len() ==> (#[trigger] list[k] < g.joints.len() && g.parent_of(list[k] as int) == p),
    ensures
        dfs_list(g, list, p, budget) matches DfsOutcome::Done(v) ==> {
            forall|k: int| 0 <= k < v.len() ==> {
                &&& (#[trigger] v[k]).0 < g.joints.len()
                &&& v[k].1 == g.parent_of(v[k].0 as int)
                &&& g.child_of(v[k].0 as int) == Some(v[k].2)
                &&& v[k].1 < g.links.len()
                &&& v[k].2 < g.links.len()
                &&& (v[k].1 == p || exists|m: int| 0 <= m < k && v[m].2 == v[k].1)
            }
        },
    decreases budget, list.len(),
{
    if list.len() == 0 {
        return;
    }
    let j = list[0];
    assert(list[0] < g.joints.len());
    lemma_link_index_map(g.links);
    match g.child_of(j as int) {
        None => {},
        Some(c) => {
            if budget > 0 {
                assert(g.link_map().contains_key(g.joints[j as int].child));
                assert(c < g.links.len());
                lemma_children_upto_bound(g, c, g.joints.len() as int);
                lemma_children_upto_parent(g, c, g.joints.len() as int);
                lemma_dfs_visits(g, g.children(c), c, (budget - 1) as nat);
                match dfs_list(g, g.children(c), c, (budget - 1) as nat) {
                    DfsOutcome::Done(sub) => {
                        if sub.len() < budget {
                            let rb = (budget - 1 - sub.len()) as nat;
                            let tail = list.drop_first();
                            assert forall|k: int| 0 <= k < tail.len() implies (#[trigger] tail[k] < g.joints.len() && g.parent_of(tail[k] as int) == p) by {
                                assert(tail[k] == list[k + 1]);
                            }
                            lemma_dfs_visits(g, tail, p, rb);
                            match dfs_list(g, tail, p, rb) {
                                DfsOutcome::Done(rest) => {
                                    let v = seq![(j, p, c)] + sub + rest;
                                    assert forall|k: int| 0 <= k < v.len() implies {
                                        &&& (#[trigger] v[k]).0 < g.joints.len()
                                        &&& v[k].1 == g.parent_of(v[k].0 as int)
                                        &&& g.child_of(v[k].0 as int) == Some(v[k].2)
                                        &&& v[k].1 < g.links.len()
                                        &&& v[k].2 < g.links.len()
                                        &&& (v[k].1 == p || exists|m: int| 0 <= m < k && v[m].2 == v[k].1)
                                    } by {
                                        if k == 0 {
                                        } else if k <= sub.len() {
                                            assert(v[k] == sub[k - 1]);
                                            if sub[k - 1].1 == c {
                                                assert(v[0].2 == v[k].1);
                                            } else {
                                                let m = choose|m: int| 0 <= m < k - 1 && sub[m].2 == sub[k - 1].1;
                                                assert(v[m + 1] == sub[m]);
                                            }
                                        } else {
                                            let r = k - 1 - sub.len();
                                            assert(v[k] == rest[r]);
                                            if rest[r].1 != p {
                                                let m = choose|m: int| 0 <= m < r && rest[m].2 == rest[r].1;
                                                assert(v[m + 1 + sub.len()] == rest[m]);
                                            }
                                        }
                                    }
                                },
                                _ => {},
                            }
                        }
                    },
                    _ => {},
                }
            }
        },
    }
}

pub proof fn lemma_resolve_visits_prefix(joints: Seq<JointView>, visits: Seq<(usize, usize, usize)>, k: int)
    requires
        0 <= k <= visits.len(),
    ensures
        resolve_visits(joints, visits).take(k) == resolve_visits(joints, visits.take(k)),
    decreases visits.len(),
{
    lemma_resolve_visits_len(joints, visits);
    if k < visits.len() {
        lemma_resolve_visits_prefix(joints, visits.drop_last(), k);
        assert(visits.drop_last().take(k) =~= visits.take(k));
        assert(resolve_visits(joints, visits).take(k) =~= resolve_visits(joints, visits.drop_last()).take(k));
    } else {
        assert(visits.take(k) =~= visits);
        assert(resolve_visits(joints, visits).take(k) =~= resolve_visits(joints, visits));
    }
}

pub proof fn lemma_resolve_visits_index(joints: Seq<JointView>, visits: Seq<(usize, usize, usize)>, k: int)
    requires
        0 <= k < visits.len(),
    ensures
        resolve_visits(joints, visits).len() == visits.len(),
        resolve_visits(joints, visits)[k] == (JointView {
            parent_link_idx: visits[k].1,
            child_link_idx: visits[k].2,
            cmd_idx: if joints[visits[k].0 as int].joint_type == JointType::Fixed {
                None
            } else {
                Some(actuated_count(resolve_visits(joints, visits).take(k)) as usize)
            },
            ..joints[visits[k].0 as int]
        }),
{
    lemma_resolve_visits_len(joints, visits);
    lemma_resolve_visits_prefix(joints, visits, k + 1);
    lemma_resolve_visits_prefix(joints, visits, k);
    let t = visits.take(k + 1);
    assert(t.drop_last() =~= visits.take(k));
    lemma_resolve_visits_len(joints, t);
    assert(resolve_visits(joints, visits)[k] == resolve_visits(joints, t)[k]);
}

pub proof fn lemma_cmd_count_resolve(joints: Seq<JointView>, visits: Seq<(usize, usize, usize)>)
    ensures
        cmd_count(resolve_visits(joints, visits)) == actuated_count(resolve_visits(joints, visits)),
    decreases visits.len(),
{
    if visits.len() > 0 {
        lemma_cmd_count_resolve(joints, visits.drop_last());
        let r = resolve_visits(joints, visits);
        assert(r.drop_last() =~= resolve_visits(joints, visits.drop_last()));
    }
}

/// Resolving a walk's visits places the joints in a tree (see `joints_well_placed`).
proof fn lemma_visits_well_placed(g: JointGraph, root: usize, v: Seq<(usize, usize, usize)>)
    requires
        g.links.len() <= usize::MAX,
        root < g.links.len(),
        g.unknown_parent_from(0) is None,
        forall|k: int| 0 <= k < v.len() ==> {
            &&& (#[trigger] v[k]).0 < g.joints.len()
            &&& v[k].1 == g.parent_of(v[k].0 as int)
            &&& g.child_of(v[k].0 as int) == Some(v[k].2)
            &&& v[k].1 < g.links.len()
            &&& v[k].2 < g.links.len()
            &&& (v[k].1 == root || exists|m: int| 0 <= m < k && v[m].2 == v[k].1)
        },
    ensures
        joints_well_placed(g.links, resolve_visits(g.joints, v)),
{
    let links = g.links;
    let joints = g.joints;
    let o = resolve_visits(joints, v);
    lemma_resolve_visits_len(joints, v);
    lemma_link_index_map(links);
    lemma_no_unknown_parent(g, 0);
    assert forall|k: int| 0 <= k < o.len() implies {
        &&& (#[trigger] o[k]).parent_link_idx < links.len()
        &&& o[k].child_link_idx < links.len()
        &&& links[o[k].parent_link_idx as int] == o[k].parent
        &&& links[o[k].child_link_idx as int] == o[k].child
    } by {
        lemma_resolve_visits_index(joints, v, k);
        let j = v[k].0 as int;
        assert(g.link_map().contains_key(joints[j].parent));
        assert(g.link_map().contains_key(joints[j].child));
    }
    assert forall|k: int| 0 <= k < o.len() implies (#[trigger] o[k]).cmd_idx == if o[k].joint_type == JointType::Fixed {
        None
    } else {
        Some(actuated_count(o.take(k)) as usize)
    } by {
        lemma_resolve_visits_index(joints, v, k);
    }
    assert forall|k: int| 0 <= k < o.len() implies {
        ||| (#[trigger] o[k]).parent_link_idx == root
        ||| exists|m: int| 0 <= m < k && o[m].child_link_idx == o[k].parent_link_idx
    } by {
        lemma_resolve_visits_index(joints, v, k);
        if v[k].1 != root {
            let m = choose|m: int| 0 <= m < k && v[m].2 == v[k].1;
            lemma_resolve_visits_index(joints, v, m);
        }
    }
    // names the root as the witness of `joints_well_placed`'s `exists`
    assert(links[root as int] == links[root as int]);
    reveal(joints_well_placed);
}

/// The joints that `spec_resolve` returns are the parsed joints placed in a tree.
pub proof fn lemma_resolve_well_placed(links: Seq<Seq<char>>, joints: Seq<JointView>)
    requires
        links.len() <= usize::MAX,
        joints.len() <= usize::MAX,
    ensures
        spec_resolve(links, joints) matches Ok(o) ==> {
            &&& o.len() == joints.len()
            &&& joints_well_placed(links, o)
            &&& cmd_count(o) == actuated_count(o)
        },
{
    let g = JointGraph { links, joints };
    if g.unknown_parent_from(0) is None && g.roots().len() == 1 {
        let root = g.roots()[0];
        lemma_roots_upto_bound(g, links.len() as int);
        lemma_children_upto_bound(g, root, joints.len() as int);
        lemma_children_upto_parent(g, root, joints.len() as int);
        lemma_dfs_visits(g, g.children(root), root, joints.len() as nat);
        match dfs_list(g, g.children(root), root, joints.len() as nat) {
            DfsOutcome::Done(v) => {
                if v.len() == joints.len() {
                    lemma_resolve_visits_len(joints, v);
                    lemma_cmd_count_resolve(joints, v);
                    lemma_visits_well_placed(g, root, v);
                }
            },
            _ => {},
        }
    }
}

/// Joint lists under a link hold increasing joint indices.
pub open spec fn strictly_increasing(list: Seq<usize>) -> bool {
    forall|a: int, b: int| 0 <= a < b < list.len() ==> list[a] < list[b]
}

pub proof fn lemma_children_upto_increasing(g: JointGraph, p: usize, n: int)
    requires
        n <= usize::MAX,
    ensures
        strictly_increasing(g.children_upto(p, n)),
    decreases n,
{
    if n > 0 {
        lemma_children_upto_increasing(g, p, n - 1);
        lemma_children_upto_bound(g, p, n - 1);
        let prev = g.children_upto(p, n - 1);
        let cur = g.children_upto(p, n);
        assert forall|a: int, b: int| 0 <= a < b < cur.len() implies cur[a] < cur[b] by {
            assert(cur[a] == prev[a]);
            if b < prev.len() {
                assert(cur[b] == prev[b]);
            }
        }
    }
}

/// The walk that a completed visit list came from: `entry(k)` is the
/// position of the visit whose child link the walk of visit `k` went
/// through, or -1 for the top walk over `list`. Visits of one walk come in
/// increasing joint order.
pub open spec fn walk_entries(
    v: Seq<(usize, usize, usize)>,
    list: Seq<usize>,
    p: usize,
    entry: spec_fn(int) -> int,
) -> bool {
    &&& forall|k: int| 0 <= k < v.len() ==> -1 <= #[trigger] entry(k) < k
    &&& forall|k: int| 0 <= k < v.len() && #[trigger] entry(k) == -1 ==> v[k].1 == p && list.contains(v[k].0)
    &&& forall|k: int| 0 <= k < v.len() && #[trigger] entry(k) >= 0 ==> v[entry(k)].2 == v[k].1
    &&& forall|k1: int, k2: int| 0 <= k1 < k2 < v.len() && #[trigger] entry(k1) == #[trigger] entry(k2) ==> v[k1].0 < v[k2].0
}

/// A completed walk has walk entries.
pub proof fn lemma_dfs_entries(g: JointGraph, list: Seq<usize>, p: usize, budget: nat) -> (entry: spec_fn(int) -> int)
    requires
        g.joints.len() <= usize::MAX,
        strictly_increasing(list),
    ensures
        dfs_list(g, list, p, budget) matches DfsOutcome::Done(v) ==> walk_entries(v, list, p, entry),
    decreases budget, list.len(),
{
    if list.len() == 0 {
        return |k: int| -1;
    }
    let j = list[0];
    match g.child_of(j as int) {
        None => |k: int| -1,
        Some(c) => {
            if budget == 0 {
                return |k: int| -1;
            }
            lemma_children_upto_increasing(g, c, g.joints.len() as int);
            let es = lemma_dfs_entries(g, g.children(c), c, (budget - 1) as nat);
            match dfs_list(g, g.children(c), c, (budget - 1) as nat) {
                DfsOutcome::Done(sub) => {
                    if sub.len() >= budget {
                        return |k: int| -1;
                    }
                    let rb = (budget - 1 - sub.len()) as nat;
                    let tail = list.drop_first();
                    assert forall|a: int, b: int| 0 <= a < b < tail.len() implies tail[a] < tail[b] by {
                        assert(tail[a] == list[a + 1] && tail[b] == list[b + 1]);
                    }
                    let er = lemma_dfs_entries(g, tail, p, rb);
                    match dfs_list(g, tail, p, rb) {
                        DfsOutcome::Done(rest) => {
                            let n = sub.len() as int;
                            let entry = |k: int|
                                if k <= 0 {
                                    -1
                                } else if k <= n {
                                    if es(k - 1) == -1 { 0 } else { es(k - 1) + 1 }
                                } else {
                                    if er(k - 1 - n) == -1 { -1 } else { er(k - 1 - n) + 1 + n }
                                };
                            let v = seq![(j, p, c)] + sub + rest;
                            assert(v[0] == (j, p, c));
                            assert forall|k: int| 1 <= k <= n implies v[k] == sub[k - 1] by {}
                            assert forall|k: int| n < k < v.len() implies v[k] == rest[k - 1 - n] by {}
                            assert forall|k: int| 0 <= k < v.len() && #[trigger] entry(k) == -1 implies v[k].1 == p && list.contains(v[k].0) by {
                                if k == 0 {
                                    assert(list[0] == v[k].0);
                                } else {
                                    let r = k - 1 - n;
                                    assert(tail.contains(rest[r].0));
                                    let i = choose|i: int| 0 <= i < tail.len() && tail[i] == rest[r].0;
                                    assert(list[i + 1] == v[k].0);
                                }
                            }
                            assert forall|k1: int, k2: int| 0 <= k1 < k2 < v.len() && #[trigger] entry(k1) == #[trigger] entry(k2) implies v[k1].0 < v[k2].0 by {
                                if k1 == 0 {
                                    let r = k2 - 1 - n;
                                    assert(tail.contains(rest[r].0));
                                    let i = choose|i: int| 0 <= i < tail.len() && tail[i] == rest[r].0;
                                    assert(list[0] < list[i + 1]);
                                } else if k1 <= n && k2 <= n {
                                    assert(es(k1 - 1) == es(k2 - 1));
                                } else if k1 > n {
                                    assert(er(k1 - 1 - n) == er(k2 - 1 - n));
                                }
                            }
                            assert(walk_entries(v, list, p, entry));
                            entry
                        },
                        _ => |k: int| -1,
                    }
                },
                _ => |k: int| -1,
            }
        },
    }
}

pub proof fn lemma_child_names_upto(g: JointGraph, n: int)
    requires
        n <= g.joints.len(),
    ensures
        forall|name: Seq<char>| g.child_names_upto(n).contains(name) <==> exists|j: int| 0 <= j < n && #[trigger] g.joints[j].child == name,
    decreases n,
{
    if n > 0 {
        lemma_child_names_upto(g, n - 1);
        assert forall|name: Seq<char>| g.child_names_upto(n).contains(name) implies exists|j: int| 0 <= j < n && #[trigger] g.joints[j].child == name by {
            if name == g.joints[n - 1].child {
                assert(g.joints[n - 1].child == name);
            } else {
                assert(g.child_names_upto(n - 1).contains(name));
                let j = choose|j: int| 0 <= j < n - 1 && #[trigger] g.joints[j].child == name;
                assert(0 <= j < n);
            }
        }
        assert forall|name: Seq<char>| (exists|j: int| 0 <= j < n && #[trigger] g.joints[j].child == name) implies g.child_names_upto(n).contains(name) by {
            let j = choose|j: int| 0 <= j < n && #[trigger] g.joints[j].child == name;
            if j < n - 1 {
                assert(g.child_names_upto(n - 1).contains(name));
            }
        }
    }
}

pub proof fn lemma_roots_upto_not_child(g: JointGraph, n: int)
    requires
        n <= usize::MAX,
    ensures
        forall|k: int| 0 <= k < g.roots_upto(n).len() ==> !g.child_names_upto(g.joints.len() as int).contains(
            g.links[#[trigger] g.roots_upto(n)[k] as int],
        ),
    decreases n,
{
    if n > 0 {
        lemma_roots_upto_not_child(g, n - 1);
        let prev = g.roots_upto(n - 1);
        assert forall|k: int| 0 <= k < g.roots_upto(n).len() implies !g.child_names_upto(g.joints.len() as int).contains(
            g.links[#[trigger] g.roots_upto(n)[k] as int],
        ) by {
            if k < prev.len() {
                assert(g.roots_upto(n)[k] == prev[k]);
            }
        }
    }
}

/// In a completed walk from a root link that no joint has as child, over
/// joints whose child names are all different, no joint is visited twice.
proof fn lemma_visits_distinct(g: JointGraph, root: usize, v: Seq<(usize, usize, usize)>, entry: spec_fn(int) -> int, n: int)
    requires
        g.links.len() <= usize::MAX,
        0 <= n <= v.len(),
        walk_entries(v, g.children(root), root, entry),
        forall|k: int| 0 <= k < v.len() ==> {
            &&& (#[trigger] v[k]).0 < g.joints.len()
            &&& v[k].1 == g.parent_of(v[k].0 as int)
            &&& g.child_of(v[k].0 as int) == Some(v[k].2)
        },
        forall|j: int| 0 <= j < g.joints.len() ==> #[trigger] g.child_of(j) != Some(root),
        forall|j1: int, j2: int| 0 <= j1 < j2 < g.joints.len() ==> #[trigger] g.joints[j1].child != #[trigger] g.joints[j2].child,
    ensures
        forall|k1: int, k2: int| 0 <= k1 < k2 < n ==> (#[trigger] v[k1]).0 != (#[trigger] v[k2]).0,
    decreases n,
{
    if n > 0 {
        lemma_visits_distinct(g, root, v, entry, n - 1);
        lemma_link_index_map(g.links);
        let k2 = n - 1;
        assert forall|k1: int, k2b: int| 0 <= k1 < k2b < n implies (#[trigger] v[k1]).0 != (#[trigger] v[k2b]).0 by {
            if k2b == k2 && v[k1].0 == v[k2].0 {
                let e1 = entry(k1);
                let e2 = entry(k2);
                if e1 == e2 {
                } else if e1 == -1 {
                    assert(g.child_of(v[e2].0 as int) == Some(root));
                } else if e2 == -1 {
                    assert(g.child_of(v[e1].0 as int) == Some(root));
                } else {
                    let x = v[k1].1;
                    assert(v[e1].2 == x && v[e2].2 == x);
                    let j1 = v[e1].0 as int;
                    let j2 = v[e2].0 as int;
                    assert(g.link_map().contains_key(g.joints[j1].child));
                    assert(g.link_map().contains_key(g.joints[j2].child));
                    assert(g.joints[j1].child == g.links[x as int]);
                    assert(g.joints[j2].child == g.links[x as int]);
                    if j1 < j2 {
                        assert(g.joints[j1].child != g.joints[j2].child);
                    } else if j2 < j1 {
                        assert(g.joints[j2].child != g.joints[j1].child);
                    } else {
                        if e1 < e2 {
                            assert(v[e1].0 != v[e2].0);
                        } else {
                            assert(v[e2].0 != v[e1].0);
                        }
                    }
                }
            }
        }
    }
}

/// In such a walk, joints that share a parent link are visited in the order
/// of their declaration.
proof fn lemma_siblings_in_order(g: JointGraph, root: usize, v: Seq<(usize, usize, usize)>, entry: spec_fn(int) -> int)
    requires
        g.links.len() <= usize::MAX,
        walk_entries(v, g.children(root), root, entry),
        forall|k: int| 0 <= k < v.len() ==> {
            &&& (#[trigger] v[k]).0 < g.joints.len()
            &&& v[k].1 == g.parent_of(v[k].0 as int)
            &&& g.child_of(v[k].0 as int) == Some(v[k].2)
        },
        forall|j: int| 0 <= j < g.joints.len() ==> #[trigger] g.child_of(j) != Some(root),
        forall|j1: int, j2: int| 0 <= j1 < j2 < g.joints.len() ==> #[trigger] g.joints[j1].child != #[trigger] g.joints[j2].child,
        forall|k1: int, k2: int| 0 <= k1 < k2 < v.len() ==> (#[trigger] v[k1]).0 != (#[trigger] v[k2]).0,
    ensures
        forall|k1: int, k2: int| 0 <= k1 < k2 < v.len() && (#[trigger] v[k1]).1 == (#[trigger] v[k2]).1 ==> v[k1].0 < v[k2].0,
{
    lemma_link_index_map(g.links);
    assert forall|k1: int, k2: int| 0 <= k1 < k2 < v.len() && (#[trigger] v[k1]).1 == (#[trigger] v[k2]).1 implies v[k1].0 < v[k2].0 by {
        let e1 = entry(k1);
        let e2 = entry(k2);
        if e1 == e2 {
        } else if e1 == -1 {
            assert(g.child_of(v[e2].0 as int) == Some(root));
        } else if e2 == -1 {
            assert(g.child_of(v[e1].0 as int) == Some(root));
        } else {
            let x = v[k1].1;
            assert(v[e1].2 == x && v[e2].2 == x);
            let j1 = v[e1].0 as int;
            let j2 = v[e2].0 as int;
            assert(g.link_map().contains_key(g.joints[j1].child));
            assert(g.link_map().contains_key(g.joints[j2].child));
            assert(g.joints[j1].child == g.links[x as int]);
            assert(g.joints[j2].child == g.links[x as int]);
            if j1 < j2 {
                assert(g.joints[j1].child != g.joints[j2].child);
            } else if j2 < j1 {
                assert(g.joints[j2].child != g.joints[j1].child);
            } else if e1 < e2 {
                assert(v[e1].0 != v[e2].0);
            } else {
                assert(v[e2].0 != v[e1].0);
            }
        }
    }
}

/// The parts of a joint that placing it in the tree leaves as parsed.
pub open spec fn same_joint(placed: JointView, parsed: JointView) -> bool {
    placed == (JointView {
        parent_link_idx: placed.parent_link_idx,
        child_link_idx: placed.child_link_idx,
        cmd_idx: placed.cmd_idx,
        ..parsed
    })
}

/// `perm` lists each of `0 .. n` exactly once.
pub open spec fn is_permutation(perm: Seq<usize>, n: nat) -> bool {
    &&& perm.len() == n
    &&& forall|k: int| 0 <= k < perm.len() ==> #[trigger] perm[k] < n
    &&& forall|k1: int, k2: int| 0 <= k1 < k2 < perm.len() ==> #[trigger] perm[k1] != #[trigger] perm[k2]
}

/// When no two joints have the same child link, ordering the joints visits
/// each of them exactly once: the result is a rearrangement of the parsed
/// joints, each placed in the tree, in which joints that share a parent link
/// keep the order of their declaration.
pub proof fn lemma_resolve_each_joint_once(links: Seq<Seq<char>>, joints: Seq<JointView>)
    requires
        links.len() <= usize::MAX,
        joints.len() <= usize::MAX,
        forall|j1: int, j2: int| 0 <= j1 < j2 < joints.len() ==> #[trigger] joints[j1].child != #[trigger] joints[j2].child,
    ensures
        spec_resolve(links, joints) matches Ok(o) ==> exists|perm: Seq<usize>| {
            &&& is_permutation(perm, joints.len())
            &&& forall|k: int| 0 <= k < o.len() ==> same_joint(#[trigger] o[k], joints[perm[k] as int])
            &&& forall|k1: int, k2: int| 0 <= k1 < k2 < o.len() && (#[trigger] o[k1]).parent_link_idx == (#[trigger] o[k2]).parent_link_idx
                ==> perm[k1] < perm[k2]
        },
{
    let g = JointGraph { links, joints };
    if g.unknown_parent_from(0) is None && g.roots().len() == 1 {
        let root = g.roots()[0];
        lemma_roots_upto_bound(g, links.len() as int);
        lemma_roots_upto_not_child(g, links.len() as int);
        lemma_child_names_upto(g, joints.len() as int);
        lemma_link_index_map(links);
        lemma_children_upto_bound(g, root, joints.len() as int);
        lemma_children_upto_parent(g, root, joints.len() as int);
        lemma_children_upto_increasing(g, root, joints.len() as int);
        lemma_dfs_visits(g, g.children(root), root, joints.len() as nat);
        let entry = lemma_dfs_entries(g, g.children(root), root, joints.len() as nat);
        match dfs_list(g, g.children(root), root, joints.len() as nat) {
            DfsOutcome::Done(v) => {
                if v.len() == joints.len() {
                    assert forall|j: int| 0 <= j < g.joints.len() implies #[trigger] g.child_of(j) != Some(root) by {
                        if g.child_of(j) == Some(root) {
                            assert(g.link_map().contains_key(joints[j].child));
                            assert(links[root as int] == joints[j].child);
                            assert(g.child_names_upto(joints.len() as int).contains(links[root as int]));
                        }
                    }
                    lemma_visits_distinct(g, root, v, entry, v.len() as int);
                    let perm = v.map_values(|x: (usize, usize, usize)| x.0);
                    let o = resolve_visits(joints, v);
                    lemma_resolve_visits_len(joints, v);
                    assert forall|k1: int, k2: int| 0 <= k1 < k2 < perm.len() implies #[trigger] perm[k1] != #[trigger] perm[k2] by {
                        assert(v[k1].0 != v[k2].0);
                    }
                    assert forall|k: int| 0 <= k < o.len() implies same_joint(#[trigger] o[k], joints[perm[k] as int]) by {
                        lemma_resolve_visits_index(joints, v, k);
                    }
                    lemma_siblings_in_order(g, root, v, entry);
                    assert forall|k1: int, k2: int| 0 <= k1 < k2 < o.len() && (#[trigger] o[k1]).parent_link_idx == (#[trigger] o[k2]).parent_link_idx
                        implies perm[k1] < perm[k2] by {
                        lemma_resolve_visits_index(joints, v, k1);
                        lemma_resolve_visits_index(joints, v, k2);
                        assert(v[k1].1 == v[k2].1);
                    }
                    assert(is_permutation(perm, joints.len()));
                }
            },
            _ => {},
        }
    }
}

/// Joint `q` of `o` hangs below joint `k`: from `k`'s child link, or from
/// the child link of a joint between them.
pub open spec fn joint_hangs_below(o: Seq<JointView>, k: int, q: int) -> bool {
    ||| o[q].parent_link_idx == o[k].child_link_idx
    ||| exists|r: int| k < r < q && o[r].child_link_idx == o[q].parent_link_idx
}

/// Subtrees of `o` do not interleave: every joint between a joint and one
/// that hangs from its child link hangs below it.
pub open spec fn subtrees_whole(o: Seq<JointView>) -> bool {
    forall|k: int, q: int, i: int| #![trigger o[k], o[q], o[i]]
        0 <= k < q < i < o.len() && o[i].parent_link_idx == o[k].child_link_idx ==> joint_hangs_below(o, k, q)
}

proof fn lemma_subtrees_whole_from_visits(v: Seq<(usize, usize, usize)>, o: Seq<JointView>)
    requires
        o.len() == v.len(),
        forall|x: int| 0 <= x < v.len() ==> (#[trigger] o[x]).parent_link_idx == v[x].1 && o[x].child_link_idx == v[x].2,
        no_interleaving(v),
    ensures
        subtrees_whole(o),
{
    reveal(no_interleaving);
    assert forall|k: int, q: int, i: int| #![trigger o[k], o[q], o[i]]
        0 <= k < q < i < o.len() && o[i].parent_link_idx == o[k].child_link_idx implies joint_hangs_below(o, k, q) by {
        assert(v[i].1 == v[k].2);
        assert(visit_hangs_below(v, k, q));
        if o[q].parent_link_idx != o[k].child_link_idx {
            let r = choose|r: int| k < r < q && v[r].2 == v[q].1;
            assert(o[r].child_link_idx == o[q].parent_link_idx);
        }
    }
}

/// When no two joints have the same child link, each subtree of the order
/// is whole: between a joint and any joint that hangs from its child link,
/// every joint hangs below it. Together with `lemma_resolve_subtrees_consecutive`,
/// the joints below any link occupy consecutive positions.
pub proof fn lemma_resolve_subtrees_whole(links: Seq<Seq<char>>, joints: Seq<JointView>)
    requires
        links.len() <= usize::MAX,
        joints.len() <= usize::MAX,
        forall|j1: int, j2: int| 0 <= j1 < j2 < joints.len() ==> #[trigger] joints[j1].child != #[trigger] joints[j2].child,
    ensures
        spec_resolve(links, joints) matches Ok(o) ==> subtrees_whole(o),
{
    let g = JointGraph { links, joints };
    if g.unknown_parent_from(0) is None && g.roots().len() == 1 {
        let root = g.roots()[0];
        lemma_roots_upto_bound(g, links.len() as int);
        lemma_roots_upto_not_child(g, links.len() as int);
        lemma_child_names_upto(g, joints.len() as int);
        lemma_link_index_map(links);
        lemma_children_upto_bound(g, root, joints.len() as int);
        lemma_children_upto_parent(g, root, joints.len() as int);
        lemma_children_upto_increasing(g, root, joints.len() as int);
        lemma_dfs_visits(g, g.children(root), root, joints.len() as nat);
        lemma_dfs_no_interleaving(g, g.children(root), root, joints.len() as nat);
        let entry = lemma_dfs_entries(g, g.children(root), root, joints.len() as nat);
        if let DfsOutcome::Done(v) = dfs_list(g, g.children(root), root, joints.len() as nat) {
            if v.len() == joints.len() {
                assert forall|j: int| 0 <= j < g.joints.len() implies #[trigger] g.child_of(j) != Some(root) by {
                    if g.child_of(j) == Some(root) {
                        assert(g.link_map().contains_key(joints[j].child));
                        assert(links[root as int] == joints[j].child);
                        assert(g.child_names_upto(joints.len() as int).contains(links[root as int]));
                    }
                }
                lemma_visits_distinct(g, root, v, entry, v.len() as int);
                assert forall|a: int, b: int| 0 <= a < b < v.len() implies #[trigger] v[a].2 != #[trigger] v[b].2 by {
                    if v[a].2 == v[b].2 {
                        let x = v[a].2;
                        let ja = v[a].0 as int;
                        let jb = v[b].0 as int;
                        assert(g.link_map().contains_key(joints[ja].child));
                        assert(g.link_map().contains_key(joints[jb].child));
                        assert(joints[ja].child == links[x as int]);
                        assert(joints[jb].child == links[x as int]);
                        assert(ja != jb);
                        if ja < jb {
                            assert(joints[ja].child != joints[jb].child);
                        } else {
                            assert(joints[jb].child != joints[ja].child);
                        }
                    }
                }
                assert forall|a: int| 0 <= a < v.len() implies (#[trigger] v[a]).2 != root by {
                    assert(g.child_of(v[a].0 as int) != Some(root));
                }
                assert(fresh_children(v, root));
                let o = resolve_visits(joints, v);
                lemma_resolve_visits_len(joints, v);
                assert forall|x: int| 0 <= x < v.len() implies (#[trigger] o[x]).parent_link_idx == v[x].1 && o[x].child_link_idx == v[x].2 by {
                    lemma_resolve_visits_index(joints, v, x);
                }
                lemma_subtrees_whole_from_visits(v, o);
            }
        }
    }
}

/// Every joint of the order comes from one of the parsed joints, placed in
/// the tree: it keeps that joint's name, type, link names and geometry.
pub proof fn lemma_resolve_from_parsed(links: Seq<Seq<char>>, joints: Seq<JointView>)
    requires
        links.len() <= usize::MAX,
        joints.len() <= usize::MAX,
    ensures
        spec_resolve(links, joints) matches Ok(o) ==> o.len() == joints.len() && forall|k: int| 0 <= k < o.len() ==> exists|i: int|
            0 <= i < joints.len() && same_joint(#[trigger] o[k], joints[i]),
{
    let g = JointGraph { links, joints };
    if g.unknown_parent_from(0) is None && g.roots().len() == 1 {
        let root = g.roots()[0];
        lemma_roots_upto_bound(g, links.len() as int);
        lemma_children_upto_bound(g, root, joints.len() as int);
        lemma_children_upto_parent(g, root, joints.len() as int);
        lemma_dfs_visits(g, g.children(root), root, joints.len() as nat);
        if let DfsOutcome::Done(v) = dfs_list(g, g.children(root), root, joints.len() as nat) {
            let o = resolve_visits(joints, v);
            lemma_resolve_visits_len(joints, v);
            assert forall|k: int| 0 <= k < o.len() implies exists|i: int|
                0 <= i < joints.len() && same_joint(#[trigger] o[k], joints[i]) by {
                lemma_resolve_visits_index(joints, v, k);
                assert(same_joint(o[k], joints[v[k].0 as int]));
            }
        }
    }
}

/// `x` is the joint of visit `v` placed in the tree: between the visit's
/// parent and child links, otherwise as parsed.
pub open spec fn placed_as(x: JointView, joints: Seq<JointView>, v: (usize, usize, usize)) -> bool {
    &&& x.parent_link_idx == v.1
    &&& x.child_link_idx == v.2
    &&& same_joint(x, joints[v.0 as int])
}

/// Right after joint `k` of the order `o` come, as one consecutive block,
/// the joints of the walk below its child link, each placed; and each of
/// them hangs from that link or from the child link of an earlier joint of
/// the block.
pub open spec fn joints_below_follow(g: JointGraph, o: Seq<JointView>, k: int) -> bool {
    exists|b: nat| #[trigger] walk_below(g, o[k].child_link_idx, b) matches DfsOutcome::Done(s) && {
        &&& k + 1 + s.len() <= o.len()
        &&& forall|i: int| k < i <= k + s.len() ==> placed_as(#[trigger] o[i], g.joints, s[i - k - 1])
        &&& forall|i: int| k < i <= k + s.len() ==> {
            ||| (#[trigger] o[i]).parent_link_idx == o[k].child_link_idx
            ||| exists|q: int| k < q < i && o[q].child_link_idx == o[i].parent_link_idx
        }
    }
}

/// The order is depth-first pre-order: the joints below any joint's child
/// link come directly after that joint, as one consecutive block.
pub proof fn lemma_resolve_subtrees_consecutive(links: Seq<Seq<char>>, joints: Seq<JointView>)
    requires
        links.len() <= usize::MAX,
        joints.len() <= usize::MAX,
    ensures
        spec_resolve(links, joints) matches Ok(o) ==> forall|k: int| 0 <= k < o.len()
            ==> #[trigger] joints_below_follow(JointGraph { links, joints }, o, k),
{
    let g = JointGraph { links, joints };
    if g.unknown_parent_from(0) is None && g.roots().len() == 1 {
        let root = g.roots()[0];
        lemma_roots_upto_bound(g, links.len() as int);
        lemma_children_upto_bound(g, root, joints.len() as int);
        lemma_children_upto_parent(g, root, joints.len() as int);
        lemma_dfs_visits(g, g.children(root), root, joints.len() as nat);
        lemma_subtrees_consecutive(g, g.children(root), root, joints.len() as nat);
        if let DfsOutcome::Done(v) = dfs_list(g, g.children(root), root, joints.len() as nat) {
            let o = resolve_visits(joints, v);
            lemma_resolve_visits_len(joints, v);
            assert forall|k: int| 0 <= k < o.len() implies #[trigger] joints_below_follow(g, o, k) by {
                assert(block_below(g, v, k));
                lemma_resolve_visits_index(joints, v, k);
                let c = v[k].2;
                let b = choose|b: nat| #[trigger] walk_below(g, v[k].2, b) matches DfsOutcome::Done(s)
                    && k + 1 + s.len() <= v.len() && v.subrange(k + 1, k + 1 + s.len()) == s;
                lemma_children_upto_bound(g, c, joints.len() as int);
                lemma_children_upto_parent(g, c, joints.len() as int);
                lemma_dfs_visits(g, g.children(c), c, b);
                if let DfsOutcome::Done(s) = walk_below(g, c, b) {
                    assert forall|i: int| k < i <= k + s.len() implies placed_as(#[trigger] o[i], g.joints, s[i - k - 1]) by {
                        lemma_resolve_visits_index(joints, v, i);
                        assert(v[i] == v.subrange(k + 1, k + 1 + s.len())[i - k - 1]);
                    }
                    assert forall|i: int| k < i <= k + s.len() implies {
                        ||| (#[trigger] o[i]).parent_link_idx == o[k].child_link_idx
                        ||| exists|q: int| k < q < i && o[q].child_link_idx == o[i].parent_link_idx
                    } by {
                        lemma_resolve_visits_index(joints, v, i);
                        assert(v[i] == v.subrange(k + 1, k + 1 + s.len())[i - k - 1]);
                        let m = i - k - 1;
                        if s[m].1 != c {
                            let mq = choose|mq: int| 0 <= mq < m && s[mq].2 == s[m].1;
                            let q = k + 1 + mq;
                            lemma_resolve_visits_index(joints, v, q);
                            assert(v[q] == v.subrange(k + 1, k + 1 + s.len())[mq]);
                            assert(k < q < i && o[q].child_link_idx == o[i].parent_link_idx);
                        }
                    }
                }
            }
        }
    }
}

// ----- the walk -----

enum DfsStatus {
    Complete,
    UnknownChild(usize),
    Overflow,
}

/// Visits the joints below link `link_idx` depth-first, appending each to
/// `ordered` placed in the tree; movable joints take command slots counted
/// on from `*cmd_counter`. The joints already in `ordered` stay as they are.
/// At most `budget` joints are visited: the walk stops with `Overflow` where
/// it would visit more, and with `UnknownChild` at a joint whose child link
/// is not declared. The budget changes nothing else (`lemma_dfs_budget`): a
/// budget at least as large as the whole walk gives the whole walk.
#[verifier::loop_isolation(false)]
#[verifier::spinoff_prover]
#[verifier::rlimit(40)]
fn dfs_visit(
    link_idx: usize,
    joints: &Vec<Joint>,
    children: &Vec<Vec<usize>>,
    child_of: &Vec<Option<usize>>,
    ordered: &mut Vec<Joint>,
    cmd_counter: &mut usize,
    budget: usize,
    Ghost(g): Ghost<JointGraph>,
) -> (st: DfsStatus)
    requires
        g.joints == joints_view(joints@),
        link_idx < children.len(),
        forall|p: int| 0 <= p < children.len() ==> (#[trigger] children@[p])@ == g.children(p as usize),
        child_of@.len() == joints.len(),
        forall|j: int| 0 <= j < joints.len() ==> #[trigger] child_of@[j] == g.child_of(j),
        graph_ok(g, children.len() as nat),
        *old(cmd_counter) + budget <= usize::MAX,
    ensures
        final(ordered)@.len() >= old(ordered)@.len(),
        final(ordered)@.subrange(0, old(ordered)@.len() as int) == old(ordered)@,
        match (st, dfs_list(g, g.children(link_idx), link_idx, budget as nat)) {
            (DfsStatus::Complete, DfsOutcome::Done(sub)) => {
                &&& joints_view(final(ordered)@) == joints_view(old(ordered)@) + resolve_visits_from(
                    g.joints,
                    *old(cmd_counter) as nat,
                    sub,
                )
                &&& *final(cmd_counter) == *old(cmd_counter) + actuated_count(
                    resolve_visits_from(g.joints, *old(cmd_counter) as nat, sub),
                )
                &&& slots_from(joints_view(final(ordered)@).skip(old(ordered)@.len() as int), *old(cmd_counter) as nat)
                &&& *final(cmd_counter) == *old(cmd_counter) + actuated_count(
                    joints_view(final(ordered)@).skip(old(ordered)@.len() as int),
                )
            },
            (DfsStatus::UnknownChild(j), DfsOutcome::UnknownChild(sj)) => j == sj,
            (DfsStatus::Overflow, DfsOutcome::Overflow) => true,
            _ => false,
        },
        st matches DfsStatus::UnknownChild(x) ==> x < joints.len(),
    decreases budget,
{
    let ghost o0 = ordered@;
    let ghost c0 = *cmd_counter as nat;
    let ghost list = g.children(link_idx);
    let n = children[link_idx].len();
    let mut i: usize = 0;
    let mut remaining: usize = budget;
    let ghost mut acc: Seq<(usize, usize, usize)> = seq![];
    assert(list.skip(0) =~= list);
    assert(ordered@.subrange(0, o0.len() as int) =~= o0);
    assert(joints_view(ordered@) =~= joints_view(o0) + resolve_visits_from(g.joints, c0, acc));
    while i < n
        invariant
            n == list.len(),
            list == children@[link_idx as int]@,
            0 <= i <= n,
            acc.len() + remaining == budget,
            ordered@.len() >= o0.len(),
            ordered@.subrange(0, o0.len() as int) == o0,
            joints_view(ordered@) == joints_view(o0) + resolve_visits_from(g.joints, c0, acc),
            *cmd_counter == c0 + actuated_count(resolve_visits_from(g.joints, c0, acc)),
            dfs_list(g, list, link_idx, budget as nat)
                == prepend_outcome(acc, dfs_list(g, list.skip(i as int), link_idx, remaining as nat)),
        decreases n - i,
    {
        let ghost rest = list.skip(i as int);
        let ghost acc0 = acc;
        let ghost b = remaining as nat;
        let ghost before = ordered@;
        assert(dfs_list(g, list, link_idx, budget as nat) == prepend_outcome(acc0, dfs_list(g, rest, link_idx, b)));
        let j = children[link_idx][i];
        assert(rest[0] == j);
        assert(rest.drop_first() =~= list.skip(i + 1));
        assert(j < joints.len());
        let c = match child_of[j] {
            Some(c) => c,
            None => return DfsStatus::UnknownChild(j),
        };
        if remaining == 0 {
            return DfsStatus::Overflow;
        }
        proof {
            lemma_actuated_count_bound(resolve_visits_from(g.joints, c0, acc0));
            lemma_resolve_visits_from_len(g.joints, c0, acc0);
        }
        let cmd = if joints[j].joint_type == JointType::Fixed {
            None
        } else {
            let k = *cmd_counter;
            *cmd_counter = k + 1;
            Some(k)
        };
        let resolved = joints[j].resolved(link_idx, c, cmd);
        ordered.push(resolved);
        remaining = remaining - 1;
        proof {
            let v = (j, link_idx, c);
            let r0 = resolve_visits_from(g.joints, c0, acc0);
            assert(acc0.push(v).drop_last() =~= acc0);
            assert(joints_view(ordered@) =~= joints_view(before).push(resolved@));
            assert(joints_view(o0) + r0.push(resolved@) =~= (joints_view(o0) + r0).push(resolved@));
            assert(ordered@.subrange(0, o0.len() as int) =~= before.subrange(0, o0.len() as int));
            let r1 = resolve_visits_from(g.joints, c0, acc0.push(v));
            assert(r1.drop_last() =~= r0);
            acc = acc0.push(v);
            lemma_actuated_count_bound(r1);
            lemma_resolve_visits_from_len(g.joints, c0, acc);
        }
        let len_before = ordered.len();
        let ghost before_call = ordered@;
        let ghost c1 = *cmd_counter as nat;
        let ghost rb = remaining as nat;
        let st = dfs_visit(c, joints, children, child_of, ordered, cmd_counter, remaining, Ghost(g));
        proof {
            assert(ordered@.subrange(0, o0.len() as int) =~= ordered@.subrange(0, before_call.len() as int).subrange(
                0,
                o0.len() as int,
            ));
        }
        match st {
            DfsStatus::Complete => {},
            DfsStatus::UnknownChild(x) => return DfsStatus::UnknownChild(x),
            DfsStatus::Overflow => return DfsStatus::Overflow,
        }
        let pushed = ordered.len() - len_before;
        proof {
            let v = (j, link_idx, c);
            let sub = match dfs_list(g, g.children(c), c, rb) {
                DfsOutcome::Done(s) => s,
                _ => seq![],
            };
            assert(dfs_list(g, g.children(c), c, rb) == DfsOutcome::Done(sub));
            lemma_resolve_visits_from_len(g.joints, c1, sub);
            assert(joints_view(ordered@).len() == ordered@.len());
            assert(joints_view(before_call).len() == before_call.len());
            assert(joints_view(ordered@) == joints_view(before_call) + resolve_visits_from(g.joints, c1, sub));
            lemma_dfs_len(g, g.children(c), c, rb);
            assert(pushed == sub.len());
            assert(sub.len() < b);
            lemma_resolve_visits_append(g.joints, c0, acc, sub);
            let ra = resolve_visits_from(g.joints, c0, acc);
            let rs = resolve_visits_from(g.joints, c1, sub);
            lemma_actuated_count_append(ra, rs);
            assert(joints_view(o0) + ra + rs =~= joints_view(o0) + (ra + rs));
            let x = dfs_list(g, list.skip(i + 1), link_idx, (rb - sub.len()) as nat);
            assert((b - 1 - sub.len()) as nat == (rb - sub.len()) as nat);
            assert(dfs_list(g, rest, link_idx, b) == prepend_outcome(seq![v] + sub, x));
            match x {
                DfsOutcome::Done(r) => {
                    assert(acc0 + (seq![v] + sub + r) =~= (acc + sub) + r);
                },
                _ => {},
            }
            assert(prepend_outcome(acc0, prepend_outcome(seq![v] + sub, x)) == prepend_outcome(acc + sub, x));
            acc = acc + sub;
        }
        remaining = remaining - pushed;
        i = i + 1;
    }
    assert(list.skip(n as int) =~= Seq::<usize>::empty());
    assert(acc + Seq::<(usize, usize, usize)>::empty() =~= acc);
    proof {
        lemma_appended_slots(joints_view(o0), joints_view(ordered@), g.joints, c0, acc);
    }
    DfsStatus::Complete
}

// ----- building the lookups -----

/// The link-name lookup: each name maps to the last link declared under it.
fn build_link_map(links: &Vec<Link>) -> (m: StringHashMap<usize>)
    ensures
        m@ == link_index_map(links_view(links@)),
{
    let ghost lv = links_view(links@);
    let mut m = StringHashMap::<usize>::new();
    let n = links.len();
    let mut i: usize = 0;
    while i < n
        invariant
            n == links@.len(),
            lv == links_view(links@),
            0 <= i <= n,
            m@ == link_index_map(lv.take(i as int)),
        decreases n - i,
    {
        assert(lv.take(i + 1).drop_last() =~= lv.take(i as int));
        m.insert(links[i].name.clone(), i);
        i = i + 1;
    }
    assert(lv.take(n as int) =~= lv);
    m
}

/// Resolves the joint order for downstream functions.
///
/// Joints are ordered by a depth-first pre-order walk from the root link (the
/// one link that no joint has as child), children of a link in file order, so
/// that each joint comes after the joint that places its parent link and the
/// joints of one branch are consecutive. Each joint gets the indices of its
/// parent and child links, and each movable joint the next command slot.
/// Also returns the link-name and joint-name lookups.
pub fn resolve_joint_order(links: &Vec<Link>, joints: &Vec<Joint>) -> (res: Result<
    (Vec<Joint>, StringHashMap<usize>, StringHashMap<usize>),
    UrdfParseError,
>)
    ensures
        match (res, spec_resolve(links_view(links@), joints_view(joints@))) {
            (Ok((ordered, link_map, joint_map)), Ok(so)) => {
                &&& joints_view(ordered@) == so
                &&& link_map@ == link_index_map(links_view(links@))
                &&& joint_map@ == joint_index_map(so)
            },
            (Err(e), Err(se)) => e@ == se,
            _ => false,
        },
{
    let ghost lv = links_view(links@);
    let ghost jv = joints_view(joints@);
    let ghost g = JointGraph { links: lv, joints: jv };
    let n_links = links.len();
    let n_joints = joints.len();

    // Enforcing order to ensure indexing is accurate
    let link_lookup = build_link_map(links);
    proof {
        lemma_link_index_map(lv);
    }

    // Children of each link, in file order
    let mut children: Vec<Vec<usize>> = Vec::new();
    let mut l: usize = 0;
    while l < n_links
        invariant
            0 <= l <= n_links,
            children@.len() == l,
            forall|p: int| 0 <= p < l ==> (#[trigger] children@[p])@ == Seq::<usize>::empty(),
        decreases n_links - l,
    {
        children.push(Vec::new());
        l = l + 1;
    }
    let mut j: usize = 0;
    while j < n_joints
        invariant
            n_joints == joints@.len(),
            n_links == links@.len(),
            lv == links_view(links@),
            jv == joints_view(joints@),
            g == (JointGraph { links: lv, joints: jv }),
            link_lookup@ == link_index_map(lv),
            0 <= j <= n_joints,
            children@.len() == n_links,
            forall|p: int| 0 <= p < n_links ==> (#[trigger] children@[p])@ == g.children_upto(p as usize, j as int),
            g.unknown_parent_from(0) == g.unknown_parent_from(j as int),
            forall|k: Seq<char>| #[trigger] link_index_map(lv).contains_key(k) ==> link_index_map(lv)[k] < lv.len(),
        decreases n_joints - j,
    {
        assert(jv[j as int] == joints@[j as int]@);
        let p = match link_lookup.get(joints[j].parent.as_str()) {
            Some(p) => *p,
            None => {
                return Err(UrdfParseError::UnknownLink {
                    joint: joints[j].name.clone(),
                    link: joints[j].parent.clone(),
                });
            },
        };
        assert(g.parent_of(j as int) == p);
        children[p].push(j);
        assert forall|q: int| 0 <= q < n_links implies (#[trigger] children@[q])@ == g.children_upto(q as usize, j + 1) by {
            assert(g.children_upto(q as usize, j + 1) == if g.parent_of(j as int) == q as usize {
                g.children_upto(q as usize, j as int).push(j)
            } else {
                g.children_upto(q as usize, j as int)
            });
        }
        j = j + 1;
    }
    assert(g.unknown_parent_from(n_joints as int) is None);

    // Child link of each joint, where declared
    let mut child_of: Vec<Option<usize>> = Vec::new();
    let mut child_names = StringHashSet::new();
    let mut j: usize = 0;
    while j < n_joints
        invariant
            n_joints == joints@.len(),
            jv == joints_view(joints@),
            g == (JointGraph { links: lv, joints: jv }),
            link_lookup@ == link_index_map(lv),
            0 <= j <= n_joints,
            child_of@.len() == j,
            forall|k: int| 0 <= k < j ==> #[trigger] child_of@[k] == g.child_of(k),
            child_names@ == g.child_names_upto(j as int),
        decreases n_joints - j,
    {
        assert(jv[j as int] == joints@[j as int]@);
        let c = match link_lookup.get(joints[j].child.as_str()) {
            Some(c) => Some(*c),
            None => None,
        };
        child_of.push(c);
        child_names.insert(joints[j].child.clone());
        j = j + 1;
    }

    // Find the root
    let mut roots: Vec<usize> = Vec::new();
    let mut l: usize = 0;
    while l < n_links
        invariant
            n_links == links@.len(),
            lv == links_view(links@),
            g == (JointGraph { links: lv, joints: jv }),
            jv.len() == n_joints,
            0 <= l <= n_links,
            child_names@ == g.child_names_upto(n_joints as int),
            roots@ == g.roots_upto(l as int),
        decreases n_links - l,
    {
        assert(lv[l as int] == links@[l as int]@);
        if !child_names.contains(links[l].name.as_str()) {
            roots.push(l);
        }
        l = l + 1;
    }
    proof {
        lemma_roots_upto_bound(g, n_links as int);
    }
    if roots.len() == 0 {
        return Err(UrdfParseError::NoRootLink);
    }
    if roots.len() > 1 {
        let mut names: Vec<String> = Vec::new();
        let mut r: usize = 0;
        while r < roots.len()
            invariant
                n_links == links@.len(),
                lv == links_view(links@),
                0 <= r <= roots@.len(),
                forall|k: int| 0 <= k < roots@.len() ==> #[trigger] roots@[k] < n_links,
                names@.map_values(|s: String| s@) =~= roots@.take(r as int).map_values(|i: usize| lv[i as int]),
            decreases roots@.len() - r,
        {
            assert(lv[roots@[r as int] as int] == links@[roots@[r as int] as int]@);
            let ghost nb = names@;
            let name = links[roots[r]].name.clone();
            names.push(name);
            assert(roots@.take(r + 1) =~= roots@.take(r as int).push(roots@[r as int]));
            assert(names@.map_values(|s: String| s@) =~= nb.map_values(|s: String| s@).push(lv[roots@[r as int] as int]));
            r = r + 1;
        }
        assert(roots@.take(roots@.len() as int) =~= roots@);
        return Err(UrdfParseError::MultipleRootLinks(names));
    }
    let root = roots[0];

    // Walk the tree from the root, resolving parent/child link indices
    let mut ordered: Vec<Joint> = Vec::new();
    let mut actuated_joint_counter: usize = 0;
    proof {
        assert forall|p: usize, k: int| p < n_links && 0 <= k < g.children(p).len() implies #[trigger] g.children(p)[k] < g.joints.len() by {
            lemma_children_upto_bound(g, p, n_joints as int);
        }
    }
    let st = dfs_visit(root, joints, &children, &child_of, &mut ordered, &mut actuated_joint_counter, n_joints, Ghost(g));
    match st {
        DfsStatus::UnknownChild(x) => {
            assert(jv[x as int] == joints@[x as int]@);
            return Err(UrdfParseError::UnknownLink {
                joint: joints[x].name.clone(),
                link: joints[x].child.clone(),
            });
        },
        DfsStatus::Overflow => return Err(UrdfParseError::UnreachableJoints),
        DfsStatus::Complete => {},
    }
    proof {
        let sub = match dfs_list(g, g.children(root), root, n_joints as nat) {
            DfsOutcome::Done(s) => s,
            _ => seq![],
        };
        assert(joints_view(Seq::<Joint>::empty()) =~= Seq::<JointView>::empty());
        assert(Seq::<JointView>::empty() + resolve_visits(g.joints, sub) =~= resolve_visits(g.joints, sub));
        lemma_resolve_visits_len(g.joints, sub);
    }
    if ordered.len() != n_joints {
        return Err(UrdfParseError::UnreachableJoints);
    }

    // Command slot of each movable joint, by name
    let ghost ov = joints_view(ordered@);
    let mut joint_name_to_idx = StringHashMap::<usize>::new();
    let mut k: usize = 0;
    while k < ordered.len()
        invariant
            ov == joints_view(ordered@),
            0 <= k <= ordered@.len(),
            joint_name_to_idx@ == joint_index_map(ov.take(k as int)),
        decreases ordered@.len() - k,
    {
        assert(ov.take(k + 1).drop_last() =~= ov.take(k as int));
        assert(ov[k as int] == ordered@[k as int]@);
        match ordered[k].cmd_idx {
            Some(c) => {
                joint_name_to_idx.insert(ordered[k].name.clone(), c);
            },
            None => {},
        }
        k = k + 1;
    }
    assert(ov.take(ordered@.len() as int) =~= ov);
    Ok((ordered, link_lookup, joint_name_to_idx))
}

} // verus!

use vstd::prelude::*;

use crate::parser::{lemma_collect_len, lemma_parse_urdf_well_formed, spec_collect_from, spec_parse_urdf};
use crate::tree::{is_permutation, lemma_link_index_map, lemma_resolve_each_joint_once, lemma_resolve_from_parsed, same_joint};
use crate::xml::XmlNodeView;
use crate::error::UrdfParseErrorView;
use crate::tree::{spec_resolve, joints_below_follow, subtrees_whole, lemma_resolve_subtrees_whole, lemma_resolve_subtrees_consecutive, JointGraph};
use crate::types::{link_index_map, joints_well_placed, cmd_slots_in_order, cmd_count, actuated_count, joint_index_map, JointType, JointView, ModelView};

verus! {

/// Looking up a link by its own name finds a link of that name, for every
/// link of a parsed model (whichever order the file declares them in).
pub proof fn lemma_link_lookup_consistent(m: ModelView, i: int)
    requires
        m.well_formed(),
        0 <= i < m.links.len(),
    ensures
        m.link_name_to_idx.contains_key(m.links[i]),
        m.link_name_to_idx[m.links[i]] < m.links.len(),
        m.links[m.link_name_to_idx[m.links[i]] as int] == m.links[i],
{
    lemma_link_index_map(m.links);
}

/// In a parsed model, a name that no link has is not found, and a name that
/// is found is that of the link it leads to.
pub proof fn lemma_link_lookup_only_declared(m: ModelView, name: Seq<char>)
    requires
        m.well_formed(),
    ensures
        m.link_name_to_idx.contains_key(name) <==> exists|i: int| 0 <= i < m.links.len() && m.links[i] == name,
        m.link_name_to_idx.contains_key(name) ==> m.links[m.link_name_to_idx[name] as int] == name,
{
    lemma_link_index_map(m.links);
    if m.link_name_to_idx.contains_key(name) {
        let i = m.link_name_to_idx[name] as int;
        assert(0 <= i < m.links.len() && m.links[i] == name);
    }
}

/// No two links share a name.
pub open spec fn distinct_link_names(links: Seq<Seq<char>>) -> bool {
    forall|i1: int, i2: int| 0 <= i1 < i2 < links.len() ==> #[trigger] links[i1] != #[trigger] links[i2]
}

proof fn lemma_link_index_map_distinct(names: Seq<Seq<char>>)
    requires
        names.len() <= usize::MAX,
        distinct_link_names(names),
    ensures
        link_index_map(names).dom().finite(),
        link_index_map(names).dom().len() == names.len(),
        forall|i: int| 0 <= i < names.len() ==> link_index_map(names)[#[trigger] names[i]] == i,
    decreases names.len(),
{
    if names.len() > 0 {
        let prev = names.drop_last();
        assert(distinct_link_names(prev)) by {
            assert forall|i1: int, i2: int| 0 <= i1 < i2 < prev.len() implies #[trigger] prev[i1] != #[trigger] prev[i2] by {
                assert(prev[i1] == names[i1] && prev[i2] == names[i2]);
            }
        }
        lemma_link_index_map_distinct(prev);
        lemma_link_index_map(prev);
        let last = names.last();
        if link_index_map(prev).contains_key(last) {
            let i = link_index_map(prev)[last] as int;
            assert(prev[i] == names[i]);
            assert(names[i] != names[names.len() - 1]);
        }
        assert(link_index_map(names).dom() == link_index_map(prev).dom().insert(last));
        assert forall|i: int| 0 <= i < names.len() implies link_index_map(names)[#[trigger] names[i]] == i by {
            if i < names.len() - 1 {
                assert(prev[i] == names[i]);
                assert(names[i] != names[names.len() - 1]);
            }
        }
    }
}

/// When no two links of a parsed model share a name, the link lookup holds
/// one entry per link, and each link's name leads to that very link.
pub proof fn lemma_link_lookup_exact(m: ModelView)
    requires
        m.well_formed(),
        distinct_link_names(m.links),
    ensures
        m.link_name_to_idx.dom().finite(),
        m.link_name_to_idx.dom().len() == m.links.len(),
        forall|i: int| 0 <= i < m.links.len() ==> m.link_name_to_idx[#[trigger] m.links[i]] == i,
        forall|name: Seq<char>| #[trigger] m.link_name_to_idx.contains_key(name) <==> exists|i: int|
            0 <= i < m.links.len() && m.links[i] == name,
{
    lemma_link_index_map_distinct(m.links);
    lemma_link_index_map(m.links);
    assert forall|name: Seq<char>| #[trigger] m.link_name_to_idx.contains_key(name) <==> exists|i: int|
        0 <= i < m.links.len() && m.links[i] == name by {
        if m.link_name_to_idx.contains_key(name) {
            let i = m.link_name_to_idx[name] as int;
            assert(0 <= i < m.links.len() && m.links[i] == name);
        }
    }
}

proof fn lemma_joint_index_map(joints: Seq<JointView>)
    ensures
        forall|name: Seq<char>| #[trigger] joint_index_map(joints).contains_key(name) ==> exists|k: int|
            0 <= k < joints.len() && joints[k].name == name && joints[k].cmd_idx == Some(joint_index_map(joints)[name]),
        forall|k: int| 0 <= k < joints.len() && (#[trigger] joints[k]).cmd_idx is Some ==> joint_index_map(joints).contains_key(joints[k].name),
    decreases joints.len(),
{
    if joints.len() > 0 {
        let prev = joints.drop_last();
        lemma_joint_index_map(prev);
        let last = joints.last();
        assert forall|name: Seq<char>| #[trigger] joint_index_map(joints).contains_key(name) implies exists|k: int|
            0 <= k < joints.len() && joints[k].name == name && joints[k].cmd_idx == Some(joint_index_map(joints)[name]) by {
            if last.cmd_idx is Some && name == last.name {
                assert(joints[joints.len() - 1] == last);
            } else {
                assert(joint_index_map(prev).contains_key(name));
                let k = choose|k: int| 0 <= k < prev.len() && prev[k].name == name && prev[k].cmd_idx == Some(joint_index_map(prev)[name]);
                assert(joints[k] == prev[k]);
            }
        }
        assert forall|k: int| 0 <= k < joints.len() && (#[trigger] joints[k]).cmd_idx is Some implies joint_index_map(joints).contains_key(joints[k].name) by {
            if k < joints.len() - 1 {
                assert(joints[k] == prev[k]);
                assert(joint_index_map(prev).contains_key(prev[k].name));
            }
        }
    }
}

/// In a parsed model, a joint name resolves to the command slot of a movable
/// joint of that name, and every movable joint's name resolves.
pub proof fn lemma_joint_lookup_consistent(m: ModelView)
    requires
        m.well_formed(),
    ensures
        forall|name: Seq<char>| #[trigger] m.joint_name_to_idx.contains_key(name) ==> exists|k: int|
            0 <= k < m.joints.len() && m.joints[k].name == name && m.joints[k].joint_type != JointType::Fixed
                && m.joints[k].cmd_idx == Some(m.joint_name_to_idx[name]),
        forall|k: int| 0 <= k < m.joints.len() && (#[trigger] m.joints[k]).joint_type != JointType::Fixed
            ==> m.joint_name_to_idx.contains_key(m.joints[k].name),
{
    lemma_joint_index_map(m.joints);
    lemma_well_formed_slots(m);
    lemma_slots_bounded(m.joints);
    assert forall|name: Seq<char>| #[trigger] m.joint_name_to_idx.contains_key(name) implies exists|k: int|
        0 <= k < m.joints.len() && m.joints[k].name == name && m.joints[k].joint_type != JointType::Fixed
            && m.joints[k].cmd_idx == Some(m.joint_name_to_idx[name]) by {
        let k = choose|k: int| 0 <= k < m.joints.len() && m.joints[k].name == name && m.joints[k].cmd_idx == Some(joint_index_map(m.joints)[name]);
        assert(m.joints[k].cmd_idx == Some(m.joint_name_to_idx[name]));
    }
    assert forall|k: int| 0 <= k < m.joints.len() && (#[trigger] m.joints[k]).joint_type != JointType::Fixed
        implies m.joint_name_to_idx.contains_key(m.joints[k].name) by {
        assert(m.joints[k].cmd_idx is Some);
    }
}

/// No two joints share a name.
pub open spec fn distinct_joint_names(joints: Seq<JointView>) -> bool {
    forall|k1: int, k2: int| 0 <= k1 < k2 < joints.len() ==> #[trigger] joints[k1].name != #[trigger] joints[k2].name
}

proof fn lemma_joint_index_map_distinct(joints: Seq<JointView>)
    requires
        distinct_joint_names(joints),
    ensures
        joint_index_map(joints).dom().finite(),
        joint_index_map(joints).dom().len() == cmd_count(joints),
        forall|k: int| 0 <= k < joints.len() && (#[trigger] joints[k]).cmd_idx is Some
            ==> joint_index_map(joints)[joints[k].name] == joints[k].cmd_idx.unwrap(),
    decreases joints.len(),
{
    if joints.len() > 0 {
        let prev = joints.drop_last();
        let last = joints.last();
        assert(distinct_joint_names(prev)) by {
            assert forall|k1: int, k2: int| 0 <= k1 < k2 < prev.len() implies #[trigger] prev[k1].name != #[trigger] prev[k2].name by {
                assert(prev[k1] == joints[k1] && prev[k2] == joints[k2]);
            }
        }
        lemma_joint_index_map_distinct(prev);
        lemma_joint_index_map(prev);
        if last.cmd_idx is Some {
            if joint_index_map(prev).contains_key(last.name) {
                let k = choose|k: int| 0 <= k < prev.len() && prev[k].name == last.name && prev[k].cmd_idx == Some(joint_index_map(prev)[last.name]);
                assert(joints[k] == prev[k]);
                assert(joints[k].name != joints[joints.len() - 1].name);
            }
            assert(joint_index_map(joints).dom() == joint_index_map(prev).dom().insert(last.name));
        }
        assert forall|k: int| 0 <= k < joints.len() && (#[trigger] joints[k]).cmd_idx is Some
            implies joint_index_map(joints)[joints[k].name] == joints[k].cmd_idx.unwrap() by {
            if k < joints.len() - 1 {
                assert(prev[k] == joints[k]);
                assert(joints[k].name != joints[joints.len() - 1].name);
            }
        }
    }
}

proof fn lemma_cmd_count_is_actuated(s: Seq<JointView>)
    requires
        forall|k: int| 0 <= k < s.len() ==> ((#[trigger] s[k]).cmd_idx is Some <==> s[k].joint_type != JointType::Fixed),
    ensures
        cmd_count(s) == actuated_count(s),
    decreases s.len(),
{
    if s.len() > 0 {
        let prev = s.drop_last();
        assert forall|k: int| 0 <= k < prev.len() implies ((#[trigger] prev[k]).cmd_idx is Some <==> prev[k].joint_type != JointType::Fixed) by {
            assert(prev[k] == s[k]);
        }
        lemma_cmd_count_is_actuated(prev);
        assert(s[s.len() - 1] == s.last());
    }
}

/// When no two joints of a parsed model share a name, the joint lookup holds
/// exactly the movable joints, one entry each, and each movable joint's name
/// leads to its own command slot: the number of movable joints before it.
pub proof fn lemma_joint_lookup_exact(m: ModelView)
    requires
        m.well_formed(),
        distinct_joint_names(m.joints),
    ensures
        m.joint_name_to_idx.dom().finite(),
        m.joint_name_to_idx.dom().len() == m.num_actuated_joints,
        forall|k: int| 0 <= k < m.joints.len() && (#[trigger] m.joints[k]).joint_type != JointType::Fixed ==> {
            &&& m.joint_name_to_idx.contains_key(m.joints[k].name)
            &&& m.joint_name_to_idx[m.joints[k].name] == actuated_count(m.joints.take(k))
        },
        forall|name: Seq<char>| #[trigger] m.joint_name_to_idx.contains_key(name) <==> exists|k: int|
            0 <= k < m.joints.len() && m.joints[k].name == name && m.joints[k].joint_type != JointType::Fixed,
{
    lemma_well_formed_slots(m);
    lemma_slots_bounded(m.joints);
    lemma_joint_index_map(m.joints);
    lemma_joint_index_map_distinct(m.joints);
    lemma_cmd_count_is_actuated(m.joints);
    assert forall|k: int| 0 <= k < m.joints.len() && (#[trigger] m.joints[k]).joint_type != JointType::Fixed implies {
        &&& m.joint_name_to_idx.contains_key(m.joints[k].name)
        &&& m.joint_name_to_idx[m.joints[k].name] == actuated_count(m.joints.take(k))
    } by {
        assert(m.joints[k].cmd_idx is Some);
        lemma_actuated_count_bound_take(m.joints, k);
    }
    assert forall|name: Seq<char>| #[trigger] m.joint_name_to_idx.contains_key(name) <==> exists|k: int|
        0 <= k < m.joints.len() && m.joints[k].name == name && m.joints[k].joint_type != JointType::Fixed by {
        if m.joint_name_to_idx.contains_key(name) {
            let k = choose|k: int| 0 <= k < m.joints.len() && m.joints[k].name == name && m.joints[k].cmd_idx == Some(joint_index_map(m.joints)[name]);
            assert(m.joints[k].joint_type != JointType::Fixed);
        } else {
            if exists|k: int| 0 <= k < m.joints.len() && m.joints[k].name == name && m.joints[k].joint_type != JointType::Fixed {
                let k = choose|k: int| 0 <= k < m.joints.len() && m.joints[k].name == name && m.joints[k].joint_type != JointType::Fixed;
                assert(m.joints[k].cmd_idx is Some);
            }
        }
    }
}

proof fn lemma_actuated_count_step(s: Seq<JointView>, k: int)
    requires
        0 <= k < s.len(),
    ensures
        actuated_count(s.take(k + 1)) == actuated_count(s.take(k)) + if s[k].joint_type == JointType::Fixed { 0nat } else { 1nat },
{
    assert(s.take(k + 1).drop_last() =~= s.take(k));
}

proof fn lemma_actuated_count_mono(s: Seq<JointView>, a: int, b: int)
    requires
        0 <= a <= b <= s.len(),
    ensures
        actuated_count(s.take(a)) <= actuated_count(s.take(b)),
    decreases b - a,
{
    if a < b {
        lemma_actuated_count_mono(s, a, b - 1);
        lemma_actuated_count_step(s, b - 1);
    }
}

/// Some joint before position `n` is movable with `c` movable joints before it.
proof fn lemma_actuated_count_hits(s: Seq<JointView>, n: int, c: nat)
    requires
        0 <= n <= s.len(),
        c < actuated_count(s.take(n)),
    ensures
        exists|k: int| 0 <= k < n && s[k].joint_type != JointType::Fixed && actuated_count(s.take(k)) == c,
    decreases n,
{
    lemma_actuated_count_step(s, n - 1);
    if actuated_count(s.take(n - 1)) == c {
        assert(s[n - 1].joint_type != JointType::Fixed);
    } else {
        lemma_actuated_count_hits(s, n - 1, c);
        let k = choose|k: int| 0 <= k < n - 1 && s[k].joint_type != JointType::Fixed && actuated_count(s.take(k)) == c;
        assert(0 <= k < n);
    }
}

/// Some joint holds command slot `c`.
pub open spec fn slot_is_held(joints: Seq<JointView>, c: usize) -> bool {
    exists|k: int| 0 <= k < joints.len() && joints[k].cmd_idx == Some(c)
}

proof fn lemma_well_formed_slots(m: ModelView)
    requires
        m.well_formed(),
    ensures
        cmd_slots_in_order(m.joints),
        m.joints.len() <= usize::MAX,
        m.num_actuated_joints == actuated_count(m.joints),
{
    reveal(joints_well_placed);
}

/// Under in-order slots, a joint holds a slot exactly when it is movable,
/// and every slot is below the number of movable joints.
proof fn lemma_slots_bounded(s: Seq<JointView>)
    requires
        s.len() <= usize::MAX,
        cmd_slots_in_order(s),
    ensures
        forall|k: int| 0 <= k < s.len() ==> ((#[trigger] s[k]).cmd_idx is Some <==> s[k].joint_type != JointType::Fixed),
        forall|k: int| 0 <= k < s.len() && (#[trigger] s[k]).cmd_idx is Some ==> s[k].cmd_idx.unwrap() < actuated_count(s),
{
    assert(s.take(s.len() as int) =~= s);
    assert forall|k: int| 0 <= k < s.len() && (#[trigger] s[k]).cmd_idx is Some implies s[k].cmd_idx.unwrap() < actuated_count(s) by {
        lemma_actuated_count_step(s, k);
        lemma_actuated_count_mono(s, k + 1, s.len() as int);
        lemma_actuated_count_bound_take(s, k);
    }
}

/// Under in-order slots, no two joints hold the same slot.
proof fn lemma_slots_distinct(s: Seq<JointView>)
    requires
        s.len() <= usize::MAX,
        cmd_slots_in_order(s),
    ensures
        forall|k1: int, k2: int| 0 <= k1 < k2 < s.len() && (#[trigger] s[k1]).cmd_idx is Some
            ==> s[k1].cmd_idx != (#[trigger] s[k2]).cmd_idx,
{
    assert forall|k1: int, k2: int| 0 <= k1 < k2 < s.len() && (#[trigger] s[k1]).cmd_idx is Some implies s[k1].cmd_idx != (#[trigger] s[k2]).cmd_idx by {
        lemma_actuated_count_step(s, k1);
        lemma_actuated_count_mono(s, k1 + 1, k2);
        lemma_actuated_count_bound_take(s, k1);
        lemma_actuated_count_bound_take(s, k2);
    }
}

/// Under in-order slots, every slot below the number of movable joints is held.
proof fn lemma_slots_all_held(s: Seq<JointView>)
    requires
        s.len() <= usize::MAX,
        cmd_slots_in_order(s),
    ensures
        forall|c: usize| c < actuated_count(s) ==> #[trigger] slot_is_held(s, c),
{
    assert(s.take(s.len() as int) =~= s);
    assert forall|c: usize| c < actuated_count(s) implies #[trigger] slot_is_held(s, c) by {
        lemma_actuated_count_hits(s, s.len() as int, c as nat);
        let k = choose|k: int| 0 <= k < s.len() && s[k].joint_type != JointType::Fixed && actuated_count(s.take(k)) == c;
        assert(s[k].cmd_idx == Some(c));
    }
}

/// The command vector of a parsed model: its movable joints hold the slots
/// `0 .. num_actuated_joints`, one slot each and each slot once; fixed joints
/// hold none.
pub proof fn lemma_command_slots(m: ModelView)
    requires
        m.well_formed(),
    ensures
        forall|k: int| 0 <= k < m.joints.len() ==> ((#[trigger] m.joints[k]).cmd_idx is Some <==> m.joints[k].joint_type != JointType::Fixed),
        forall|k: int| 0 <= k < m.joints.len() && (#[trigger] m.joints[k]).cmd_idx is Some ==> m.joints[k].cmd_idx.unwrap() < m.num_actuated_joints,
        forall|k1: int, k2: int| 0 <= k1 < k2 < m.joints.len() && (#[trigger] m.joints[k1]).cmd_idx is Some
            ==> m.joints[k1].cmd_idx != (#[trigger] m.joints[k2]).cmd_idx,
        forall|c: usize| c < m.num_actuated_joints ==> #[trigger] slot_is_held(m.joints, c),
{
    lemma_well_formed_slots(m);
    lemma_slots_bounded(m.joints);
    lemma_slots_distinct(m.joints);
    lemma_slots_all_held(m.joints);
}

/// No two joints name the same child link.
pub open spec fn distinct_children(joints: Seq<JointView>) -> bool {
    forall|j1: int, j2: int| 0 <= j1 < j2 < joints.len() ==> #[trigger] joints[j1].child != #[trigger] joints[j2].child
}

/// When no two joint elements of a document name the same child link, the
/// parsed model holds each joint element exactly once: its joints are the
/// joint elements in some order, each placed in the tree, and joints that
/// share a parent link come in the order of their elements in the document.
pub proof fn lemma_each_joint_placed_once(nodes: Seq<XmlNodeView>)
    requires
        nodes.len() <= usize::MAX,
    ensures
        match (spec_collect_from(nodes, 0), spec_parse_urdf(nodes)) {
            (Ok((links, joints)), Ok(m)) => distinct_children(joints) ==> exists|perm: Seq<usize>| {
                &&& is_permutation(perm, joints.len())
                &&& forall|k: int| 0 <= k < m.joints.len() ==> same_joint(#[trigger] m.joints[k], joints[perm[k] as int])
                &&& forall|k1: int, k2: int| 0 <= k1 < k2 < m.joints.len()
                    && (#[trigger] m.joints[k1]).parent_link_idx == (#[trigger] m.joints[k2]).parent_link_idx
                    ==> perm[k1] < perm[k2]
            },
            _ => true,
        },
{
    lemma_collect_len(nodes, 0);
    if let Ok((links, joints)) = spec_collect_from(nodes, 0) {
        if distinct_children(joints) {
            lemma_resolve_each_joint_once(links, joints);
        }
    }
}

/// The joint elements of a document as read, in document order (none where
/// reading the document fails).
pub open spec fn declared_joints(nodes: Seq<XmlNodeView>) -> Seq<JointView> {
    match spec_collect_from(nodes, 0) {
        Ok((_, js)) => js,
        Err(_) => seq![],
    }
}

/// Every joint of a parsed model comes from a joint element of the document:
/// it keeps that element's name, type, axis, origin and limits, and its link
/// indices lead to links with the parent and child names the element gives.
pub proof fn lemma_model_joints_declared(nodes: Seq<XmlNodeView>)
    requires
        nodes.len() <= usize::MAX,
    ensures
        spec_parse_urdf(nodes) matches Ok(m) ==> forall|k: int| 0 <= k < m.joints.len() ==> exists|i: int| {
            &&& 0 <= i < declared_joints(nodes).len()
            &&& same_joint(#[trigger] m.joints[k], declared_joints(nodes)[i])
            &&& m.links[m.joints[k].parent_link_idx as int] == declared_joints(nodes)[i].parent
            &&& m.links[m.joints[k].child_link_idx as int] == declared_joints(nodes)[i].child
        },
{
    lemma_collect_len(nodes, 0);
    lemma_parse_urdf_well_formed(nodes);
    if let Ok((links, joints)) = spec_collect_from(nodes, 0) {
        lemma_resolve_from_parsed(links, joints);
        if let Ok(m) = spec_parse_urdf(nodes) {
            reveal(joints_well_placed);
            assert forall|k: int| 0 <= k < m.joints.len() implies exists|i: int| {
                &&& 0 <= i < declared_joints(nodes).len()
                &&& same_joint(#[trigger] m.joints[k], declared_joints(nodes)[i])
                &&& m.links[m.joints[k].parent_link_idx as int] == declared_joints(nodes)[i].parent
                &&& m.links[m.joints[k].child_link_idx as int] == declared_joints(nodes)[i].child
            } by {
                assert(spec_resolve(links, joints) == Ok::<Seq<JointView>, UrdfParseErrorView>(m.joints));
                let i = choose|i: int| 0 <= i < joints.len() && same_joint(#[trigger] m.joints[k], joints[i]);
                assert(declared_joints(nodes) == joints);
                assert(m.well_formed());
                assert(m.joints[k].parent == joints[i].parent);
                assert(m.joints[k].child == joints[i].child);
                assert(m.links[m.joints[k].parent_link_idx as int] == m.joints[k].parent);
            }
        }
    }
}

/// Declaring the same joints in another order changes nothing of how the
/// tree joins links: where any two joint elements of the same name in two
/// documents name the same parent and child links, a joint of one parsed
/// model and a joint of the same name in the other join links of the same
/// names.
pub proof fn lemma_file_order_independent(nodes1: Seq<XmlNodeView>, nodes2: Seq<XmlNodeView>, k1: int, k2: int)
    requires
        nodes1.len() <= usize::MAX,
        nodes2.len() <= usize::MAX,
        forall|i1: int, i2: int|
            0 <= i1 < declared_joints(nodes1).len() && 0 <= i2 < declared_joints(nodes2).len()
                && (#[trigger] declared_joints(nodes1)[i1]).name == (#[trigger] declared_joints(nodes2)[i2]).name
                ==> declared_joints(nodes1)[i1].parent == declared_joints(nodes2)[i2].parent
                && declared_joints(nodes1)[i1].child == declared_joints(nodes2)[i2].child,
    ensures
        match (spec_parse_urdf(nodes1), spec_parse_urdf(nodes2)) {
            (Ok(m1), Ok(m2)) => 0 <= k1 < m1.joints.len() && 0 <= k2 < m2.joints.len() && m1.joints[k1].name == m2.joints[k2].name ==> {
                &&& m1.links[m1.joints[k1].parent_link_idx as int] == m2.links[m2.joints[k2].parent_link_idx as int]
                &&& m1.links[m1.joints[k1].child_link_idx as int] == m2.links[m2.joints[k2].child_link_idx as int]
            },
            _ => true,
        },
{
    lemma_model_joints_declared(nodes1);
    lemma_model_joints_declared(nodes2);
    if let (Ok(m1), Ok(m2)) = (spec_parse_urdf(nodes1), spec_parse_urdf(nodes2)) {
        if 0 <= k1 < m1.joints.len() && 0 <= k2 < m2.joints.len() && m1.joints[k1].name == m2.joints[k2].name {
            let d1 = declared_joints(nodes1);
            let d2 = declared_joints(nodes2);
            let i1 = choose|i: int| {
                &&& 0 <= i < d1.len()
                &&& same_joint(#[trigger] m1.joints[k1], d1[i])
                &&& m1.links[m1.joints[k1].parent_link_idx as int] == d1[i].parent
                &&& m1.links[m1.joints[k1].child_link_idx as int] == d1[i].child
            };
            let i2 = choose|i: int| {
                &&& 0 <= i < d2.len()
                &&& same_joint(#[trigger] m2.joints[k2], d2[i])
                &&& m2.links[m2.joints[k2].parent_link_idx as int] == d2[i].parent
                &&& m2.links[m2.joints[k2].child_link_idx as int] == d2[i].child
            };
            assert(d1[i1].name == d2[i2].name);
        }
    }
}

/// The joints of a parsed model are in depth-first pre-order: after each
/// joint come, as one consecutive block, the joints of the walk below its
/// child link (over the joint elements of the document), each hanging from
/// that link or from the child link of an earlier joint of the block.
pub proof fn lemma_model_subtrees_consecutive(nodes: Seq<XmlNodeView>)
    requires
        nodes.len() <= usize::MAX,
    ensures
        spec_parse_urdf(nodes) matches Ok(m) ==> forall|k: int| 0 <= k < m.joints.len()
            ==> #[trigger] joints_below_follow(JointGraph { links: m.links, joints: declared_joints(nodes) }, m.joints, k),
{
    lemma_collect_len(nodes, 0);
    if let Ok((links, joints)) = spec_collect_from(nodes, 0) {
        lemma_resolve_subtrees_consecutive(links, joints);
    }
}

/// When no two joint elements of a document name the same child link, each
/// subtree of the parsed model is whole: between a joint and any joint that
/// hangs from its child link, every joint hangs below it. So the joints
/// below any link occupy consecutive positions.
pub proof fn lemma_model_subtrees_whole(nodes: Seq<XmlNodeView>)
    requires
        nodes.len() <= usize::MAX,
    ensures
        spec_parse_urdf(nodes) matches Ok(m) ==> (distinct_children(declared_joints(nodes)) ==> subtrees_whole(m.joints)),
{
    lemma_collect_len(nodes, 0);
    if let Ok((links, joints)) = spec_collect_from(nodes, 0) {
        if distinct_children(joints) {
            lemma_resolve_subtrees_whole(links, joints);
        }
    }
}

/// When the joint elements of a document have distinct names and distinct
/// child links, so do the joints of the parsed model: the exact lookup of
/// `lemma_joint_lookup_exact` then holds for it.
pub proof fn lemma_distinct_joint_names_kept(nodes: Seq<XmlNodeView>)
    requires
        nodes.len() <= usize::MAX,
    ensures
        spec_parse_urdf(nodes) matches Ok(m) ==> (distinct_children(declared_joints(nodes))
            && distinct_joint_names(declared_joints(nodes)) ==> distinct_joint_names(m.joints)),
{
    lemma_each_joint_placed_once(nodes);
    lemma_collect_len(nodes, 0);
    if let (Ok((links, joints)), Ok(m)) = (spec_collect_from(nodes, 0), spec_parse_urdf(nodes)) {
        let d = declared_joints(nodes);
        assert(d == joints);
        lemma_resolve_from_parsed(links, joints);
        if distinct_children(d) && distinct_joint_names(d) {
            let perm = choose|perm: Seq<usize>| {
                &&& is_permutation(perm, d.len())
                &&& forall|k: int| 0 <= k < m.joints.len() ==> same_joint(#[trigger] m.joints[k], d[perm[k] as int])
                &&& forall|k1: int, k2: int| 0 <= k1 < k2 < m.joints.len()
                    && (#[trigger] m.joints[k1]).parent_link_idx == (#[trigger] m.joints[k2]).parent_link_idx
                    ==> perm[k1] < perm[k2]
            };
            assert forall|k1: int, k2: int| 0 <= k1 < k2 < m.joints.len() implies #[trigger] m.joints[k1].name != #[trigger] m.joints[k2].name by {
                assert(same_joint(m.joints[k1], d[perm[k1] as int]));
                assert(same_joint(m.joints[k2], d[perm[k2] as int]));
                assert(perm[k1] != perm[k2]);
                if perm[k1] < perm[k2] {
                    assert(d[perm[k1] as int].name != d[perm[k2] as int].name);
                } else {
                    assert(d[perm[k2] as int].name != d[perm[k1] as int].name);
                }
            }
        }
    }
}

/// `actuated_count` of a prefix fits in `usize` when the sequence length does.
proof fn lemma_actuated_count_bound_take(s: Seq<JointView>, k: int)
    requires
        0 <= k <= s.len(),
        s.len() <= usize::MAX,
    ensures
        actuated_count(s.take(k)) <= k,
{
    crate::tree::lemma_actuated_count_bound(s.take(k));
}

} // verus!

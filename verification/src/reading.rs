use vstd::prelude::*;

use crate::error::UrdfParseErrorView;
use crate::parser::{spec_collect_from, spec_parse_joint, spec_parse_link, spec_parse_urdf, Vec3View};
use crate::tree::{spec_resolve, same_joint};
use crate::laws::{declared_joints, lemma_model_joints_declared};
use crate::types::{JointLimitsView, JointType, JointView};
use crate::utils::whitespace_words;
use crate::xml::{
    attr_lookup, first_child_tagged, first_top_element, has_child_tagged, has_top_element, lemma_child_with_tag,
    lemma_root_element, XmlNodeView,
};

verus! {

// What reading a document takes from which element and attribute, stated
// over the document's nodes themselves.

/// The attribute `text` is there and holds exactly three whitespace-separated
/// words, which are those of `v` in order.
pub open spec fn holds_words(text: Option<Seq<char>>, v: Vec3View) -> bool {
    text matches Some(t) && whitespace_words(t).len() == 3 && v == (
        whitespace_words(t)[0],
        whitespace_words(t)[1],
        whitespace_words(t)[2],
    )
}

/// The word that names a joint type in a URDF `type` attribute.
pub open spec fn type_word(jt: JointType) -> Seq<char> {
    match jt {
        JointType::Revolute => "revolute"@,
        JointType::Prismatic => "prismatic"@,
        JointType::Fixed => "fixed"@,
        JointType::Continuous => "continuous"@,
    }
}

/// The value of attribute `attr` of node `n`.
pub open spec fn attr_of(nodes: Seq<XmlNodeView>, n: int, attr: Seq<char>) -> Option<Seq<char>> {
    attr_lookup(nodes[n].attributes, attr)
}

proof fn lemma_reading_never_misses_robot_name(nodes: Seq<XmlNodeView>, start: int)
    requires
        0 <= start <= nodes.len(),
    ensures
        spec_collect_from(nodes, start) != Err::<(Seq<Seq<char>>, Seq<JointView>), UrdfParseErrorView>(
            UrdfParseErrorView::MissingAttributeRobotName,
        ),
    decreases nodes.len() - start,
{
    if start < nodes.len() {
        lemma_reading_never_misses_robot_name(nodes, start + 1);
    }
}

/// The robot's name is the `name` attribute of the document's root element:
/// the first element at the top of the document, whatever comments or
/// processing instructions come before it. Without that attribute, or
/// without a root element, the document is refused for want of a robot name,
/// and for no other reason is it refused so.
pub proof fn lemma_robot_name_from_root_element(nodes: Seq<XmlNodeView>)
    requires
        nodes.len() <= usize::MAX,
    ensures
        !has_top_element(nodes) ==> spec_parse_urdf(nodes) == Err::<crate::types::ModelView, UrdfParseErrorView>(
            UrdfParseErrorView::MissingAttributeRobotName,
        ),
        forall|r: int| #[trigger] first_top_element(nodes, r) ==> {
            &&& (attr_of(nodes, r, "name"@) is None <==> spec_parse_urdf(nodes) == Err::<crate::types::ModelView, UrdfParseErrorView>(
                UrdfParseErrorView::MissingAttributeRobotName,
            ))
            &&& (spec_parse_urdf(nodes) matches Ok(m) ==> attr_of(nodes, r, "name"@) == Some(m.name))
        },
{
    lemma_root_element(nodes);
    lemma_reading_never_misses_robot_name(nodes, 0);
    if let Ok((links, joints)) = spec_collect_from(nodes, 0) {
        assert(spec_resolve(links, joints) != Err::<Seq<JointView>, UrdfParseErrorView>(
            UrdfParseErrorView::MissingAttributeRobotName,
        ));
    }
}

/// A link is named by its element's `name` attribute.
pub proof fn lemma_link_read_as_written(nodes: Seq<XmlNodeView>, i: usize)
    requires
        i < nodes.len(),
    ensures
        spec_parse_link(nodes, i) matches Ok(name) ==> attr_of(nodes, i as int, "name"@) == Some(name),
        spec_parse_link(nodes, i) is Err <==> attr_of(nodes, i as int, "name"@) is None,
{
}

/// A joint takes its name and type from its element's attributes, and its
/// parent and child links from the `link` attribute of the element's first
/// `<parent>` and `<child>` tags.
pub proof fn lemma_joint_header_as_written(nodes: Seq<XmlNodeView>, i: usize)
    requires
        nodes.len() <= usize::MAX,
        i < nodes.len(),
    ensures
        spec_parse_joint(nodes, i) matches Ok(j) ==> {
            &&& attr_of(nodes, i as int, "name"@) == Some(j.name)
            &&& attr_of(nodes, i as int, "type"@) == Some(type_word(j.joint_type))
            &&& has_child_tagged(nodes, i, "parent"@)
            &&& has_child_tagged(nodes, i, "child"@)
            &&& forall|p: int| #[trigger] first_child_tagged(nodes, i, "parent"@, p) ==> attr_of(nodes, p, "link"@) == Some(j.parent)
            &&& forall|c: int| #[trigger] first_child_tagged(nodes, i, "child"@, c) ==> attr_of(nodes, c, "link"@) == Some(j.child)
            &&& j.parent_link_idx == 0 && j.child_link_idx == 0 && j.cmd_idx is None
        },
{
    lemma_child_with_tag(nodes, i, "parent"@);
    lemma_child_with_tag(nodes, i, "child"@);
}

/// A joint's origin is written in the first `<origin>` tag of its element:
/// `origin_xyz` is the three words of its `xyz` attribute and `origin_rpy`
/// the three words of its `rpy` attribute (roll, pitch, yaw), each in the
/// order written. Without an `<origin>` tag both are zero.
pub proof fn lemma_joint_origin_as_written(nodes: Seq<XmlNodeView>, i: usize)
    requires
        nodes.len() <= usize::MAX,
        i < nodes.len(),
    ensures
        spec_parse_joint(nodes, i) matches Ok(j) ==> {
            &&& forall|o: int| #[trigger] first_child_tagged(nodes, i, "origin"@, o) ==> {
                &&& holds_words(attr_of(nodes, o, "xyz"@), j.origin_xyz)
                &&& holds_words(attr_of(nodes, o, "rpy"@), j.origin_rpy)
            }
            &&& !has_child_tagged(nodes, i, "origin"@) ==> {
                &&& j.origin_xyz == ("0"@, "0"@, "0"@)
                &&& j.origin_rpy == ("0"@, "0"@, "0"@)
            }
        },
{
    lemma_child_with_tag(nodes, i, "parent"@);
    lemma_child_with_tag(nodes, i, "child"@);
    lemma_child_with_tag(nodes, i, "origin"@);
}

/// A movable joint's axis is written in the first `<axis>` tag of its
/// element: the three words of its `xyz` attribute, in order; (1, 0, 0) only
/// where the element has no `<axis>` tag. Revolute and continuous joints
/// hold it as their rotation axis, prismatic joints as their translation
/// axis; fixed joints hold no axis.
pub proof fn lemma_joint_axis_as_written(nodes: Seq<XmlNodeView>, i: usize)
    requires
        nodes.len() <= usize::MAX,
        i < nodes.len(),
    ensures
        spec_parse_joint(nodes, i) matches Ok(j) ==> {
            &&& (j.joint_type == JointType::Fixed ==> j.rot_axis is None && j.lin_axis is None)
            &&& (j.joint_type == JointType::Prismatic ==> j.rot_axis is None && j.lin_axis is Some)
            &&& (j.joint_type == JointType::Revolute || j.joint_type == JointType::Continuous ==> j.rot_axis is Some
                && j.lin_axis is None)
            &&& j.joint_type != JointType::Fixed ==> {
                let axis = if j.joint_type == JointType::Prismatic { j.lin_axis->0 } else { j.rot_axis->0 };
                &&& forall|a: int| #[trigger] first_child_tagged(nodes, i, "axis"@, a) ==> holds_words(attr_of(nodes, a, "xyz"@), axis)
                &&& !has_child_tagged(nodes, i, "axis"@) ==> axis == ("1"@, "0"@, "0"@)
            }
        },
{
    lemma_child_with_tag(nodes, i, "parent"@);
    lemma_child_with_tag(nodes, i, "child"@);
    lemma_child_with_tag(nodes, i, "axis"@);
}

/// Revolute and prismatic joints take their range from the `lower` and
/// `upper` attributes of the first `<limit>` tag of their element;
/// continuous joints turn fully round and fixed joints have no range.
pub proof fn lemma_joint_limits_as_written(nodes: Seq<XmlNodeView>, i: usize)
    requires
        nodes.len() <= usize::MAX,
        i < nodes.len(),
    ensures
        spec_parse_joint(nodes, i) matches Ok(j) ==> {
            &&& (j.joint_type == JointType::Revolute || j.joint_type == JointType::Prismatic ==> {
                &&& j.limits is Bounded
                &&& has_child_tagged(nodes, i, "limit"@)
                &&& forall|l: int| #[trigger] first_child_tagged(nodes, i, "limit"@, l) ==> {
                    &&& attr_of(nodes, l, "lower"@) == Some(j.limits->lower)
                    &&& attr_of(nodes, l, "upper"@) == Some(j.limits->upper)
                }
            })
            &&& (j.joint_type == JointType::Continuous ==> j.limits == JointLimitsView::FullTurn)
            &&& (j.joint_type == JointType::Fixed ==> j.limits == JointLimitsView::Unbounded)
        },
{
    lemma_child_with_tag(nodes, i, "parent"@);
    lemma_child_with_tag(nodes, i, "child"@);
    lemma_child_with_tag(nodes, i, "limit"@);
}

/// Joint `j` is what the `<joint>` element at `i` reads as.
#[verifier::opaque]
pub open spec fn read_from_element(nodes: Seq<XmlNodeView>, i: int, j: JointView) -> bool {
    &&& nodes[i].tag == "joint"@
    &&& spec_parse_joint(nodes, i as usize) == Ok::<JointView, UrdfParseErrorView>(j)
}

/// `idx` lists, in increasing document order, the `<joint>` elements at or
/// after `start` that the joints `js` are read from, one for each.
pub open spec fn element_positions(nodes: Seq<XmlNodeView>, js: Seq<JointView>, start: int, idx: Seq<int>) -> bool {
    &&& idx.len() == js.len()
    &&& forall|k: int| 0 <= k < idx.len() ==> start <= #[trigger] idx[k] < nodes.len() && read_from_element(nodes, idx[k], js[k])
    &&& forall|a: int, b: int| 0 <= a < b < idx.len() ==> #[trigger] idx[a] < #[trigger] idx[b]
}

/// The joints that reading a document yields are those read from its
/// `<joint>` elements, one element each, in document order.
pub proof fn lemma_declared_joints_from_elements(nodes: Seq<XmlNodeView>, start: int)
    requires
        0 <= start <= nodes.len(),
        nodes.len() <= usize::MAX,
    ensures
        spec_collect_from(nodes, start) matches Ok((ls, js)) ==> exists|idx: Seq<int>| #[trigger] element_positions(nodes, js, start, idx),
    decreases nodes.len() - start,
{
    if start < nodes.len() {
        lemma_declared_joints_from_elements(nodes, start + 1);
        lemma_collect_step(nodes, start);
        assert(spec_collect_from(nodes, start) matches Ok((ls, js)) ==> exists|idx: Seq<int>| #[trigger] element_positions(nodes, js, start, idx));
    } else {
        if let Ok((ls, js)) = spec_collect_from(nodes, start) {
            assert(js =~= Seq::<JointView>::empty());
            assert(element_positions(nodes, js, start, Seq::<int>::empty()));
        }
    }
}

/// One step of reading: the element at `start` adds at most one joint, read
/// from that element, in front of the joints read after it.
#[verifier::spinoff_prover]
proof fn lemma_collect_step(nodes: Seq<XmlNodeView>, start: int)
    requires
        0 <= start < nodes.len(),
        nodes.len() <= usize::MAX,
        spec_collect_from(nodes, start + 1) matches Ok((ls2, js2)) ==> exists|idx: Seq<int>| #[trigger] element_positions(nodes, js2, start + 1, idx),
    ensures
        spec_collect_from(nodes, start) matches Ok((ls, js)) ==> exists|idx: Seq<int>| #[trigger] element_positions(nodes, js, start, idx),
{
    if let Ok((ls, js)) = spec_collect_from(nodes, start) {
        let next = spec_collect_from(nodes, start + 1);
        assert(next is Ok);
        let js2 = next->Ok_0.1;
        let idx2 = choose|idx: Seq<int>| #[trigger] element_positions(nodes, js2, start + 1, idx);
        reveal(read_from_element);
        if nodes[start].tag == "joint"@ && nodes[start].tag != "link"@ {
            let j0 = spec_parse_joint(nodes, start as usize)->Ok_0;
            assert(js == seq![j0] + js2);
            let idx = seq![start] + idx2;
            assert forall|k: int| 0 <= k < idx.len() implies start <= #[trigger] idx[k] < nodes.len() && read_from_element(nodes, idx[k], js[k]) by {
                if k > 0 {
                    assert(idx[k] == idx2[k - 1]);
                    assert(js[k] == js2[k - 1]);
                }
            }
            assert forall|a: int, b: int| 0 <= a < b < idx.len() implies #[trigger] idx[a] < #[trigger] idx[b] by {
                assert(idx[b] == idx2[b - 1]);
                if a > 0 {
                    assert(idx[a] == idx2[a - 1]);
                } else {
                    assert(start + 1 <= idx2[b - 1]);
                }
            }
            assert(element_positions(nodes, js, start, idx));
        } else {
            assert(js == js2);
            assert(element_positions(nodes, js, start, idx2));
        }
    }
}

/// Every joint of a parsed model is the reading of one `<joint>` element of
/// the document, placed in the tree: it keeps that reading's name, type,
/// links, origin, axis and range, so the laws above on reading one joint
/// element hold of the model's joints.
pub proof fn lemma_model_joints_read_from_elements(nodes: Seq<XmlNodeView>)
    requires
        nodes.len() <= usize::MAX,
    ensures
        spec_parse_urdf(nodes) matches Ok(m) ==> forall|k: int| #![trigger m.joints[k]] 0 <= k < m.joints.len() ==> exists|e: int, j: JointView|
            0 <= e < nodes.len() && #[trigger] read_from_element(nodes, e, j) && same_joint(m.joints[k], j),
{
    lemma_model_joints_declared(nodes);
    lemma_declared_joints_from_elements(nodes, 0);
    if let Ok(m) = spec_parse_urdf(nodes) {
        let js = declared_joints(nodes);
        let idx = choose|idx: Seq<int>| #[trigger] element_positions(nodes, js, 0, idx);
        assert forall|k: int| #![trigger m.joints[k]] 0 <= k < m.joints.len() implies exists|e: int, j: JointView|
            0 <= e < nodes.len() && #[trigger] read_from_element(nodes, e, j) && same_joint(m.joints[k], j) by {
            let i = choose|i: int| {
                &&& 0 <= i < declared_joints(nodes).len()
                &&& same_joint(#[trigger] m.joints[k], declared_joints(nodes)[i])
                &&& m.links[m.joints[k].parent_link_idx as int] == declared_joints(nodes)[i].parent
                &&& m.links[m.joints[k].child_link_idx as int] == declared_joints(nodes)[i].child
            };
            let e = idx[i];
            assert(read_from_element(nodes, e, js[i]) && same_joint(m.joints[k], js[i]));
        }
    }
}

} // verus!

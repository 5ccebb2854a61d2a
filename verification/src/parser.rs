use vstd::prelude::*;

use crate::error::{NumberField, UrdfParseError, UrdfParseErrorView};
use crate::types::{
    cmd_count, joint_index_map, joints_view, link_index_map, links_view, spec_joint_type,
    text_is, GalawModel, Joint, JointLimits, JointLimitsView, JointType, JointView, Link, ModelView,
    Vec3Text,
};
use crate::tree::{lemma_resolve_well_placed, resolve_joint_order, spec_resolve};
use crate::utils::{parse_vec3_str, spec_parse_vec3};
use crate::xml::{
    attr_lookup, child_with_tag, find_child_with_tag, find_root_element, nodes_view,
    parse_xml_document, root_element, xml_document, XmlNode, XmlNodeView,
};

verus! {

pub type Vec3View = (Seq<char>, Seq<char>, Seq<char>);

// ----- what each helper reads -----

/// The zero vector, as URDF writes it.
pub open spec fn zero_vec3() -> Vec3View {
    ("0"@, "0"@, "0"@)
}

/// The default joint axis (1, 0, 0), as URDF writes it.
pub open spec fn default_axis() -> Vec3View {
    ("1"@, "0"@, "0"@)
}

/// The `xyz` axis of the joint element at `i`; (1, 0, 0) where the joint has
/// no `<axis>` tag.
pub open spec fn spec_read_axis(nodes: Seq<XmlNodeView>, i: usize, joint: Seq<char>) -> Result<Vec3View, UrdfParseErrorView> {
    match child_with_tag(nodes, i, "axis"@) {
        None => Ok(default_axis()),
        Some(a) => match attr_lookup(nodes[a as int].attributes, "xyz"@) {
            None => Err(UrdfParseErrorView::MissingAttributeJointAxisXyz(joint)),
            Some(text) => match spec_parse_vec3(text) {
                None => Err(UrdfParseErrorView::InvalidVec3 { joint, field: NumberField::AxisXyz, value: text }),
                Some(v) => Ok(v),
            },
        },
    }
}

/// The `lower` and `upper` attributes of the `<limit>` tag of the joint element at `i`.
pub open spec fn spec_read_joint_limits(nodes: Seq<XmlNodeView>, i: usize, joint: Seq<char>) -> Result<(Seq<char>, Seq<char>), UrdfParseErrorView> {
    match child_with_tag(nodes, i, "limit"@) {
        None => Err(UrdfParseErrorView::MissingTagJointLimit(joint)),
        Some(l) => match attr_lookup(nodes[l as int].attributes, "lower"@) {
            None => Err(UrdfParseErrorView::MissingAttributeJointLimitLower(joint)),
            Some(lower) => match attr_lookup(nodes[l as int].attributes, "upper"@) {
                None => Err(UrdfParseErrorView::MissingAttributeJointLimitUpper(joint)),
                Some(upper) => Ok((lower, upper)),
            },
        },
    }
}

/// The name of the link element at `i`.
pub open spec fn spec_parse_link(nodes: Seq<XmlNodeView>, i: usize) -> Result<Seq<char>, UrdfParseErrorView> {
    match attr_lookup(nodes[i as int].attributes, "name"@) {
        None => Err(UrdfParseErrorView::MissingAttributeLinkName),
        Some(name) => Ok(name),
    }
}

/// Name, type, parent link and child link of the joint element at `i`.
pub open spec fn spec_joint_header(nodes: Seq<XmlNodeView>, i: usize) -> Result<(Seq<char>, JointType, Seq<char>, Seq<char>), UrdfParseErrorView> {
    match attr_lookup(nodes[i as int].attributes, "name"@) {
        None => Err(UrdfParseErrorView::MissingAttributeJointName),
        Some(name) => match attr_lookup(nodes[i as int].attributes, "type"@) {
            None => Err(UrdfParseErrorView::MissingAttributeJointType(name)),
            Some(ty) => match spec_joint_type(ty) {
                None => Err(UrdfParseErrorView::UnknownJointType { joint: name, found: ty }),
                Some(jt) => match child_with_tag(nodes, i, "parent"@) {
                    None => Err(UrdfParseErrorView::MissingTagJointParent(name)),
                    Some(p) => match attr_lookup(nodes[p as int].attributes, "link"@) {
                        None => Err(UrdfParseErrorView::MissingAttributeJointParentLink(name)),
                        Some(parent) => match child_with_tag(nodes, i, "child"@) {
                            None => Err(UrdfParseErrorView::MissingTagChildLink(name)),
                            Some(c) => match attr_lookup(nodes[c as int].attributes, "link"@) {
                                None => Err(UrdfParseErrorView::MissingAttributeJointChildLink(name)),
                                Some(child) => Ok((name, jt, parent, child)),
                            },
                        },
                    },
                },
            },
        },
    }
}

/// The error for an `<origin>` element without the attribute of `field`.
pub open spec fn missing_origin_attr(joint: Seq<char>, field: NumberField) -> UrdfParseErrorView {
    if field == NumberField::OriginRpy {
        UrdfParseErrorView::MissingAttributeJointOriginRpy(joint)
    } else {
        UrdfParseErrorView::MissingAttributeJointOriginXyz(joint)
    }
}

/// One vector attribute of the `<origin>` element at `o`; an `<origin>`
/// element must give both of its attributes.
pub open spec fn spec_origin_attr(nodes: Seq<XmlNodeView>, o: usize, attr: Seq<char>, joint: Seq<char>, field: NumberField) -> Result<Vec3View, UrdfParseErrorView> {
    match attr_lookup(nodes[o as int].attributes, attr) {
        None => Err(missing_origin_attr(joint, field)),
        Some(text) => match spec_parse_vec3(text) {
            None => Err(UrdfParseErrorView::InvalidVec3 { joint, field, value: text }),
            Some(v) => Ok(v),
        },
    }
}

/// The `xyz` and `rpy` of the `<origin>` tag of the joint element at `i`.
/// As in the URDF format, a missing `<origin>` tag stands for zero: no
/// offset and no rotation. An `<origin>` tag that is there must give both.
pub open spec fn spec_joint_origin(nodes: Seq<XmlNodeView>, i: usize, joint: Seq<char>) -> Result<(Vec3View, Vec3View), UrdfParseErrorView> {
    match child_with_tag(nodes, i, "origin"@) {
        None => Ok((zero_vec3(), zero_vec3())),
        Some(o) => match spec_origin_attr(nodes, o, "xyz"@, joint, NumberField::OriginXyz) {
            Err(e) => Err(e),
            Ok(xyz) => match spec_origin_attr(nodes, o, "rpy"@, joint, NumberField::OriginRpy) {
                Err(e) => Err(e),
                Ok(rpy) => Ok((xyz, rpy)),
            },
        },
    }
}

/// `(rot_axis, lin_axis)` of a joint of type `jt`: only movable joints read an axis.
pub open spec fn spec_joint_axes(nodes: Seq<XmlNodeView>, i: usize, joint: Seq<char>, jt: JointType) -> Result<(Option<Vec3View>, Option<Vec3View>), UrdfParseErrorView> {
    match jt {
        JointType::Prismatic => match spec_read_axis(nodes, i, joint) {
            Err(e) => Err(e),
            Ok(a) => Ok((None, Some(a))),
        },
        JointType::Revolute | JointType::Continuous => match spec_read_axis(nodes, i, joint) {
            Err(e) => Err(e),
            Ok(a) => Ok((Some(a), None)),
        },
        JointType::Fixed => Ok((None, None)),
    }
}

/// The range of a joint of type `jt`: only revolute and prismatic joints read a `<limit>`.
pub open spec fn spec_joint_range(nodes: Seq<XmlNodeView>, i: usize, joint: Seq<char>, jt: JointType) -> Result<JointLimitsView, UrdfParseErrorView> {
    match jt {
        JointType::Revolute | JointType::Prismatic => match spec_read_joint_limits(nodes, i, joint) {
            Err(e) => Err(e),
            Ok((lower, upper)) => Ok(JointLimitsView::Bounded { lower, upper }),
        },
        JointType::Continuous => Ok(JointLimitsView::FullTurn),
        JointType::Fixed => Ok(JointLimitsView::Unbounded),
    }
}

/// The joint that the joint element at `i` describes, not yet placed in the
/// tree (link indices 0, no command slot).
pub open spec fn spec_parse_joint(nodes: Seq<XmlNodeView>, i: usize) -> Result<JointView, UrdfParseErrorView> {
    match spec_joint_header(nodes, i) {
        Err(e) => Err(e),
        Ok((name, jt, parent, child)) => match spec_joint_origin(nodes, i, name) {
            Err(e) => Err(e),
            Ok((xyz, rpy)) => match spec_joint_axes(nodes, i, name, jt) {
                Err(e) => Err(e),
                Ok((rot_axis, lin_axis)) => match spec_joint_range(nodes, i, name, jt) {
                    Err(e) => Err(e),
                    Ok(limits) => Ok(JointView {
                        name,
                        joint_type: jt,
                        parent,
                        parent_link_idx: 0,
                        child,
                        child_link_idx: 0,
                        origin_xyz: xyz,
                        origin_rpy: rpy,
                        lin_axis,
                        rot_axis,
                        limits,
                        cmd_idx: None,
                    }),
                },
            },
        },
    }
}

// ----- helpers -----

/// Parses the axis information from the joint element at `i`; without an
/// `<axis>` tag the axis is (1, 0, 0).
fn read_axis(nodes: &Vec<XmlNode>, i: usize, joint_name: &String) -> (res: Result<Vec3Text, UrdfParseError>)
    requires
        i < nodes.len(),
    ensures
        match (res, spec_read_axis(nodes_view(nodes@), i, joint_name@)) {
            (Ok(v), Ok(sv)) => v@ == sv,
            (Err(e), Err(se)) => e@ == se,
            _ => false,
        },
{
    let ghost nv = nodes_view(nodes@);
    let axis = match find_child_with_tag(nodes, i, "axis") {
        Some(a) => a,
        None => return Ok(Vec3Text::from_words("1", "0", "0")),
    };
    assert(nv[axis as int] == nodes@[axis as int]@);
    let text = match nodes[axis].attribute("xyz") {
        Some(t) => t,
        None => return Err(UrdfParseError::MissingAttributeJointAxisXyz(joint_name.clone())),
    };
    match parse_vec3_str(text.as_str()) {
        Some(v) => Ok(v),
        None => Err(UrdfParseError::InvalidVec3 {
            joint: joint_name.clone(),
            field: NumberField::AxisXyz,
            value: text,
        }),
    }
}

/// Reads the vector attribute `attr` of the `<origin>` element at `o`, which
/// must be there.
fn read_origin_attr(nodes: &Vec<XmlNode>, o: usize, attr: &str, joint_name: &String, field: NumberField) -> (res: Result<Vec3Text, UrdfParseError>)
    requires
        o < nodes.len(),
    ensures
        match (res, spec_origin_attr(nodes_view(nodes@), o, attr@, joint_name@, field)) {
            (Ok(v), Ok(sv)) => v@ == sv,
            (Err(e), Err(se)) => e@ == se,
            _ => false,
        },
{
    let ghost nv = nodes_view(nodes@);
    assert(nv[o as int] == nodes@[o as int]@);
    match nodes[o].attribute(attr) {
        None => Err(
            match field {
                NumberField::OriginRpy => UrdfParseError::MissingAttributeJointOriginRpy(joint_name.clone()),
                _ => UrdfParseError::MissingAttributeJointOriginXyz(joint_name.clone()),
            },
        ),
        Some(text) => match parse_vec3_str(text.as_str()) {
            Some(v) => Ok(v),
            None => Err(UrdfParseError::InvalidVec3 { joint: joint_name.clone(), field, value: text }),
        },
    }
}

/// Parses the joint limit information of the joint element at `i`.
///
/// Returns (limit_lower, limit_upper).
fn read_joint_limits(nodes: &Vec<XmlNode>, i: usize, joint_name: &String) -> (res: Result<(String, String), UrdfParseError>)
    requires
        i < nodes.len(),
    ensures
        match (res, spec_read_joint_limits(nodes_view(nodes@), i, joint_name@)) {
            (Ok((l, u)), Ok((sl, su))) => l@ == sl && u@ == su,
            (Err(e), Err(se)) => e@ == se,
            _ => false,
        },
{
    let ghost nv = nodes_view(nodes@);
    let limit = match find_child_with_tag(nodes, i, "limit") {
        Some(l) => l,
        None => return Err(UrdfParseError::MissingTagJointLimit(joint_name.clone())),
    };
    assert(nv[limit as int] == nodes@[limit as int]@);
    let lower = match nodes[limit].attribute("lower") {
        Some(t) => t,
        None => return Err(UrdfParseError::MissingAttributeJointLimitLower(joint_name.clone())),
    };
    let upper = match nodes[limit].attribute("upper") {
        Some(t) => t,
        None => return Err(UrdfParseError::MissingAttributeJointLimitUpper(joint_name.clone())),
    };
    Ok((lower, upper))
}

/// Parses the `<link>` element at `i` into a `Link`.
pub fn parse_link(nodes: &Vec<XmlNode>, i: usize) -> (res: Result<Link, UrdfParseError>)
    requires
        i < nodes.len(),
    ensures
        match (res, spec_parse_link(nodes_view(nodes@), i)) {
            (Ok(l), Ok(sl)) => l@ == sl,
            (Err(e), Err(se)) => e@ == se,
            _ => false,
        },
{
    let ghost nv = nodes_view(nodes@);
    assert(nv[i as int] == nodes@[i as int]@);
    match nodes[i].attribute("name") {
        Some(name) => Ok(Link { name }),
        None => Err(UrdfParseError::MissingAttributeLinkName),
    }
}

/// Parses the `<joint>` element at `i` into a `Joint` that is not yet placed
/// in the tree.
pub fn parse_joint(nodes: &Vec<XmlNode>, i: usize) -> (res: Result<Joint, UrdfParseError>)
    requires
        i < nodes.len(),
    ensures
        match (res, spec_parse_joint(nodes_view(nodes@), i)) {
            (Ok(j), Ok(sj)) => j@ == sj,
            (Err(e), Err(se)) => e@ == se,
            _ => false,
        },
{
    let ghost nv = nodes_view(nodes@);
    assert(nv[i as int] == nodes@[i as int]@);
    let name = match nodes[i].attribute("name") {
        Some(n) => n,
        None => return Err(UrdfParseError::MissingAttributeJointName),
    };
    let type_text = match nodes[i].attribute("type") {
        Some(t) => t,
        None => return Err(UrdfParseError::MissingAttributeJointType(name)),
    };
    let joint_type = match JointType::from_str(type_text.as_str()) {
        Ok(t) => t,
        Err(_) => return Err(UrdfParseError::UnknownJointType { joint: name, found: type_text }),
    };
    let parent_tag = match find_child_with_tag(nodes, i, "parent") {
        Some(p) => p,
        None => return Err(UrdfParseError::MissingTagJointParent(name)),
    };
    assert(nv[parent_tag as int] == nodes@[parent_tag as int]@);
    let parent = match nodes[parent_tag].attribute("link") {
        Some(l) => l,
        None => return Err(UrdfParseError::MissingAttributeJointParentLink(name)),
    };
    let child_tag = match find_child_with_tag(nodes, i, "child") {
        Some(c) => c,
        None => return Err(UrdfParseError::MissingTagChildLink(name)),
    };
    assert(nv[child_tag as int] == nodes@[child_tag as int]@);
    let child = match nodes[child_tag].attribute("link") {
        Some(l) => l,
        None => return Err(UrdfParseError::MissingAttributeJointChildLink(name)),
    };

    // Extracting joint XYZ and RPY
    let (origin_xyz, origin_rpy) = match find_child_with_tag(nodes, i, "origin") {
        Some(o) => {
            let xyz = read_origin_attr(nodes, o, "xyz", &name, NumberField::OriginXyz)?;
            let rpy = read_origin_attr(nodes, o, "rpy", &name, NumberField::OriginRpy)?;
            (xyz, rpy)
        },
        None => (Vec3Text::from_words("0", "0", "0"), Vec3Text::from_words("0", "0", "0")),
    };

    // Extracting the axis
    let (rot_axis, lin_axis) = match joint_type {
        JointType::Prismatic => (None, Some(read_axis(nodes, i, &name)?)),
        JointType::Revolute | JointType::Continuous => (Some(read_axis(nodes, i, &name)?), None),
        JointType::Fixed => (None, None),
    };

    // Extracting the joint limits
    let limits = match joint_type {
        JointType::Revolute | JointType::Prismatic => {
            let (lower, upper) = read_joint_limits(nodes, i, &name)?;
            JointLimits::Bounded { lower, upper }
        },
        // Continuous joints have no limits; the range is taken as a full turn either way.
        JointType::Continuous => JointLimits::FullTurn,
        JointType::Fixed => JointLimits::Unbounded,
    };

    Ok(Joint {
        name,
        joint_type,
        parent,
        parent_link_idx: 0,
        child,
        child_link_idx: 0,
        origin_xyz,
        origin_rpy,
        lin_axis,
        rot_axis,
        limits,
        cmd_idx: None,
    })
}

/// The links and joints of the elements from `start` on, in document order,
/// or the error of the first element that does not read.
pub open spec fn spec_collect_from(nodes: Seq<XmlNodeView>, start: int) -> Result<(Seq<Seq<char>>, Seq<JointView>), UrdfParseErrorView>
    decreases nodes.len() - start,
{
    if start < 0 || start >= nodes.len() {
        Ok((seq![], seq![]))
    } else if nodes[start].tag == "link"@ {
        match spec_parse_link(nodes, start as usize) {
            Err(e) => Err(e),
            Ok(l) => match spec_collect_from(nodes, start + 1) {
                Err(e) => Err(e),
                Ok((ls, js)) => Ok((seq![l] + ls, js)),
            },
        }
    } else if nodes[start].tag == "joint"@ {
        match spec_parse_joint(nodes, start as usize) {
            Err(e) => Err(e),
            Ok(j) => match spec_collect_from(nodes, start + 1) {
                Err(e) => Err(e),
                Ok((ls, js)) => Ok((ls, seq![j] + js)),
            },
        }
    } else {
        spec_collect_from(nodes, start + 1)
    }
}

/// `r`, after the links `ls` and joints `js`.
pub open spec fn after_prefix(
    ls: Seq<Seq<char>>,
    js: Seq<JointView>,
    r: Result<(Seq<Seq<char>>, Seq<JointView>), UrdfParseErrorView>,
) -> Result<(Seq<Seq<char>>, Seq<JointView>), UrdfParseErrorView> {
    match r {
        Ok((ls2, js2)) => Ok((ls + ls2, js + js2)),
        Err(e) => Err(e),
    }
}

/// The `name` of the document's root element.
pub open spec fn spec_robot_name(nodes: Seq<XmlNodeView>) -> Option<Seq<char>> {
    match root_element(nodes) {
        Some(r) => attr_lookup(nodes[r as int].attributes, "name"@),
        None => None,
    }
}

/// The robot that a URDF document describes.
pub open spec fn spec_parse_urdf(nodes: Seq<XmlNodeView>) -> Result<ModelView, UrdfParseErrorView> {
    match spec_robot_name(nodes) {
        None => Err(UrdfParseErrorView::MissingAttributeRobotName),
        Some(name) => match spec_collect_from(nodes, 0) {
            Err(e) => Err(e),
            Ok((links, joints)) => match spec_resolve(links, joints) {
                Err(e) => Err(e),
                Ok(ordered) => Ok(ModelView {
                    name,
                    links,
                    joints: ordered,
                    link_name_to_idx: link_index_map(links),
                    joint_name_to_idx: joint_index_map(ordered),
                    num_actuated_joints: cmd_count(ordered),
                }),
            },
        },
    }
}

/// Each link and joint read comes from its own element.
pub proof fn lemma_collect_len(nodes: Seq<XmlNodeView>, start: int)
    requires
        0 <= start <= nodes.len(),
    ensures
        spec_collect_from(nodes, start) matches Ok((ls, js)) ==> ls.len() + js.len() <= nodes.len() - start,
    decreases nodes.len() - start,
{
    if start < nodes.len() {
        lemma_collect_len(nodes, start + 1);
    }
}

/// Every model that the parser returns is well formed.
pub proof fn lemma_parse_urdf_well_formed(nodes: Seq<XmlNodeView>)
    requires
        nodes.len() <= usize::MAX,
    ensures
        spec_parse_urdf(nodes) matches Ok(m) ==> m.well_formed(),
{
    lemma_collect_len(nodes, 0);
    if let Ok((links, joints)) = spec_collect_from(nodes, 0) {
        lemma_resolve_well_placed(links, joints);
    }
}

/// Reads the robot described by a parsed XML document: the robot's name,
/// its links and joints in document order, then the joints ordered from the
/// root link (see `resolve_joint_order`).
pub fn parse_urdf_nodes(nodes: &Vec<XmlNode>) -> (res: Result<GalawModel, UrdfParseError>)
    ensures
        match (res, spec_parse_urdf(nodes_view(nodes@))) {
            (Ok(m), Ok(sm)) => m@ == sm,
            (Err(e), Err(se)) => e@ == se,
            _ => false,
        },
        res matches Ok(m) ==> m@.well_formed(),
{
    let ghost nv = nodes_view(nodes@);
    let robot_name = match find_root_element(nodes) {
        Some(r) => {
            assert(nv[r as int] == nodes@[r as int]@);
            nodes[r].attribute("name")
        },
        None => None,
    };
    let robot_name = match robot_name {
        Some(n) => n,
        None => return Err(UrdfParseError::MissingAttributeRobotName),
    };

    let mut links: Vec<Link> = Vec::new();
    let mut joints: Vec<Joint> = Vec::new();
    let n = nodes.len();
    let mut i: usize = 0;
    assert(links_view(links@) =~= Seq::<Seq<char>>::empty());
    assert(joints_view(joints@) =~= Seq::<JointView>::empty());
    while i < n
        invariant
            n == nodes@.len(),
            nv == nodes_view(nodes@),
            0 <= i <= n,
            spec_robot_name(nv) == Some(robot_name@),
            spec_collect_from(nv, 0) == after_prefix(links_view(links@), joints_view(joints@), spec_collect_from(nv, i as int)),
        decreases n - i,
    {
        assert(nv[i as int] == nodes@[i as int]@);
        let ghost lv0 = links_view(links@);
        let ghost jv0 = joints_view(joints@);
        if text_is(&nodes[i].tag, "link") {
            let link = match parse_link(nodes, i) {
                Ok(l) => l,
                Err(e) => {
                    assert(spec_collect_from(nv, i as int) == Err::<(Seq<Seq<char>>, Seq<JointView>), UrdfParseErrorView>(e@));
                    return Err(e);
                },
            };
            links.push(link);
            proof {
                assert(links_view(links@) =~= lv0.push(link@));
                match spec_collect_from(nv, i + 1) {
                    Ok((ls, js)) => {
                        assert(lv0 + (seq![link@] + ls) =~= lv0.push(link@) + ls);
                    },
                    Err(_) => {},
                }
            }
        } else if text_is(&nodes[i].tag, "joint") {
            let joint = match parse_joint(nodes, i) {
                Ok(j) => j,
                Err(e) => {
                    assert(spec_collect_from(nv, i as int) == Err::<(Seq<Seq<char>>, Seq<JointView>), UrdfParseErrorView>(e@));
                    return Err(e);
                },
            };
            joints.push(joint);
            proof {
                assert(joints_view(joints@) =~= jv0.push(joint@));
                match spec_collect_from(nv, i + 1) {
                    Ok((ls, js)) => {
                        assert(jv0 + (seq![joint@] + js) =~= jv0.push(joint@) + js);
                    },
                    Err(_) => {},
                }
            }
        }
        i = i + 1;
    }
    proof {
        let lv = links_view(links@);
        let jv = joints_view(joints@);
        assert(lv + Seq::<Seq<char>>::empty() =~= lv);
        assert(jv + Seq::<JointView>::empty() =~= jv);
    }

    let (ordered_joints, link_name_to_idx, joint_name_to_idx) = resolve_joint_order(&links, &joints)?;

    let ghost ov = joints_view(ordered_joints@);
    let mut num_actuated_joints: usize = 0;
    let mut k: usize = 0;
    while k < ordered_joints.len()
        invariant
            ov == joints_view(ordered_joints@),
            0 <= k <= ordered_joints@.len(),
            num_actuated_joints == cmd_count(ov.take(k as int)),
            cmd_count(ov.take(k as int)) <= k,
        decreases ordered_joints@.len() - k,
    {
        assert(ov.take(k + 1).drop_last() =~= ov.take(k as int));
        assert(ov[k as int] == ordered_joints@[k as int]@);
        if ordered_joints[k].cmd_idx.is_some() {
            num_actuated_joints = num_actuated_joints + 1;
        }
        k = k + 1;
    }
    assert(ov.take(ordered_joints@.len() as int) =~= ov);
    proof {
        lemma_parse_urdf_well_formed(nv);
    }

    Ok(GalawModel {
        name: robot_name,
        links,
        joints: ordered_joints,
        link_name_to_idx,
        joint_name_to_idx,
        num_actuated_joints,
    })
}

/// The robot that `content` describes; `content` is a URDF document.
///
/// An `XmlParse` error holding `content` comes exactly where `roxmltree`
/// refuses the text; otherwise the result is that of `parse_urdf_nodes` on
/// the document's nodes.
pub fn parse_urdf(content: &str) -> (res: Result<GalawModel, UrdfParseError>)
    ensures
        match xml_document(content@) {
            None => res matches Err(e) && e@ == UrdfParseErrorView::XmlParse { xml_content: content@ },
            Some(nodes) => match (res, spec_parse_urdf(nodes)) {
                (Ok(m), Ok(sm)) => m@ == sm,
                (Err(e), Err(se)) => e@ == se,
                _ => false,
            },
        },
        res matches Ok(m) ==> m@.well_formed(),
{
    let nodes = match parse_xml_document(content) {
        Ok(nodes) => nodes,
        Err(source) => return Err(UrdfParseError::XmlParse { xml_content: content.to_owned(), source }),
    };
    parse_urdf_nodes(&nodes)
}

} // verus!

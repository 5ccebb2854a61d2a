use galaw::error::GalawError;
use galaw::parser::parse_urdf;
use galaw::types::{GalawModel, JointLimits, JointType};
use galaw::utils::parse_vec3_str;

fn joint(name: &str, kind: &str, parent: &str, child: &str) -> String {
    let extra = match kind {
        "fixed" => String::new(),
        "continuous" => "<axis xyz=\"0 0 1\"/>".to_string(),
        _ => "<axis xyz=\"1 0 0\"/><limit lower=\"-1\" upper=\"1\"/>".to_string(),
    };
    format!(
        "<joint name=\"{name}\" type=\"{kind}\"><parent link=\"{parent}\"/><child link=\"{child}\"/><origin xyz=\"0 0 0.1\" rpy=\"0 0 0\"/>{extra}</joint>"
    )
}

fn links(names: &[&str]) -> String {
    names.iter().map(|n| format!("<link name=\"{n}\"/>")).collect()
}

fn model(body: &str) -> GalawModel {
    match parse_urdf(&format!("<robot name=\"r\">{body}</robot>")) {
        Ok(m) => m,
        Err(e) => panic!("{:?}", e),
    }
}

fn names(m: &GalawModel) -> Vec<&str> {
    m.joints.iter().map(|j| j.name.as_str()).collect()
}

/// A hand-like robot: the palm branches into two fingers declared
/// interleaved. Depth-first order keeps each finger's joints together.
fn branching_robot() -> GalawModel {
    let body = format!(
        "{}{}{}{}{}{}",
        links(&["palm", "a1", "b1", "a2", "b2", "sensor"]),
        joint("a_base", "revolute", "palm", "a1"),
        joint("b_base", "revolute", "palm", "b1"),
        joint("a_tip", "revolute", "a1", "a2"),
        joint("b_tip", "revolute", "b1", "b2"),
        joint("sensor_mount", "fixed", "palm", "sensor"),
    );
    model(&body)
}

#[test]
fn branches_are_consecutive() {
    let m = branching_robot();
    assert_eq!(names(&m), vec!["a_base", "a_tip", "b_base", "b_tip", "sensor_mount"]);
    let slots: Vec<Option<usize>> = m.joints.iter().map(|j| j.cmd_idx).collect();
    assert_eq!(slots, vec![Some(0), Some(1), Some(2), Some(3), None]);
    assert_eq!(m.num_actuated_joints, 4);
}

#[test]
fn parents_come_before_children() {
    let m = branching_robot();
    let root = m.get_link_idx("palm").unwrap();
    for (k, j) in m.joints.iter().enumerate() {
        assert!(
            j.parent_link_idx == root || m.joints[..k].iter().any(|e| e.child_link_idx == j.parent_link_idx),
            "joint {} comes before the joint that places its parent",
            j.name
        );
        assert_eq!(m.links[j.parent_link_idx].name, j.parent);
        assert_eq!(m.links[j.child_link_idx].name, j.child);
    }
}

#[test]
fn fixed_joints_take_no_command() {
    let m = branching_robot();
    assert_eq!(m.get_joint_idx("sensor_mount"), None);
    assert_eq!(m.get_joint_idx("b_tip"), Some(3));
    let mount = m.joints.iter().find(|j| j.name == "sensor_mount").unwrap();
    assert!(mount.rot_axis.is_none() && mount.lin_axis.is_none());
    assert!(matches!(mount.limits, JointLimits::Unbounded));
}

#[test]
fn joint_kinds_read_their_axis_and_range() {
    let body = format!(
        "{}{}{}",
        links(&["base", "wheel", "slide"]),
        joint("spin", "continuous", "base", "wheel"),
        joint("push", "prismatic", "wheel", "slide"),
    );
    let m = model(&body);
    let spin = &m.joints[0];
    assert_eq!(spin.joint_type, JointType::Continuous);
    assert!(spin.rot_axis.is_some() && spin.lin_axis.is_none());
    assert!(matches!(spin.limits, JointLimits::FullTurn));
    let push = &m.joints[1];
    assert_eq!(push.joint_type, JointType::Prismatic);
    assert!(push.rot_axis.is_none());
    assert_eq!(push.lin_axis.as_ref().unwrap().x, "1");
    match &push.limits {
        JointLimits::Bounded { lower, upper } => assert_eq!((lower.as_str(), upper.as_str()), ("-1", "1")),
        _ => panic!("prismatic joint without bounds"),
    }
}

#[test]
fn joint_commands_follow_command_slots() {
    let m = branching_robot();
    let cmds = m.joint_commands(&[10, 11, 12, 13], -1).ok().unwrap();
    assert_eq!(cmds, vec![10, 11, 12, 13, -1]);
    match m.joint_commands(&[1, 2, 3], 0) {
        Err(GalawError::JointCmdLengthMismatch { expected, actual }) => {
            assert_eq!(expected, 4);
            assert_eq!(actual, 3);
        }
        other => panic!("{:?}", other.ok()),
    }
}

#[test]
fn repeated_link_name_resolves_to_last() {
    let body = format!("{}{}", links(&["base", "arm", "arm"]), joint("j", "fixed", "base", "arm"));
    let m = model(&body);
    assert_eq!(m.get_link_idx("arm"), Some(2));
    assert_eq!(m.joints[0].child_link_idx, 2);
}

/// Two joints leading into link `a` (a DAG): the walk enters `a` twice and
/// the joints below it appear twice, while the joints of an unreachable
/// cycle are missing. The count still matches, so the order is accepted.
#[test]
fn shared_child_repeats_its_subtree() {
    let body = format!(
        "{}{}{}{}{}{}{}{}",
        links(&["r", "a", "b", "c", "f", "d", "e"]),
        joint("j1", "fixed", "r", "a"),
        joint("j2", "fixed", "r", "b"),
        joint("j3", "fixed", "b", "a"),
        joint("j4", "fixed", "a", "c"),
        joint("j7", "fixed", "a", "f"),
        joint("j5", "fixed", "d", "e"),
        joint("j6", "fixed", "e", "d"),
    );
    let m = model(&body);
    assert_eq!(names(&m), vec!["j1", "j4", "j7", "j2", "j3", "j4", "j7"]);
}

#[test]
fn joint_type_names() {
    assert_eq!(JointType::from_str("revolute"), Ok(JointType::Revolute));
    assert_eq!(JointType::from_str("prismatic"), Ok(JointType::Prismatic));
    assert_eq!(JointType::from_str("fixed"), Ok(JointType::Fixed));
    assert_eq!(JointType::from_str("continuous"), Ok(JointType::Continuous));
    assert_eq!(JointType::from_str("planar"), Err("unknown joint type: planar".to_string()));
    assert_eq!("fixed".parse::<JointType>(), Ok(JointType::Fixed));
}

#[test]
fn vectors_split_on_whitespace() {
    let v = parse_vec3_str("  1.5\t-2 3e2 ").unwrap();
    assert_eq!((v.x.as_str(), v.y.as_str(), v.z.as_str()), ("1.5", "-2", "3e2"));
    assert!(parse_vec3_str("1 2").is_none());
    assert!(parse_vec3_str("1 2 3 4").is_none());
    assert!(parse_vec3_str("").is_none());
}

#[test]
fn omitted_origin_and_axis_take_urdf_defaults() {
    let body = format!(
        "{}{}{}",
        links(&["base", "arm", "tool"]),
        "<joint name=\"swing\" type=\"revolute\"><parent link=\"base\"/><child link=\"arm\"/><limit lower=\"-1\" upper=\"1\"/></joint>",
        "<joint name=\"mount\" type=\"fixed\"><parent link=\"arm\"/><child link=\"tool\"/><origin xyz=\"0 0 0.2\" rpy=\"0 0 0\"/></joint>",
    );
    let m = model(&body);
    let swing = &m.joints[0];
    let zero = |v: &galaw::types::Vec3Text| (v.x.clone(), v.y.clone(), v.z.clone());
    let z = ("0".to_string(), "0".to_string(), "0".to_string());
    assert_eq!(zero(&swing.origin_xyz), z);
    assert_eq!(zero(&swing.origin_rpy), z);
    assert_eq!(zero(swing.rot_axis.as_ref().unwrap()), ("1".to_string(), "0".to_string(), "0".to_string()));
    let mount = &m.joints[1];
    assert_eq!(mount.origin_xyz.z, "0.2");
    assert_eq!(zero(&mount.origin_rpy), z);
}

#[test]
fn distinct_link_names_each_have_their_own_entry() {
    let m = branching_robot();
    assert_eq!(m.link_name_to_idx.len(), m.links.len());
    for (i, l) in m.links.iter().enumerate() {
        assert_eq!(m.get_link_idx(&l.name), Some(i));
    }
    assert_eq!(m.get_link_idx("elbow"), None);
}

#[test]
fn joint_lookup_holds_exactly_the_movable_joints() {
    let m = branching_robot();
    assert_eq!(m.joint_name_to_idx.len(), m.num_actuated_joints);
    assert_eq!(m.get_joint_idx("a_base"), Some(0));
    assert_eq!(m.get_joint_idx("a_tip"), Some(1));
    assert_eq!(m.get_joint_idx("b_base"), Some(2));
    assert_eq!(m.get_joint_idx("b_tip"), Some(3));
    assert_eq!(m.get_joint_idx("sensor_mount"), None);
}

#[test]
fn subtree_of_each_joint_follows_it_in_one_block() {
    let body = format!(
        "{}{}{}{}{}{}",
        links(&["base", "a", "a1", "a2", "b", "b1"]),
        joint("to_b", "revolute", "base", "b"),
        joint("to_a", "revolute", "base", "a"),
        joint("a_first", "fixed", "a", "a1"),
        joint("b_first", "continuous", "b", "b1"),
        joint("a_second", "revolute", "a", "a2"),
    );
    let m = model(&body);
    assert_eq!(names(&m), vec!["to_b", "b_first", "to_a", "a_first", "a_second"]);
    let slots: Vec<Option<usize>> = m.joints.iter().map(|j| j.cmd_idx).collect();
    assert_eq!(slots, vec![Some(0), Some(1), Some(2), None, Some(3)]);
}

#[test]
fn link_names_of_each_joint_do_not_depend_on_declaration_order() {
    let parts = [
        links(&["base", "a", "a1", "b"]),
        joint("to_a", "revolute", "base", "a"),
        joint("to_b", "fixed", "base", "b"),
        joint("a_tip", "prismatic", "a", "a1"),
    ];
    let forward = model(&parts.concat());
    let backward = model(&[parts[3].clone(), parts[2].clone(), parts[1].clone(), links(&["b", "a1", "a", "base"])].concat());
    for name in ["to_a", "to_b", "a_tip"] {
        let ends = |m: &GalawModel| {
            let j = m.joints.iter().find(|j| j.name == name).unwrap();
            (m.links[j.parent_link_idx].name.clone(), m.links[j.child_link_idx].name.clone())
        };
        assert_eq!(ends(&forward), ends(&backward));
    }
}

/// Between a joint and any joint hanging from its child link, every joint
/// hangs below it: no branch is interleaved with another.
#[test]
fn branches_do_not_interleave() {
    let m = branching_robot();
    let j = &m.joints;
    for k in 0..j.len() {
        for i in k + 1..j.len() {
            if j[i].parent_link_idx != j[k].child_link_idx {
                continue;
            }
            for q in k + 1..i {
                let below = j[q].parent_link_idx == j[k].child_link_idx
                    || (k + 1..q).any(|r| j[r].child_link_idx == j[q].parent_link_idx);
                assert!(below, "joint {} sits inside the branch of {}", j[q].name, j[k].name);
            }
        }
    }
    let palm = m.get_link_idx("palm").unwrap();
    let a1 = m.get_link_idx("a1").unwrap();
    assert_eq!(j[0].child_link_idx, a1);
    assert_eq!(j[1].parent_link_idx, a1);
    assert_eq!(j[2].parent_link_idx, palm);
}

#[test]
fn vectors_split_on_unicode_whitespace() {
    let v = parse_vec3_str("1\u{3000}2\u{a0}\u{2028}3\n").unwrap();
    assert_eq!((v.x.as_str(), v.y.as_str(), v.z.as_str()), ("1", "2", "3"));
    let w = parse_vec3_str("é\u{200b}1 2 3").unwrap_or_else(|| panic!("zero-width space is not whitespace"));
    assert_eq!(w.x, "é\u{200b}1");
    assert!(parse_vec3_str("1\u{1680}2").is_none());
}

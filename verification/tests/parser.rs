use galaw::error::{NumberField, UrdfParseError};
use galaw::parser::parse_urdf;
use galaw::types::{GalawModel, JointLimits, JointType};

const SIMPLE_ARM_2DOF: &str = r#"<?xml version="1.0"?>
<robot name="simple_arm_2dof">
  <link name="base_link"/>
  <link name="upper_arm"/>
  <link name="forearm"/>
  <joint name="shoulder_joint" type="revolute">
    <parent link="base_link"/>
    <child link="upper_arm"/>
    <origin xyz="0 0 0.1" rpy="0 0 0"/>
    <axis xyz="0 0 1"/>
    <limit lower="-3.14" upper="3.14" effort="10" velocity="1"/>
  </joint>
  <joint name="elbow_joint" type="revolute">
    <parent link="upper_arm"/>
    <child link="forearm"/>
    <origin xyz="0 0 0.5" rpy="0 0 0"/>
    <axis xyz="0 1 0"/>
    <limit lower="-1.57" upper="1.57" effort="10" velocity="1"/>
  </joint>
</robot>
"#;

const SIMPLE_ARM_2DOF_FLIPPED: &str = r#"<?xml version="1.0"?>
<robot name="simple_arm_2dof">
  <joint name="elbow_joint" type="revolute">
    <parent link="upper_arm"/>
    <child link="forearm"/>
    <origin xyz="0 0 0.5" rpy="0 0 0"/>
    <axis xyz="0 1 0"/>
    <limit lower="-1.57" upper="1.57" effort="10" velocity="1"/>
  </joint>
  <link name="forearm"/>
  <joint name="shoulder_joint" type="revolute">
    <parent link="base_link"/>
    <child link="upper_arm"/>
    <origin xyz="0 0 0.1" rpy="0 0 0"/>
    <axis xyz="0 0 1"/>
    <limit lower="-3.14" upper="3.14" effort="10" velocity="1"/>
  </joint>
  <link name="upper_arm"/>
  <link name="base_link"/>
</robot>
"#;

fn load(content: &str) -> GalawModel {
    match parse_urdf(content) {
        Ok(m) => m,
        Err(e) => panic!("parse failed: {:?}", e),
    }
}

/// get_link_idx must resolve to the right link, for every link, in
/// both file orderings.
#[test]
fn link_lookup_is_self_consistent() {
    for (path, content) in [
        ("assets/urdf/custom/simple_arm_2dof.urdf", SIMPLE_ARM_2DOF),
        ("assets/urdf/custom/simple_arm_2dof_flipped.urdf", SIMPLE_ARM_2DOF_FLIPPED),
    ] {
        let model = load(content);
        for link in &model.links {
            let idx = model.get_link_idx(&link.name).unwrap_or_else(|| {
                panic!("get_link_idx(\"{}\") returned None in {path}", link.name)
            });
            assert_eq!(
                model.links[idx].name, link.name,
                "get_link_idx(\"{}\") in {path} pointed at the wrong link",
                link.name
            );
        }
    }
}

fn parent_child_names(model: &GalawModel, joint_name: &str) -> (String, String) {
    let joint = model.joints.iter().find(|j| j.name == joint_name).unwrap();
    (
        model.links[joint.parent_link_idx].name.clone(),
        model.links[joint.child_link_idx].name.clone(),
    )
}

/// Same robot, links/joints in a different file order: resolved
/// parent/child link names must match regardless.
#[test]
fn joint_resolution_is_independent_of_file_order() {
    let in_order = load(SIMPLE_ARM_2DOF);
    let flipped = load(SIMPLE_ARM_2DOF_FLIPPED);
    for joint_name in ["shoulder_joint", "elbow_joint"] {
        assert_eq!(
            parent_child_names(&in_order, joint_name),
            parent_child_names(&flipped, joint_name),
            "joint {joint_name} resolved to a different parent/child link depending on file order"
        );
    }
}

#[test]
fn simple_arm_is_read_in_tree_order() {
    let model = load(SIMPLE_ARM_2DOF_FLIPPED);
    assert_eq!(model.name, "simple_arm_2dof");
    let link_names: Vec<&str> = model.links.iter().map(|l| l.name.as_str()).collect();
    assert_eq!(link_names, vec!["forearm", "upper_arm", "base_link"]);
    let joint_names: Vec<&str> = model.joints.iter().map(|j| j.name.as_str()).collect();
    assert_eq!(joint_names, vec!["shoulder_joint", "elbow_joint"]);
    assert_eq!(model.joints[0].parent_link_idx, 2);
    assert_eq!(model.joints[0].child_link_idx, 1);
    assert_eq!(model.joints[1].parent_link_idx, 1);
    assert_eq!(model.joints[1].child_link_idx, 0);
    assert_eq!(model.joints[0].cmd_idx, Some(0));
    assert_eq!(model.joints[1].cmd_idx, Some(1));
    assert_eq!(model.num_actuated_joints, 2);
    assert_eq!(model.get_joint_idx("shoulder_joint"), Some(0));
    assert_eq!(model.get_joint_idx("elbow_joint"), Some(1));
    assert_eq!(model.get_joint_idx("wrist_joint"), None);
    assert_eq!(model.get_link_idx("base_link"), Some(2));
    assert_eq!(model.get_link_idx("hand"), None);
    let shoulder = &model.joints[0];
    assert_eq!(shoulder.joint_type, JointType::Revolute);
    assert_eq!(shoulder.origin_xyz.z, "0.1");
    let axis = shoulder.rot_axis.as_ref().unwrap();
    assert_eq!((axis.x.as_str(), axis.y.as_str(), axis.z.as_str()), ("0", "0", "1"));
    assert!(shoulder.lin_axis.is_none());
    match &shoulder.limits {
        JointLimits::Bounded { lower, upper } => {
            assert_eq!(lower, "-3.14");
            assert_eq!(upper, "3.14");
        }
        _ => panic!("revolute joint without bounds"),
    }
}

#[test]
fn invalid_xml_is_refused() {
    match parse_urdf("<robot name='r'><link name='a'></robot>") {
        Err(UrdfParseError::XmlParse { xml_content, .. }) => {
            assert_eq!(xml_content, "<robot name='r'><link name='a'></robot>")
        }
        other => panic!("unexpected: {:?}", other.map(|m| m.name)),
    }
}

#[test]
fn bad_vector_is_refused() {
    let urdf = SIMPLE_ARM_2DOF.replace("xyz=\"0 0 0.5\"", "xyz=\"0 0.5\"");
    match parse_urdf(&urdf) {
        Err(UrdfParseError::InvalidVec3 { joint, field, value }) => {
            assert_eq!(joint, "elbow_joint");
            assert_eq!(field, NumberField::OriginXyz);
            assert_eq!(value, "0 0.5");
        }
        other => panic!("unexpected: {:?}", other.map(|m| m.name)),
    }
}

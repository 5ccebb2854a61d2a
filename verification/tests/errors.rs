use galaw::error::{NumberField, UrdfParseError};
use galaw::parser::parse_urdf;

fn robot(body: &str) -> String {
    format!("<robot name=\"r\">{}</robot>", body)
}

fn err(body: &str) -> UrdfParseError {
    match parse_urdf(&robot(body)) {
        Ok(m) => panic!("expected an error, got a model with {} joints", m.joints.len()),
        Err(e) => e,
    }
}

const LINKS: &str = "<link name=\"a\"/><link name=\"b\"/>";

#[test]
fn robot_without_name() {
    assert!(matches!(
        parse_urdf("<robot><link name=\"a\"/></robot>"),
        Err(UrdfParseError::MissingAttributeRobotName)
    ));
}

#[test]
fn link_without_name() {
    assert!(matches!(err("<link/>"), UrdfParseError::MissingAttributeLinkName));
}

#[test]
fn joint_without_name() {
    assert!(matches!(err("<joint type=\"fixed\"/>"), UrdfParseError::MissingAttributeJointName));
}

#[test]
fn joint_without_type() {
    match err("<joint name=\"j\"/>") {
        UrdfParseError::MissingAttributeJointType(j) => assert_eq!(j, "j"),
        e => panic!("{:?}", e),
    }
}

#[test]
fn joint_with_unknown_type() {
    match err("<joint name=\"j\" type=\"floating\"/>") {
        UrdfParseError::UnknownJointType { joint, found } => {
            assert_eq!(joint, "j");
            assert_eq!(found, "floating");
        }
        e => panic!("{:?}", e),
    }
}

#[test]
fn joint_without_parent() {
    match err("<joint name=\"j\" type=\"fixed\"><child link=\"b\"/></joint>") {
        UrdfParseError::MissingTagJointParent(j) => assert_eq!(j, "j"),
        e => panic!("{:?}", e),
    }
    match err("<joint name=\"j\" type=\"fixed\"><parent/><child link=\"b\"/></joint>") {
        UrdfParseError::MissingAttributeJointParentLink(j) => assert_eq!(j, "j"),
        e => panic!("{:?}", e),
    }
}

#[test]
fn joint_without_child() {
    match err("<joint name=\"j\" type=\"fixed\"><parent link=\"a\"/></joint>") {
        UrdfParseError::MissingTagChildLink(j) => assert_eq!(j, "j"),
        e => panic!("{:?}", e),
    }
    match err("<joint name=\"j\" type=\"fixed\"><parent link=\"a\"/><child/></joint>") {
        UrdfParseError::MissingAttributeJointChildLink(j) => assert_eq!(j, "j"),
        e => panic!("{:?}", e),
    }
}

#[test]
fn origin_with_bad_vector() {
    let head = "<joint name=\"j\" type=\"fixed\"><parent link=\"a\"/><child link=\"b\"/>";
    match err(&format!("{head}<origin xyz=\"0 0 0\" rpy=\"0 0 0 0\"/></joint>")) {
        UrdfParseError::InvalidVec3 { joint, field, value } => {
            assert_eq!(joint, "j");
            assert_eq!(field, NumberField::OriginRpy);
            assert_eq!(value, "0 0 0 0");
        }
        e => panic!("{:?}", e),
    }
    match err(&format!("{head}<origin xyz=\"0 0\"/></joint>")) {
        UrdfParseError::InvalidVec3 { field, value, .. } => {
            assert_eq!(field, NumberField::OriginXyz);
            assert_eq!(value, "0 0");
        }
        e => panic!("{:?}", e),
    }
}

#[test]
fn origin_without_one_of_its_attributes() {
    let head = "<joint name=\"j\" type=\"fixed\"><parent link=\"a\"/><child link=\"b\"/>";
    match err(&format!("{LINKS}{head}<origin rpy=\"0 0 0\"/></joint>")) {
        UrdfParseError::MissingAttributeJointOriginXyz(joint) => assert_eq!(joint, "j"),
        e => panic!("{:?}", e),
    }
    match err(&format!("{LINKS}{head}<origin xyz=\"0 0 0.2\"/></joint>")) {
        UrdfParseError::MissingAttributeJointOriginRpy(joint) => assert_eq!(joint, "j"),
        e => panic!("{:?}", e),
    }
}

#[test]
fn movable_joint_without_axis() {
    let head = "<joint name=\"j\" type=\"revolute\"><parent link=\"a\"/><child link=\"b\"/><origin xyz=\"0 0 0\" rpy=\"0 0 0\"/>";
    match err(&format!("{head}<axis/><limit lower=\"0\" upper=\"1\"/></joint>")) {
        UrdfParseError::MissingAttributeJointAxisXyz(j) => assert_eq!(j, "j"),
        e => panic!("{:?}", e),
    }
    match err(&format!("{head}<axis xyz=\"1\"/></joint>")) {
        UrdfParseError::InvalidVec3 { field, value, .. } => {
            assert_eq!(field, NumberField::AxisXyz);
            assert_eq!(value, "1");
        }
        e => panic!("{:?}", e),
    }
}

#[test]
fn bounded_joint_without_limits() {
    let head = "<joint name=\"j\" type=\"prismatic\"><parent link=\"a\"/><child link=\"b\"/><origin xyz=\"0 0 0\" rpy=\"0 0 0\"/><axis xyz=\"1 0 0\"/>";
    match err(&format!("{head}</joint>")) {
        UrdfParseError::MissingTagJointLimit(j) => assert_eq!(j, "j"),
        e => panic!("{:?}", e),
    }
    match err(&format!("{head}<limit upper=\"1\"/></joint>")) {
        UrdfParseError::MissingAttributeJointLimitLower(j) => assert_eq!(j, "j"),
        e => panic!("{:?}", e),
    }
    match err(&format!("{head}<limit lower=\"0\"/></joint>")) {
        UrdfParseError::MissingAttributeJointLimitUpper(j) => assert_eq!(j, "j"),
        e => panic!("{:?}", e),
    }
}

fn fixed(name: &str, parent: &str, child: &str) -> String {
    format!(
        "<joint name=\"{name}\" type=\"fixed\"><parent link=\"{parent}\"/><child link=\"{child}\"/><origin xyz=\"0 0 0\" rpy=\"0 0 0\"/></joint>"
    )
}

#[test]
fn joint_to_undeclared_link() {
    match err(&format!("{LINKS}{}{}", fixed("j1", "a", "b"), fixed("j", "b", "c"))) {
        UrdfParseError::UnknownLink { joint, link } => {
            assert_eq!(joint, "j");
            assert_eq!(link, "c");
        }
        e => panic!("{:?}", e),
    }
    match err(&format!("{LINKS}{}", fixed("j", "z", "b"))) {
        UrdfParseError::UnknownLink { joint, link } => {
            assert_eq!(joint, "j");
            assert_eq!(link, "z");
        }
        e => panic!("{:?}", e),
    }
}

#[test]
fn every_link_has_a_parent() {
    let body = format!("{LINKS}{}{}", fixed("j1", "a", "b"), fixed("j2", "b", "a"));
    assert!(matches!(err(&body), UrdfParseError::NoRootLink));
}

#[test]
fn several_links_without_parent() {
    let body = format!("{LINKS}<link name=\"c\"/>{}", fixed("j1", "a", "b"));
    match err(&body) {
        UrdfParseError::MultipleRootLinks(names) => assert_eq!(names, vec!["a".to_string(), "c".to_string()]),
        e => panic!("{:?}", e),
    }
}

#[test]
fn joints_unreachable_from_root() {
    // a -> b, and a cycle c -> d -> c that the root never reaches
    let body = format!(
        "{LINKS}<link name=\"c\"/><link name=\"d\"/>{}{}{}",
        fixed("j1", "a", "b"),
        fixed("j2", "c", "d"),
        fixed("j3", "d", "c")
    );
    assert!(matches!(err(&body), UrdfParseError::UnreachableJoints));
}

#[test]
fn reachable_cycle_is_refused() {
    // a -> b -> c -> b: the walk would never end
    let body = format!(
        "{LINKS}<link name=\"c\"/>{}{}{}",
        fixed("j1", "a", "b"),
        fixed("j2", "b", "c"),
        fixed("j3", "c", "b")
    );
    assert!(matches!(err(&body), UrdfParseError::UnreachableJoints));
}

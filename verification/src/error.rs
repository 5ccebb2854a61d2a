use vstd::prelude::*;

verus! {

/// The error type of `std::io`, carried by `UrdfParseError::Io`.
#[verifier::external_type_specification]
#[verifier::external_body]
pub struct ExIoError(std::io::Error);

/// Which numeric attribute of a joint a number error is about.
#[derive(Debug, Clone, Copy, PartialEq, Eq, Structural)]
pub enum NumberField {
    OriginXyz,
    OriginRpy,
    AxisXyz,
    LimitLower,
    LimitUpper,
}

/// Why a URDF document could not be read into a model.
#[derive(Debug)]
pub enum UrdfParseError {
    Io { path: String, source: std::io::Error },
    XmlParse { xml_content: String, source: roxmltree::Error },
    MissingAttributeRobotName,
    MissingAttributeLinkName,
    // <joint/>
    MissingAttributeJointName,
    MissingAttributeJointType(String),
    UnknownJointType { joint: String, found: String },
    // <parent/>
    MissingTagJointParent(String),
    MissingAttributeJointParentLink(String),
    // <child/>
    MissingTagChildLink(String),
    MissingAttributeJointChildLink(String),
    // <origin/>
    MissingTagJointOrigin(String),
    MissingAttributeJointOriginXyz(String),
    MissingAttributeJointOriginRpy(String),
    // <axis/>
    MissingAttributeJointAxisXyz(String),
    // <limit/>
    MissingTagJointLimit(String),
    MissingAttributeJointLimitLower(String),
    MissingAttributeJointLimitUpper(String),
    // numbers
    InvalidVec3 { joint: String, field: NumberField, value: String },
    InvalidNumber { joint: String, field: NumberField, value: String },
    // tree structure
    UnknownLink { joint: String, link: String },
    NoRootLink,
    MultipleRootLinks(Vec<String>),
    UnreachableJoints,
}

/// The mathematical value of a `UrdfParseError` (the wrapped outside errors
/// are left out).
pub enum UrdfParseErrorView {
    Io { path: Seq<char> },
    XmlParse { xml_content: Seq<char> },
    MissingAttributeRobotName,
    MissingAttributeLinkName,
    MissingAttributeJointName,
    MissingAttributeJointType(Seq<char>),
    UnknownJointType { joint: Seq<char>, found: Seq<char> },
    MissingTagJointParent(Seq<char>),
    MissingAttributeJointParentLink(Seq<char>),
    MissingTagChildLink(Seq<char>),
    MissingAttributeJointChildLink(Seq<char>),
    MissingTagJointOrigin(Seq<char>),
    MissingAttributeJointOriginXyz(Seq<char>),
    MissingAttributeJointOriginRpy(Seq<char>),
    MissingAttributeJointAxisXyz(Seq<char>),
    MissingTagJointLimit(Seq<char>),
    MissingAttributeJointLimitLower(Seq<char>),
    MissingAttributeJointLimitUpper(Seq<char>),
    InvalidVec3 { joint: Seq<char>, field: NumberField, value: Seq<char> },
    InvalidNumber { joint: Seq<char>, field: NumberField, value: Seq<char> },
    UnknownLink { joint: Seq<char>, link: Seq<char> },
    NoRootLink,
    MultipleRootLinks(Seq<Seq<char>>),
    UnreachableJoints,
}

impl View for UrdfParseError {
    type V = UrdfParseErrorView;

    open spec fn view(&self) -> UrdfParseErrorView {
        match self {
            UrdfParseError::Io { path, .. } => UrdfParseErrorView::Io { path: path@ },
            UrdfParseError::XmlParse { xml_content, .. } => UrdfParseErrorView::XmlParse {
                xml_content: xml_content@,
            },
            UrdfParseError::MissingAttributeRobotName => UrdfParseErrorView::MissingAttributeRobotName,
            UrdfParseError::MissingAttributeLinkName => UrdfParseErrorView::MissingAttributeLinkName,
            UrdfParseError::MissingAttributeJointName => UrdfParseErrorView::MissingAttributeJointName,
            UrdfParseError::MissingAttributeJointType(j) => UrdfParseErrorView::MissingAttributeJointType(j@),
            UrdfParseError::UnknownJointType { joint, found } => UrdfParseErrorView::UnknownJointType {
                joint: joint@,
                found: found@,
            },
            UrdfParseError::MissingTagJointParent(j) => UrdfParseErrorView::MissingTagJointParent(j@),
            UrdfParseError::MissingAttributeJointParentLink(j) => UrdfParseErrorView::MissingAttributeJointParentLink(j@),
            UrdfParseError::MissingTagChildLink(j) => UrdfParseErrorView::MissingTagChildLink(j@),
            UrdfParseError::MissingAttributeJointChildLink(j) => UrdfParseErrorView::MissingAttributeJointChildLink(j@),
            UrdfParseError::MissingTagJointOrigin(j) => UrdfParseErrorView::MissingTagJointOrigin(j@),
            UrdfParseError::MissingAttributeJointOriginXyz(j) => UrdfParseErrorView::MissingAttributeJointOriginXyz(j@),
            UrdfParseError::MissingAttributeJointOriginRpy(j) => UrdfParseErrorView::MissingAttributeJointOriginRpy(j@),
            UrdfParseError::MissingAttributeJointAxisXyz(j) => UrdfParseErrorView::MissingAttributeJointAxisXyz(j@),
            UrdfParseError::MissingTagJointLimit(j) => UrdfParseErrorView::MissingTagJointLimit(j@),
            UrdfParseError::MissingAttributeJointLimitLower(j) => UrdfParseErrorView::MissingAttributeJointLimitLower(j@),
            UrdfParseError::MissingAttributeJointLimitUpper(j) => UrdfParseErrorView::MissingAttributeJointLimitUpper(j@),
            UrdfParseError::InvalidVec3 { joint, field, value } => UrdfParseErrorView::InvalidVec3 {
                joint: joint@,
                field: *field,
                value: value@,
            },
            UrdfParseError::InvalidNumber { joint, field, value } => UrdfParseErrorView::InvalidNumber {
                joint: joint@,
                field: *field,
                value: value@,
            },
            UrdfParseError::UnknownLink { joint, link } => UrdfParseErrorView::UnknownLink {
                joint: joint@,
                link: link@,
            },
            UrdfParseError::NoRootLink => UrdfParseErrorView::NoRootLink,
            UrdfParseError::MultipleRootLinks(names) => UrdfParseErrorView::MultipleRootLinks(
                names@.map_values(|s: String| s@),
            ),
            UrdfParseError::UnreachableJoints => UrdfParseErrorView::UnreachableJoints,
        }
    }
}

/// The library's error type.
#[derive(Debug)]
pub enum GalawError {
    Parse(UrdfParseError),
    JointCmdLengthMismatch { expected: usize, actual: usize },
}

} // verus!

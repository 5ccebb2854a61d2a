use vstd::prelude::*;
use vstd::hash_map::StringHashMap;

verus! {

/// Kinds of joint found in URDF files.
#[derive(Debug, Clone, Copy, PartialEq, Eq, Structural)]
pub enum JointType {
    Revolute,
    Prismatic,
    Fixed,
    Continuous,
}

/// True when `s` and `lit` hold the same characters.
pub fn text_is(s: &String, lit: &str) -> (b: bool)
    ensures
        b == (s@ == lit@),
{
    let l = lit.to_owned();
    *s == l
}

/// The joint type that a URDF `type` attribute names, if it names one.
pub open spec fn spec_joint_type(s: Seq<char>) -> Option<JointType> {
    if s == "revolute"@ {
        Some(JointType::Revolute)
    } else if s == "prismatic"@ {
        Some(JointType::Prismatic)
    } else if s == "fixed"@ {
        Some(JointType::Fixed)
    } else if s == "continuous"@ {
        Some(JointType::Continuous)
    } else {
        None
    }
}

impl JointType {
    /// Reads a URDF joint `type` attribute; anything but the four supported
    /// names is refused with the message `unknown joint type: <s>`.
    pub fn from_str(s: &str) -> (res: Result<JointType, String>)
        ensures
            match res {
                Ok(t) => spec_joint_type(s@) == Some(t),
                Err(msg) => spec_joint_type(s@) is None && msg@ == "unknown joint type: "@ + s@,
            },
    {
        let owned = s.to_owned();
        if text_is(&owned, "revolute") {
            Ok(JointType::Revolute)
        } else if text_is(&owned, "prismatic") {
            Ok(JointType::Prismatic)
        } else if text_is(&owned, "fixed") {
            Ok(JointType::Fixed)
        } else if text_is(&owned, "continuous") {
            Ok(JointType::Continuous)
        } else {
            let mut msg = "unknown joint type: ".to_owned();
            msg.append(s);
            Err(msg)
        }
    }
}

impl std::str::FromStr for JointType {
    type Err = String;

    fn from_str(s: &str) -> (res: Result<JointType, String>)
        ensures
            match res {
                Ok(t) => spec_joint_type(s@) == Some(t),
                Err(msg) => spec_joint_type(s@) is None && msg@ == "unknown joint type: "@ + s@,
            },
    {
        JointType::from_str(s)
    }
}

/// A rigid body of the robot.
#[derive(Debug, Hash, PartialEq, Eq, Clone)]
pub struct Link {
    pub name: String,
}

impl View for Link {
    type V = Seq<char>;

    open spec fn view(&self) -> Seq<char> {
        self.name@
    }
}

/// Three numbers written in an attribute such as `xyz="0 0 1"`, one text per
/// coordinate. The texts are converted to numbers where arithmetic happens.
pub struct Vec3Text {
    pub x: String,
    pub y: String,
    pub z: String,
}

impl View for Vec3Text {
    type V = (Seq<char>, Seq<char>, Seq<char>);

    open spec fn view(&self) -> (Seq<char>, Seq<char>, Seq<char>) {
        (self.x@, self.y@, self.z@)
    }
}

impl Vec3Text {
    /// The vector written as the three words `x`, `y`, `z`.
    pub fn from_words(x: &str, y: &str, z: &str) -> (r: Vec3Text)
        ensures
            r@ == (x@, y@, z@),
    {
        Vec3Text { x: x.to_owned(), y: y.to_owned(), z: z.to_owned() }
    }

    pub fn duplicate(&self) -> (r: Vec3Text)
        ensures
            r@ == self@,
    {
        Vec3Text { x: self.x.clone(), y: self.y.clone(), z: self.z.clone() }
    }
}

/// The motion range of a joint.
pub enum JointLimits {
    /// `lower` and `upper` as written in the joint's `<limit>` tag
    /// (revolute and prismatic joints).
    Bounded { lower: String, upper: String },
    /// A continuous joint: the range is taken as [-2 pi, 2 pi].
    FullTurn,
    /// A fixed joint has no range.
    Unbounded,
}

pub enum JointLimitsView {
    Bounded { lower: Seq<char>, upper: Seq<char> },
    FullTurn,
    Unbounded,
}

impl View for JointLimits {
    type V = JointLimitsView;

    open spec fn view(&self) -> JointLimitsView {
        match self {
            JointLimits::Bounded { lower, upper } => JointLimitsView::Bounded { lower: lower@, upper: upper@ },
            JointLimits::FullTurn => JointLimitsView::FullTurn,
            JointLimits::Unbounded => JointLimitsView::Unbounded,
        }
    }
}

impl JointLimits {
    pub fn duplicate(&self) -> (r: JointLimits)
        ensures
            r@ == self@,
    {
        match self {
            JointLimits::Bounded { lower, upper } => JointLimits::Bounded {
                lower: lower.clone(),
                upper: upper.clone(),
            },
            JointLimits::FullTurn => JointLimits::FullTurn,
            JointLimits::Unbounded => JointLimits::Unbounded,
        }
    }
}

/// A joint between two links.
///
/// `parent_link_idx`, `child_link_idx` and `cmd_idx` are filled in once the
/// joints are ordered from the root link; `cmd_idx` is the joint's position in
/// the command vector, `None` for fixed joints.
pub struct Joint {
    pub name: String,
    pub joint_type: JointType,
    pub parent: String,
    pub parent_link_idx: usize,
    pub child: String,
    pub child_link_idx: usize,
    pub origin_xyz: Vec3Text,
    pub origin_rpy: Vec3Text,
    /// The axis of a prismatic joint.
    pub lin_axis: Option<Vec3Text>,
    /// The axis of a revolute or continuous joint.
    pub rot_axis: Option<Vec3Text>,
    pub limits: JointLimits,
    pub cmd_idx: Option<usize>,
}

pub struct JointView {
    pub name: Seq<char>,
    pub joint_type: JointType,
    pub parent: Seq<char>,
    pub parent_link_idx: usize,
    pub child: Seq<char>,
    pub child_link_idx: usize,
    pub origin_xyz: (Seq<char>, Seq<char>, Seq<char>),
    pub origin_rpy: (Seq<char>, Seq<char>, Seq<char>),
    pub lin_axis: Option<(Seq<char>, Seq<char>, Seq<char>)>,
    pub rot_axis: Option<(Seq<char>, Seq<char>, Seq<char>)>,
    pub limits: JointLimitsView,
    pub cmd_idx: Option<usize>,
}

pub open spec fn opt_vec3_view(v: Option<Vec3Text>) -> Option<(Seq<char>, Seq<char>, Seq<char>)> {
    match v {
        Some(t) => Some(t@),
        None => None,
    }
}

impl View for Joint {
    type V = JointView;

    open spec fn view(&self) -> JointView {
        JointView {
            name: self.name@,
            joint_type: self.joint_type,
            parent: self.parent@,
            parent_link_idx: self.parent_link_idx,
            child: self.child@,
            child_link_idx: self.child_link_idx,
            origin_xyz: self.origin_xyz@,
            origin_rpy: self.origin_rpy@,
            lin_axis: opt_vec3_view(self.lin_axis),
            rot_axis: opt_vec3_view(self.rot_axis),
            limits: self.limits@,
            cmd_idx: self.cmd_idx,
        }
    }
}

fn duplicate_opt_vec3(v: &Option<Vec3Text>) -> (r: Option<Vec3Text>)
    ensures
        opt_vec3_view(r) == opt_vec3_view(*v),
{
    match v {
        Some(t) => Some(t.duplicate()),
        None => None,
    }
}

impl Joint {
    /// A copy of this joint placed in the tree: between links
    /// `parent_link_idx` and `child_link_idx`, at command slot `cmd_idx`.
    pub fn resolved(&self, parent_link_idx: usize, child_link_idx: usize, cmd_idx: Option<usize>) -> (r: Joint)
        ensures
            r@ == (JointView { parent_link_idx, child_link_idx, cmd_idx, ..self@ }),
    {
        Joint {
            name: self.name.clone(),
            joint_type: self.joint_type,
            parent: self.parent.clone(),
            parent_link_idx,
            child: self.child.clone(),
            child_link_idx,
            origin_xyz: self.origin_xyz.duplicate(),
            origin_rpy: self.origin_rpy.duplicate(),
            lin_axis: duplicate_opt_vec3(&self.lin_axis),
            rot_axis: duplicate_opt_vec3(&self.rot_axis),
            limits: self.limits.duplicate(),
            cmd_idx,
        }
    }
}

/// The index that each link name resolves to: the position of the last link
/// declared under that name.
pub open spec fn link_index_map(names: Seq<Seq<char>>) -> Map<Seq<char>, usize>
    decreases names.len(),
{
    if names.len() == 0 {
        Map::empty()
    } else {
        link_index_map(names.drop_last()).insert(names.last(), (names.len() - 1) as usize)
    }
}

/// How many of `joints` are movable (not fixed).
pub open spec fn actuated_count(joints: Seq<JointView>) -> nat
    decreases joints.len(),
{
    if joints.len() == 0 {
        0
    } else {
        actuated_count(joints.drop_last()) + if joints.last().joint_type == JointType::Fixed { 0nat } else { 1nat }
    }
}

/// How many of `joints` have a command slot.
pub open spec fn cmd_count(joints: Seq<JointView>) -> nat
    decreases joints.len(),
{
    if joints.len() == 0 {
        0
    } else {
        cmd_count(joints.drop_last()) + if joints.last().cmd_idx is Some { 1nat } else { 0nat }
    }
}

/// The command slot that each movable joint's name resolves to: that of the
/// last movable joint of that name, in tree order.
pub open spec fn joint_index_map(joints: Seq<JointView>) -> Map<Seq<char>, usize>
    decreases joints.len(),
{
    if joints.len() == 0 {
        Map::empty()
    } else {
        let prev = joint_index_map(joints.drop_last());
        match joints.last().cmd_idx {
            Some(c) => prev.insert(joints.last().name, c),
            None => prev,
        }
    }
}

/// Joints placed in a tree over `links`, in an order fit for a single pass:
/// each joint's link indices name links with the joint's parent and child
/// names; there is a root link, and each joint's parent link is the root or
/// the child link of an earlier joint; movable joints hold the command slots
/// 0, 1, 2, ... in order and fixed joints hold none.
#[verifier::opaque]
pub open spec fn joints_well_placed(links: Seq<Seq<char>>, joints: Seq<JointView>) -> bool {
    &&& forall|k: int| 0 <= k < joints.len() ==> {
        &&& (#[trigger] joints[k]).parent_link_idx < links.len()
        &&& joints[k].child_link_idx < links.len()
        &&& links[joints[k].parent_link_idx as int] == joints[k].parent
        &&& links[joints[k].child_link_idx as int] == joints[k].child
    }
    &&& exists|root: usize| #![trigger links[root as int]] root < links.len() && forall|k: int| 0 <= k < joints.len() ==> {
        ||| (#[trigger] joints[k]).parent_link_idx == root
        ||| exists|m: int| 0 <= m < k && joints[m].child_link_idx == joints[k].parent_link_idx
    }
    &&& cmd_slots_in_order(joints)
}

/// Movable joints hold the command slots 0, 1, 2, ... in order; fixed joints none.
pub open spec fn cmd_slots_in_order(joints: Seq<JointView>) -> bool {
    forall|k: int| 0 <= k < joints.len() ==> (#[trigger] joints[k]).cmd_idx == if joints[k].joint_type == JointType::Fixed {
        None
    } else {
        Some(actuated_count(joints.take(k)) as usize)
    }
}

impl ModelView {
    /// What every model that the parser returns satisfies.
    pub open spec fn well_formed(self) -> bool {
        &&& self.links.len() <= usize::MAX
        &&& self.joints.len() <= usize::MAX
        &&& joints_well_placed(self.links, self.joints)
        &&& self.link_name_to_idx == link_index_map(self.links)
        &&& self.joint_name_to_idx == joint_index_map(self.joints)
        &&& self.num_actuated_joints == actuated_count(self.joints)
    }
}

/// A parsed robot.
pub struct GalawModel {
    pub name: String,
    pub links: Vec<Link>,
    pub joints: Vec<Joint>,
    pub link_name_to_idx: StringHashMap<usize>,
    pub joint_name_to_idx: StringHashMap<usize>,
    pub num_actuated_joints: usize,
}

pub struct ModelView {
    pub name: Seq<char>,
    pub links: Seq<Seq<char>>,
    pub joints: Seq<JointView>,
    pub link_name_to_idx: Map<Seq<char>, usize>,
    pub joint_name_to_idx: Map<Seq<char>, usize>,
    pub num_actuated_joints: nat,
}

pub open spec fn links_view(links: Seq<Link>) -> Seq<Seq<char>> {
    links.map_values(|l: Link| l@)
}

pub open spec fn joints_view(joints: Seq<Joint>) -> Seq<JointView> {
    joints.map_values(|j: Joint| j@)
}

impl View for GalawModel {
    type V = ModelView;

    open spec fn view(&self) -> ModelView {
        ModelView {
            name: self.name@,
            links: links_view(self.links@),
            joints: joints_view(self.joints@),
            link_name_to_idx: self.link_name_to_idx@,
            joint_name_to_idx: self.joint_name_to_idx@,
            num_actuated_joints: self.num_actuated_joints as nat,
        }
    }
}

impl GalawModel {
    /// The index of the link called `name`.
    pub fn get_link_idx(&self, name: &str) -> (res: Option<usize>)
        ensures
            res == self.link_name_to_idx@.get(name@),
    {
        match self.link_name_to_idx.get(name) {
            Some(i) => Some(*i),
            None => None,
        }
    }

    /// The command slot of the movable joint called `name`.
    pub fn get_joint_idx(&self, name: &str) -> (res: Option<usize>)
        ensures
            res == self.joint_name_to_idx@.get(name@),
    {
        match self.joint_name_to_idx.get(name) {
            Some(i) => Some(*i),
            None => None,
        }
    }
}

} // verus!

use vstd::prelude::*;

use crate::error::GalawError;
use crate::types::GalawModel;

verus! {

/// The command that joint slot `slot` receives from `joint_cmds`; `rest` for
/// a joint without a slot.
pub open spec fn command_for<T>(slot: Option<usize>, joint_cmds: Seq<T>, rest: T) -> T {
    match slot {
        Some(i) => if i < joint_cmds.len() { joint_cmds[i as int] } else { rest },
        None => rest,
    }
}

impl GalawModel {
    /// The command of each joint, in joint order, for forward kinematics.
    ///
    /// `joint_cmds` must hold one command per movable joint, in command-slot
    /// order; otherwise the result is a `JointCmdLengthMismatch`. Each movable
    /// joint then gets the command of its slot, and each fixed joint `rest`
    /// (a fixed joint does not move, whatever its command).
    pub fn joint_commands<T: Copy>(&self, joint_cmds: &[T], rest: T) -> (res: Result<Vec<T>, GalawError>)
        ensures
            match res {
                Ok(cmds) => {
                    &&& joint_cmds@.len() == self.num_actuated_joints
                    &&& cmds@.len() == self.joints@.len()
                    &&& forall|k: int| 0 <= k < cmds@.len() ==> #[trigger] cmds@[k] == command_for(self.joints@[k].cmd_idx, joint_cmds@, rest)
                },
                Err(e) => {
                    &&& joint_cmds@.len() != self.num_actuated_joints
                    &&& e matches GalawError::JointCmdLengthMismatch { expected, actual }
                    &&& expected == self.num_actuated_joints
                    &&& actual == joint_cmds@.len()
                },
            },
    {
        if joint_cmds.len() != self.num_actuated_joints {
            return Err(GalawError::JointCmdLengthMismatch {
                expected: self.num_actuated_joints,
                actual: joint_cmds.len(),
            });
        }
        let mut cmds: Vec<T> = Vec::new();
        let n = self.joints.len();
        let mut k: usize = 0;
        while k < n
            invariant
                n == self.joints@.len(),
                0 <= k <= n,
                cmds@.len() == k,
                forall|i: int| 0 <= i < k ==> #[trigger] cmds@[i] == command_for(self.joints@[i].cmd_idx, joint_cmds@, rest),
            decreases n - k,
        {
            let cmd = match self.joints[k].cmd_idx {
                Some(i) => if i < joint_cmds.len() { joint_cmds[i] } else { rest },
                None => rest,
            };
            cmds.push(cmd);
            k = k + 1;
        }
        Ok(cmds)
    }
}

} // verus!

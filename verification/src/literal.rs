//! Building a document from the parts of its written form, in the order in
//! which they stand in the text.

use crate::bvh::{decimal_views, joint_views, nanos_to_duration, Bvh, BvhView};
use crate::channel::{Channel, ChannelType};
use crate::decimal::{truncated_to, Decimal, DecimalView};
use crate::joint::{default_joint_view, offset_view, Joint, JointName, JointView};
use mint::Vector3;
use vstd::prelude::*;
use vstd::string::StringSliceAdditionalSpecFns;

verus! {

/// Builds a document from the parts of its written form.
pub struct BvhLiteralBuilder {
    /// The document so far.
    pub bvh: Bvh,
    /// The motion index of the next channel.
    pub current_channel_index: usize,
    /// The nesting depth at which the next joint stands.
    pub current_depth: usize,
    /// The number of joints pushed.
    pub current_index: usize,
    pub encountered_hierarchy: bool,
    pub encountered_root: bool,
    pub encountered_motion: bool,
    pub encountered_num_frames: bool,
    pub encountered_frame_time: bool,
    /// The number of frames declared.
    pub num_frames: usize,
}

impl Default for BvhLiteralBuilder {
    /// A builder that holds the empty document.
    fn default() -> (builder: BvhLiteralBuilder)
        ensures
            builder.bvh@ == crate::bvh::empty_view(),
            builder.current_channel_index == 0,
            builder.current_depth == 0,
            builder.current_index == 0,
            builder.num_frames == 0,
    {
        BvhLiteralBuilder {
            bvh: Bvh::default(),
            current_channel_index: 0,
            current_depth: 0,
            current_index: 0,
            encountered_hierarchy: false,
            encountered_root: false,
            encountered_motion: false,
            encountered_num_frames: false,
            encountered_frame_time: false,
            num_frames: 0,
        }
    }
}

/// The depth of the parent of a joint at `depth`: one less, and zero for
/// depth zero.
pub open spec fn parent_depth(depth: usize) -> usize {
    if depth == 0 {
        0
    } else {
        (depth - 1) as usize
    }
}

/// Where the parent of a new joint at `depth` stands: the last joint that is
/// one level less deep, or the first joint where there is none.
pub open spec fn parent_for_depth(joints: Seq<JointView>, depth: usize) -> int
    decreases joints.len(),
{
    if joints.len() == 0 {
        0
    } else if joints.last().depth == parent_depth(depth) {
        joints.len() - 1
    } else {
        parent_for_depth(joints.drop_last(), depth)
    }
}

/// Where the parent of a new joint at `for_depth` stands.
pub fn get_parent_index(joints: &[Joint], for_depth: usize) -> (parent: usize)
    ensures
        parent == parent_for_depth(joint_views(joints@), for_depth),
{
    let wanted: usize = for_depth.saturating_sub(1);
    let ghost views = joint_views(joints@);
    let mut i: usize = joints.len();
    assert(views.subrange(0, i as int) =~= views);
    while i > 0
        invariant
            i <= joints.len(),
            views == joint_views(joints@),
            wanted == parent_depth(for_depth),
            parent_for_depth(views, for_depth) == parent_for_depth(
                views.subrange(0, i as int),
                for_depth,
            ),
        decreases i,
    {
        let ghost part = views.subrange(0, i as int);
        assert(part.last() == joints@[i - 1]@);
        assert(part.drop_last() =~= views.subrange(0, i - 1));
        if joints[i - 1].depth == wanted {
            return i - 1;
        }
        i -= 1;
    }
    0
}

/// The time in nanoseconds that `seconds` stands for, cut off towards zero:
/// zero for a negative number, and the largest value where it does not fit.
pub open spec fn seconds_to_nanos(seconds: DecimalView) -> nat {
    if seconds.negative {
        0
    } else if truncated_to(seconds, 9) <= u64::MAX {
        truncated_to(seconds, 9)
    } else {
        u64::MAX as nat
    }
}

/// The time in nanoseconds that `seconds` stands for.
pub fn fraction_seconds_to_nanos(seconds: &Decimal) -> (nanos: u64)
    ensures
        nanos == seconds_to_nanos(seconds@),
{
    if seconds.is_negative() {
        0
    } else {
        match seconds.truncated_units(9) {
            Some(nanos) => nanos,
            None => u64::MAX,
        }
    }
}

impl BvhLiteralBuilder {
    /// The five marks of what has been met in the text: the hierarchy, the
    /// root, the motion, the number of frames and the frame time.
    pub open spec fn marks(&self) -> (bool, bool, bool, bool, bool) {
        (
            self.encountered_hierarchy,
            self.encountered_root,
            self.encountered_motion,
            self.encountered_num_frames,
            self.encountered_frame_time,
        )
    }

    /// Adds the root joint: a joint named `name` at depth zero, without a
    /// parent.
    pub fn push_root(&mut self, name: &str)
        requires
            old(self).current_index < usize::MAX,
        ensures
            final(self).bvh@ == (BvhView {
                joints: old(self).bvh@.joints.push(
                    JointView { name: name.spec_bytes(), ..default_joint_view() },
                ),
                ..old(self).bvh@
            }),
            final(self).current_index == old(self).current_index + 1,
            final(self).current_channel_index == old(self).current_channel_index,
            final(self).current_depth == old(self).current_depth,
            final(self).num_frames == old(self).num_frames,
            final(self).marks() == old(self).marks(),
    {
        let mut root = Joint::default();
        root.name = JointName::from_slice(name.as_bytes());
        let ghost before = self.bvh@.joints;
        self.bvh.joints.push(root);
        self.current_index = self.current_index + 1;
        assert(self.bvh@.joints =~= before.push(root@));
        assert(self.bvh@.motion_values =~= old(self).bvh@.motion_values);
    }

    /// Adds a joint named `name` at the current depth, below the last joint
    /// that is one level less deep.
    pub fn push_joint(&mut self, name: &str)
        requires
            old(self).current_index < usize::MAX,
        ensures
            final(self).bvh@ == (BvhView {
                joints: old(self).bvh@.joints.push(
                    JointView {
                        name: name.spec_bytes(),
                        parent_index: Some(
                            parent_for_depth(old(self).bvh@.joints, old(self).current_depth) as usize,
                        ),
                        depth: old(self).current_depth,
                        ..default_joint_view()
                    },
                ),
                ..old(self).bvh@
            }),
            final(self).current_index == old(self).current_index + 1,
            final(self).current_channel_index == old(self).current_channel_index,
            final(self).current_depth == old(self).current_depth,
            final(self).num_frames == old(self).num_frames,
            final(self).marks() == old(self).marks(),
    {
        let dpth: usize = self.current_depth;
        let parent: usize = get_parent_index(self.bvh.joints.as_slice(), dpth);
        let mut joint = Joint::default();
        joint.name = JointName::from_slice(name.as_bytes());
        joint.parent_index = Some(parent);
        joint.depth = dpth;
        let ghost before = self.bvh@.joints;
        self.bvh.joints.push(joint);
        self.current_index = self.current_index + 1;
        assert(self.bvh@.joints =~= before.push(joint@));
        assert(self.bvh@.motion_values =~= old(self).bvh@.motion_values);
    }

    /// Gives the last joint one more channel, of kind `channel`, with the
    /// next motion index; where there is no joint, only the index moves on.
    pub fn push_channel(&mut self, channel: ChannelType)
        requires
            old(self).current_channel_index < usize::MAX,
        ensures
            final(self).current_channel_index == old(self).current_channel_index + 1,
            final(self).bvh@ == (BvhView {
                joints: with_channel(
                    old(self).bvh@.joints,
                    Channel { channel_type: channel, motion_index: old(self).current_channel_index },
                ),
                ..old(self).bvh@
            }),
            final(self).current_index == old(self).current_index,
            final(self).current_depth == old(self).current_depth,
            final(self).num_frames == old(self).num_frames,
            final(self).marks() == old(self).marks(),
    {
        let channel = Channel::new(channel, self.current_channel_index);
        let ghost before = self.bvh@.joints;
        match self.bvh.joints.pop() {
            Some(joint) => {
                let mut joint: Joint = joint;
                let ghost old_view = joint@;
                joint.channels.push(channel);
                assert(joint@ == (JointView {
                    channels: old_view.channels.push(channel),
                    ..old_view
                }));
                self.bvh.joints.push(joint);
                assert(self.bvh@.joints =~= with_channel(before, channel));
            },
            None => {
                assert(self.bvh@.joints =~= with_channel(before, channel));
            },
        }
        self.current_channel_index = self.current_channel_index + 1;
        assert(self.bvh@.motion_values =~= old(self).bvh@.motion_values);
    }

    /// Sets the offset of the last joint, or its end site where
    /// `is_end_site` says so; nothing changes where there is no joint.
    pub fn push_joint_offset(&mut self, offset: Vector3<Decimal>, is_end_site: bool)
        ensures
            final(self).bvh@ == (BvhView {
                joints: with_offset(old(self).bvh@.joints, offset_view(offset), is_end_site),
                ..old(self).bvh@
            }),
            final(self).current_channel_index == old(self).current_channel_index,
            final(self).current_index == old(self).current_index,
            final(self).current_depth == old(self).current_depth,
            final(self).num_frames == old(self).num_frames,
            final(self).marks() == old(self).marks(),
    {
        let ghost before = self.bvh@.joints;
        let ghost view = offset_view(offset);
        match self.bvh.joints.pop() {
            Some(joint) => {
                let mut joint: Joint = joint;
                if is_end_site {
                    joint.end_site = Some(offset);
                } else {
                    joint.offset = offset;
                }
                self.bvh.joints.push(joint);
                assert(self.bvh@.joints =~= with_offset(before, view, is_end_site));
            },
            None => {
                assert(self.bvh@.joints =~= with_offset(before, view, is_end_site));
            },
        }
        assert(self.bvh@.motion_values =~= old(self).bvh@.motion_values);
    }

    /// Sets the frame time to `frame_time_secs` seconds, cut off to whole
    /// nanoseconds.
    pub fn set_frame_time(&mut self, frame_time_secs: &Decimal)
        ensures
            final(self).bvh@ == (BvhView {
                frame_time: seconds_to_nanos(frame_time_secs@),
                ..old(self).bvh@
            }),
            final(self).current_channel_index == old(self).current_channel_index,
            final(self).current_index == old(self).current_index,
            final(self).current_depth == old(self).current_depth,
            final(self).num_frames == old(self).num_frames,
            final(self).marks() == old(self).marks(),
    {
        self.bvh.set_frame_time(nanos_to_duration(fraction_seconds_to_nanos(frame_time_secs)));
    }

    /// Declares the number of frames, and with it the number of channels:
    /// as many as have been pushed.
    pub fn set_num_frames(&mut self, num_frames: usize)
        ensures
            final(self).num_frames == num_frames,
            final(self).bvh@ == (BvhView {
                num_frames: num_frames as nat,
                num_channels: old(self).current_channel_index as nat,
                ..old(self).bvh@
            }),
            final(self).current_channel_index == old(self).current_channel_index,
            final(self).current_index == old(self).current_index,
            final(self).current_depth == old(self).current_depth,
            final(self).marks() == old(self).marks(),
    {
        self.num_frames = num_frames;
        self.bvh.num_channels = self.current_channel_index;
        self.bvh.num_frames = self.num_frames;
    }

    /// Replaces the motion table by `motion_values`.
    pub fn set_motion_values(&mut self, motion_values: Vec<Decimal>)
        ensures
            final(self).bvh@ == (BvhView {
                motion_values: decimal_views(motion_values@),
                ..old(self).bvh@
            }),
            final(self).current_channel_index == old(self).current_channel_index,
            final(self).current_index == old(self).current_index,
            final(self).current_depth == old(self).current_depth,
            final(self).num_frames == old(self).num_frames,
            final(self).marks() == old(self).marks(),
    {
        self.bvh.motion_values = motion_values;
    }

    /// Whether the motion table has one value for each channel of each
    /// frame.
    pub fn check_valid_motion(&self) -> (valid: bool)
        ensures
            valid == self.bvh@.motion_ok(),
    {
        self.bvh.has_valid_motion()
    }
}

/// `joints` with `channel` added to the channels of the last joint;
/// unchanged where there is no joint.
pub open spec fn with_channel(joints: Seq<JointView>, channel: Channel) -> Seq<JointView> {
    if joints.len() == 0 {
        joints
    } else {
        joints.update(
            joints.len() - 1,
            JointView { channels: joints.last().channels.push(channel), ..joints.last() },
        )
    }
}

/// `joints` with the offset of the last joint, or its end site, set to
/// `offset`; unchanged where there is no joint.
pub open spec fn with_offset(
    joints: Seq<JointView>,
    offset: Vector3<DecimalView>,
    is_end_site: bool,
) -> Seq<JointView> {
    if joints.len() == 0 {
        joints
    } else if is_end_site {
        joints.update(joints.len() - 1, JointView { end_site: Some(offset), ..joints.last() })
    } else {
        joints.update(joints.len() - 1, JointView { offset, ..joints.last() })
    }
}

} // verus!

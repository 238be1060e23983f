//! Building a document step by step: the root joint, then the other joints,
//! then the motion.

use crate::bvh::{decimal_views, duration_nanos, joint_views, Bvh, BvhView};
use crate::channel::{Channel, ChannelType};
use crate::decimal::{Decimal, DecimalView};
use crate::joint::{offset_view, ChannelList, Joint, JointName, JointView};
use crate::write::{bstr_as_bytes, bstr_bytes};
use bstr::BStr;
use mint::Vector3;
use std::time::Duration;
use vstd::prelude::*;

verus! {

/// The entry point for building a document.
#[derive(Default)]
pub struct Builder {}

/// The channels of the kinds given, numbered upwards from `start`.
pub open spec fn numbered(kinds: Seq<ChannelType>, start: nat) -> Seq<Channel> {
    Seq::new(
        kinds.len(),
        |i: int| Channel { channel_type: kinds[i], motion_index: (start + i) as usize },
    )
}

/// Makes the channels of one joint, numbering them upwards from
/// `num_channels`, and adds their number to it.
pub fn collect_channels(channels: &[ChannelType], num_channels: &mut usize) -> (collected:
    ChannelList)
    requires
        *old(num_channels) + channels@.len() <= usize::MAX,
    ensures
        collected@ == numbered(channels@, *old(num_channels) as nat),
        *final(num_channels) == *old(num_channels) + channels@.len(),
{
    let start: usize = *num_channels;
    let mut collected = ChannelList::new();
    let mut i: usize = 0;
    while i < channels.len()
        invariant
            i <= channels.len(),
            start + channels@.len() <= usize::MAX,
            collected@ == numbered(channels@, start as nat).subrange(0, i as int),
        decreases channels.len() - i,
    {
        collected.push(Channel::new(channels[i], start + i));
        i += 1;
        assert(collected@ =~= numbered(channels@, start as nat).subrange(0, i as int));
    }
    assert(collected@ =~= numbered(channels@, start as nat));
    *num_channels = start + channels.len();
    collected
}

/// A joint without an end site.
pub fn new_joint(
    parent_index: Option<usize>,
    name: &BStr,
    offset: Vector3<Decimal>,
    channels: ChannelList,
    depth: usize,
) -> (joint: Joint)
    ensures
        joint@ == (JointView {
            name: bstr_bytes(name),
            offset: offset_view(offset),
            channels: channels@,
            end_site: None,
            parent_index,
            depth,
        }),
{
    Joint {
        name: JointName::from_slice(bstr_as_bytes(name)),
        offset,
        channels,
        end_site: None,
        parent_index,
        depth,
    }
}

/// Why a joint could not be added.
#[derive(Clone, Copy, Debug, PartialEq, Eq, Structural)]
pub enum BuildError {
    /// The parent index `index` names none of the `len` joints pushed so
    /// far.
    OutOfRangeIndex { index: usize, len: usize },
}

/// The joints of a document under construction.
pub struct JointsBuilder {
    joints: Vec<Joint>,
    num_channels: usize,
}

impl JointsBuilder {
    #[verifier::type_invariant]
    spec fn has_root(&self) -> bool {
        self.joints@.len() >= 1
    }

    /// The joints pushed so far.
    pub closed spec fn joints(&self) -> Seq<JointView> {
        joint_views(self.joints@)
    }

    /// The number of channels of the joints pushed so far.
    pub closed spec fn num_channels(&self) -> nat {
        self.num_channels as nat
    }
}

impl Builder {
    /// Starts a document with its root joint.
    pub fn with_root_joint(name: &BStr, offset: Vector3<Decimal>, channels: &[ChannelType]) -> (builder:
        JointsBuilder)
        ensures
            builder.joints() == seq![
                JointView {
                    name: bstr_bytes(name),
                    offset: offset_view(offset),
                    channels: numbered(channels@, 0),
                    end_site: None,
                    parent_index: None,
                    depth: 0,
                },
            ],
            builder.num_channels() == channels@.len(),
    {
        let mut num_channels: usize = 0;
        let count: usize = channels.len();
        let channels = collect_channels(channels, &mut num_channels);
        let root_joint = new_joint(None, name, offset, channels, 0);
        let mut joints: Vec<Joint> = Vec::new();
        joints.push(root_joint);
        let builder = JointsBuilder { joints, num_channels };
        assert(builder.joints() =~= seq![root_joint@]);
        builder
    }
}

impl JointsBuilder {
    /// Adds a joint at `depth` whose parent is the joint pushed last.
    pub fn push_child(
        self,
        depth: usize,
        name: &BStr,
        offset: Vector3<Decimal>,
        channels: &[ChannelType],
    ) -> (builder: JointsBuilder)
        requires
            self.num_channels() + channels@.len() <= usize::MAX,
        ensures
            builder.joints() == self.joints().push(
                JointView {
                    name: bstr_bytes(name),
                    offset: offset_view(offset),
                    channels: numbered(channels@, self.num_channels()),
                    end_site: None,
                    parent_index: Some((self.joints().len() - 1) as usize),
                    depth,
                },
            ),
            builder.num_channels() == self.num_channels() + channels@.len(),
    {
        proof {
            use_type_invariant(&self);
        }
        let parent: usize = self.joints.len() - 1;
        self.push_child_with_parent(depth, name, offset, channels, parent)
    }

    /// Adds a joint at `depth` whose parent is the joint at `parent_idx`.
    pub fn push_child_with_parent(
        self,
        depth: usize,
        name: &BStr,
        offset: Vector3<Decimal>,
        channels: &[ChannelType],
        parent_idx: usize,
    ) -> (builder: JointsBuilder)
        requires
            parent_idx < self.joints().len(),
            self.num_channels() + channels@.len() <= usize::MAX,
        ensures
            builder.joints() == self.joints().push(
                JointView {
                    name: bstr_bytes(name),
                    offset: offset_view(offset),
                    channels: numbered(channels@, self.num_channels()),
                    end_site: None,
                    parent_index: Some(parent_idx),
                    depth,
                },
            ),
            builder.num_channels() == self.num_channels() + channels@.len(),
    {
        proof {
            use_type_invariant(&self);
        }
        let mut joints: Vec<Joint> = self.joints;
        let mut num_channels: usize = self.num_channels;
        let ghost before = joint_views(joints@);
        let channels = collect_channels(channels, &mut num_channels);
        let joint = new_joint(Some(parent_idx), name, offset, channels, depth);
        joints.push(joint);
        let builder = JointsBuilder { joints, num_channels };
        assert(builder.joints() =~= before.push(joint@));
        builder
    }

    /// Adds a joint as `push_child_with_parent` does, or reports that
    /// `parent_idx` names no joint pushed so far.
    pub fn try_push_child_with_parent(
        self,
        depth: usize,
        name: &BStr,
        offset: Vector3<Decimal>,
        channels: &[ChannelType],
        parent_idx: usize,
    ) -> (result: Result<JointsBuilder, BuildError>)
        requires
            self.num_channels() + channels@.len() <= usize::MAX,
        ensures
            match result {
                Ok(builder) => {
                    &&& parent_idx < self.joints().len()
                    &&& builder.joints() == self.joints().push(
                        JointView {
                            name: bstr_bytes(name),
                            offset: offset_view(offset),
                            channels: numbered(channels@, self.num_channels()),
                            end_site: None,
                            parent_index: Some(parent_idx),
                            depth,
                        },
                    )
                    &&& builder.num_channels() == self.num_channels() + channels@.len()
                },
                Err(error) => {
                    &&& parent_idx >= self.joints().len()
                    &&& error == (BuildError::OutOfRangeIndex {
                        index: parent_idx,
                        len: self.joints().len() as usize,
                    })
                },
            },
    {
        if self.has_joint(parent_idx) {
            Ok(self.push_child_with_parent(depth, name, offset, channels, parent_idx))
        } else {
            Err(BuildError::OutOfRangeIndex { index: parent_idx, len: self.joints.len() })
        }
    }

    /// Whether `parent_idx` names a joint pushed so far.
    pub fn has_joint(&self, parent_idx: usize) -> (has: bool)
        ensures
            has == (parent_idx < self.joints().len()),
    {
        parent_idx < self.joints.len()
    }

    /// Whether channels of `count` more kinds can still be numbered.
    pub fn has_room_for(&self, count: usize) -> (room: bool)
        ensures
            room == (self.num_channels() + count <= usize::MAX),
    {
        count <= usize::MAX - self.num_channels
    }

    /// Gives the joint pushed last an end site at `offset`.
    pub fn push_end(self, offset: Vector3<Decimal>) -> (builder: JointsBuilder)
        ensures
            builder.joints() == self.joints().update(
                self.joints().len() - 1,
                JointView {
                    end_site: Some(offset_view(offset)),
                    ..self.joints()[self.joints().len() - 1]
                },
            ),
            builder.num_channels() == self.num_channels(),
    {
        proof {
            use_type_invariant(&self);
        }
        let mut joints: Vec<Joint> = self.joints;
        let num_channels: usize = self.num_channels;
        let ghost before = joint_views(joints@);
        let last: Option<Joint> = joints.pop();
        let mut joint: Joint = last.unwrap();
        let ghost old_view = joint@;
        joint.end_site = Some(offset);
        assert(joint@ == (JointView { end_site: Some(offset_view(offset)), ..old_view }));
        joints.push(joint);
        let builder = JointsBuilder { joints, num_channels };
        assert(builder.joints() =~= before.update(before.len() - 1, joint@));
        builder
    }

    /// Ends the skeleton and begins the motion: `num_frames` frames that
    /// each last `frame_time`.
    pub fn with_motion(self, num_frames: usize, frame_time: Duration) -> (builder: MotionBuilder)
        ensures
            builder.joints() == self.joints(),
            builder.num_channels() == self.num_channels(),
            builder.num_frames() == num_frames,
            builder.frame_time() == duration_nanos(frame_time),
            builder.motion_values() == Seq::<DecimalView>::empty(),
    {
        let builder = MotionBuilder {
            joints_builder: self,
            frame_time,
            num_frames,
            motion_values: Vec::new(),
        };
        assert(builder.motion_values() =~= Seq::<DecimalView>::empty());
        builder
    }
}

/// The motion of a document under construction.
pub struct MotionBuilder {
    joints_builder: JointsBuilder,
    frame_time: Duration,
    num_frames: usize,
    motion_values: Vec<Decimal>,
}

impl MotionBuilder {
    /// The joints of the document.
    pub closed spec fn joints(&self) -> Seq<JointView> {
        self.joints_builder.joints()
    }

    /// The number of channels of all joints together.
    pub closed spec fn num_channels(&self) -> nat {
        self.joints_builder.num_channels()
    }

    /// The number of frames declared.
    pub closed spec fn num_frames(&self) -> nat {
        self.num_frames as nat
    }

    /// The time that one frame lasts, in nanoseconds.
    pub closed spec fn frame_time(&self) -> nat {
        duration_nanos(self.frame_time)
    }

    /// The motion values pushed so far.
    pub closed spec fn motion_values(&self) -> Seq<DecimalView> {
        decimal_views(self.motion_values@)
    }

    /// Whether `count` is the number of values that a frame must have.
    pub fn takes_frame_of(&self, count: usize) -> (takes: bool)
        ensures
            takes == (count == self.num_channels()),
    {
        count == self.joints_builder.num_channels
    }

    /// Adds one frame: one value for each channel.
    pub fn push_frame(self, frame: &[Decimal]) -> (builder: MotionBuilder)
        requires
            frame@.len() == self.num_channels(),
        ensures
            builder.joints() == self.joints(),
            builder.num_channels() == self.num_channels(),
            builder.num_frames() == self.num_frames(),
            builder.frame_time() == self.frame_time(),
            builder.motion_values() == self.motion_values() + decimal_views(frame@),
    {
        let mut motion_values: Vec<Decimal> = self.motion_values;
        let ghost before = decimal_views(motion_values@);
        let mut i: usize = 0;
        while i < frame.len()
            invariant
                i <= frame.len(),
                decimal_views(motion_values@) == before + decimal_views(frame@).subrange(
                    0,
                    i as int,
                ),
            decreases frame.len() - i,
        {
            let value: Decimal = frame[i].clone();
            let ghost earlier = motion_values@;
            motion_values.push(value);
            i += 1;
            proof {
                let now = decimal_views(motion_values@);
                let want = before + decimal_views(frame@).subrange(0, i as int);
                let sofar = decimal_views(frame@).subrange(0, i - 1);
                assert(decimal_views(earlier) == before + sofar);
                assert(decimal_views(earlier).len() == earlier.len());
                assert(now.len() == want.len());
                assert forall|k: int| 0 <= k < now.len() implies now[k] == want[k] by {
                    if k < earlier.len() {
                        assert(now[k] == decimal_views(earlier)[k]);
                        assert((before + sofar)[k] == want[k]);
                    } else {
                        assert(now[k] == value@);
                    }
                }
                assert(now =~= want);
            }
        }
        assert(decimal_views(frame@).subrange(0, i as int) =~= decimal_views(frame@));
        MotionBuilder {
            joints_builder: self.joints_builder,
            frame_time: self.frame_time,
            num_frames: self.num_frames,
            motion_values,
        }
    }

    /// The finished document, holding what was pushed.
    pub fn build(self) -> (result: Result<Bvh, ()>)
        ensures
            result is Ok,
            result.unwrap()@ == (BvhView {
                joints: self.joints(),
                motion_values: self.motion_values(),
                num_frames: self.num_frames(),
                num_channels: self.num_channels(),
                frame_time: self.frame_time(),
            }),
    {
        let mut bvh = Bvh::default();
        bvh.joints = self.joints_builder.joints;
        bvh.set_frame_time(self.frame_time);
        bvh.num_frames = self.num_frames;
        bvh.num_channels = self.joints_builder.num_channels;
        bvh.motion_values = self.motion_values;
        Ok(bvh)
    }
}

} // verus!

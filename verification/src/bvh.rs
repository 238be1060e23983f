//! The document: the skeleton's joints in preorder, and the motion table.

use crate::decimal::{Decimal, DecimalView};
use crate::joint::{Joint, JointView};
use std::time::Duration;
use vstd::prelude::*;

verus! {

/// The whole nanoseconds that a duration lasts.
pub uninterp spec fn duration_nanos(duration: Duration) -> nat;

/// `Duration::as_nanos`: the duration in whole nanoseconds.
#[verifier::external_body]
fn duration_as_nanos(duration: &Duration) -> (nanos: u128)
    ensures
        nanos == duration_nanos(*duration),
{
    duration.as_nanos()
}

/// `Duration::from_nanos`: the duration that lasts `nanos` nanoseconds.
#[verifier::external_body]
fn duration_from_nanos(nanos: u64) -> (duration: Duration)
    ensures
        duration_nanos(duration) == nanos,
{
    Duration::from_nanos(nanos)
}

/// The duration that lasts `nanos` nanoseconds.
pub fn nanos_to_duration(nanos: u64) -> (duration: Duration)
    ensures
        duration_nanos(duration) == nanos,
{
    duration_from_nanos(nanos)
}

/// What a document is, in plain values.
pub struct BvhView {
    pub joints: Seq<JointView>,
    pub motion_values: Seq<DecimalView>,
    pub num_frames: nat,
    pub num_channels: nat,
    pub frame_time: nat,
}

/// A skeleton and its motion.
pub struct Bvh {
    /// The joints in preorder: every joint before its descendants.
    pub joints: Vec<Joint>,
    /// The motion table, frame after frame, `num_channels` values each.
    pub motion_values: Vec<Decimal>,
    /// The number of frames.
    pub num_frames: usize,
    /// The number of channels of all joints together.
    pub num_channels: usize,
    /// The time that one frame lasts.
    pub frame_time: Duration,
}

/// The views of a list of joints.
pub open spec fn joint_views(joints: Seq<Joint>) -> Seq<JointView> {
    Seq::new(joints.len(), |i: int| joints[i]@)
}

/// The views of a list of numbers.
pub open spec fn decimal_views(values: Seq<Decimal>) -> Seq<DecimalView> {
    Seq::new(values.len(), |i: int| values[i]@)
}

impl View for Bvh {
    type V = BvhView;

    open spec fn view(&self) -> BvhView {
        BvhView {
            joints: joint_views(self.joints@),
            motion_values: decimal_views(self.motion_values@),
            num_frames: self.num_frames as nat,
            num_channels: self.num_channels as nat,
            frame_time: duration_nanos(self.frame_time),
        }
    }
}

/// Whether joint `i` stands where preorder puts it: the first joint is the
/// root at depth zero; every other joint has as parent the nearest earlier
/// joint that is one level less deep.
pub open spec fn joint_placed(joints: Seq<JointView>, i: int) -> bool {
    if i == 0 {
        joints[0].parent_index.is_none() && joints[0].depth == 0
    } else {
        match joints[i].parent_index {
            Some(p) => {
                &&& p < i
                &&& joints[p as int].depth + 1 == joints[i].depth
                &&& forall|j: int| p < j < i ==> joints[j].depth >= joints[i].depth
            },
            None => false,
        }
    }
}

/// The number of channels of the first `count` joints.
pub open spec fn channels_before(joints: Seq<JointView>, count: int) -> nat
    decreases count,
{
    if count <= 0 {
        0
    } else {
        channels_before(joints, count - 1) + joints[count - 1].channels.len()
    }
}

/// Whether the motion indices, read off joint after joint and channel after
/// channel, count up from zero without a gap.
pub open spec fn indices_in_order(joints: Seq<JointView>) -> bool {
    forall|i: int, c: int|
        0 <= i < joints.len() && 0 <= c < joints[i].channels.len() ==> (
        #[trigger] joints[i].channels[c]).motion_index == channels_before(joints, i) + c
}

impl BvhView {
    /// Whether the joints form a tree in preorder.
    pub open spec fn hierarchy_ok(self) -> bool {
        forall|i: int| 0 <= i < self.joints.len() ==> joint_placed(self.joints, i)
    }

    /// Whether the motion table has `num_frames` rows of `num_channels`
    /// values.
    pub open spec fn motion_ok(self) -> bool {
        self.motion_values.len() == self.num_frames * self.num_channels
    }

    /// Whether the channel count is that of all joints together.
    pub open spec fn channel_count_ok(self) -> bool {
        self.num_channels == channels_before(self.joints, self.joints.len() as int)
    }

    /// Whether the document is valid: a preorder tree, channels counted and
    /// numbered in order, and a motion table of the declared shape.
    pub open spec fn well_formed(self) -> bool {
        &&& self.hierarchy_ok()
        &&& self.channel_count_ok()
        &&& self.motion_ok()
        &&& indices_in_order(self.joints)
    }

    /// The values of frame `frame`.
    pub open spec fn frame(self, frame: int) -> Seq<DecimalView> {
        self.motion_values.subrange(frame * self.num_channels, (frame + 1) * self.num_channels)
    }
}

/// Frame `frame` lies inside a motion table of the declared shape.
pub proof fn lemma_frame_bounds(frames: nat, channels: nat, frame: nat)
    requires
        frame < frames,
    ensures
        0 <= frame * channels <= (frame + 1) * channels <= frames * channels,
        (frame + 1) * channels == frame * channels + channels,
{
    assert(frame * channels <= (frame + 1) * channels <= frames * channels) by (nonlinear_arith)
        requires
            frame < frames,
    ;
    assert((frame + 1) * channels == frame * channels + channels) by (nonlinear_arith);
    assert(0 <= frame * channels) by (nonlinear_arith);
}

impl Bvh {
    /// The joints, in preorder.
    pub fn joints(&self) -> (joints: &[Joint])
        ensures
            joints@ == self.joints@,
    {
        self.joints.as_slice()
    }

    /// The root joint, where the skeleton has one.
    pub fn root_joint(&self) -> (root: Option<&Joint>)
        ensures
            match root {
                Some(joint) => self.joints@.len() > 0 && *joint == self.joints@[0],
                None => self.joints@.len() == 0,
            },
    {
        if self.joints.len() > 0 {
            Some(&self.joints[0])
        } else {
            None
        }
    }

    /// The number of frames.
    pub fn num_frames(&self) -> (frames: usize)
        ensures
            frames == self@.num_frames,
    {
        self.num_frames
    }

    /// The number of channels of all joints together.
    pub fn num_channels(&self) -> (channels: usize)
        ensures
            channels == self@.num_channels,
    {
        self.num_channels
    }

    /// The time that one frame lasts.
    pub fn frame_time(&self) -> (frame_time: &Duration)
        ensures
            duration_nanos(*frame_time) == self@.frame_time,
    {
        &self.frame_time
    }

    /// The time that one frame lasts, in nanoseconds.
    pub fn frame_time_nanos(&self) -> (nanos: u128)
        ensures
            nanos == self@.frame_time,
    {
        duration_as_nanos(&self.frame_time)
    }

    /// Sets the time that one frame lasts.
    pub fn set_frame_time(&mut self, frame_time: Duration)
        ensures
            final(self)@ == (BvhView { frame_time: duration_nanos(frame_time), ..old(self)@ }),
    {
        self.frame_time = frame_time;
    }

    /// Whether the motion table has the declared shape: `num_frames` rows
    /// of `num_channels` values.
    pub fn has_valid_motion(&self) -> (valid: bool)
        ensures
            valid == self@.motion_ok(),
    {
        assert(self@.motion_values.len() == self.motion_values@.len());
        let len: usize = self.motion_values.len();
        match self.num_frames.checked_mul(self.num_channels) {
            Some(cells) => len == cells,
            None => false,
        }
    }

    /// The values of frame `frame`, one per channel in motion-index order.
    pub fn frame(&self, frame: usize) -> (values: &[Decimal])
        requires
            self@.motion_ok(),
            frame < self@.num_frames,
        ensures
            decimal_views(values@) == self@.frame(frame as int),
    {
        let total: usize = self.motion_values.len();
        proof {
            lemma_frame_bounds(self.num_frames as nat, self.num_channels as nat, frame as nat);
            assert(self@.motion_values.len() == total);
        }
        let from: usize = frame * self.num_channels;
        let values: &[Decimal] = vstd::slice::slice_subrange(
            self.motion_values.as_slice(),
            from,
            from + self.num_channels,
        );
        assert(decimal_views(values@) =~= self@.frame(frame as int));
        values
    }
}

/// The channels before a joint are no more than those before a later
/// joint.
pub proof fn lemma_channels_before_monotonic(joints: Seq<JointView>, i: int, j: int)
    requires
        0 <= i <= j,
    ensures
        channels_before(joints, i) <= channels_before(joints, j),
    decreases j - i,
{
    if i < j {
        lemma_channels_before_monotonic(joints, i, j - 1);
    }
}

/// Whether joint `i` stands where preorder puts it.
fn joint_is_placed(joints: &Vec<Joint>, i: usize) -> (placed: bool)
    requires
        i < joints@.len(),
    ensures
        placed == joint_placed(joint_views(joints@), i as int),
{
    let ghost views = joint_views(joints@);
    assert(views[i as int] == joints@[i as int]@);
    if i == 0 {
        return joints[0].parent_index.is_none() && joints[0].depth == 0;
    }
    match joints[i].parent_index {
        None => false,
        Some(p) => {
            if p >= i {
                return false;
            }
            assert(views[p as int] == joints@[p as int]@);
            let depth: usize = joints[i].depth;
            if depth == 0 || joints[p].depth != depth - 1 {
                return false;
            }
            let mut j: usize = p + 1;
            while j < i
                invariant
                    p < j <= i,
                    0 < i < joints@.len(),
                    views == joint_views(joints@),
                    depth == views[i as int].depth,
                    views[i as int].parent_index == Some(p),
                    views[p as int].depth + 1 == depth,
                    forall|k: int| p < k < j ==> views[k].depth >= depth,
                decreases i - j,
            {
                assert(views[j as int] == joints@[j as int]@);
                if joints[j].depth < depth {
                    assert(!(views[j as int].depth >= views[i as int].depth));
                    return false;
                }
                j += 1;
            }
            true
        },
    }
}

/// Whether the channels of joint `i` are numbered upwards from `start`.
fn joint_is_numbered(joints: &Vec<Joint>, i: usize, start: usize) -> (numbered: bool)
    requires
        i < joints@.len(),
    ensures
        numbered == (forall|c: int|
            0 <= c < joint_views(joints@)[i as int].channels.len() ==> (#[trigger] joint_views(
                joints@,
            )[i as int].channels[c]).motion_index == start + c),
{
    let ghost views = joint_views(joints@);
    assert(views[i as int] == joints@[i as int]@);
    let channels = joints[i].channels.as_slice();
    let mut c: usize = 0;
    while c < channels.len()
        invariant
            c <= channels.len(),
            i < joints@.len(),
            views == joint_views(joints@),
            channels@ == views[i as int].channels,
            forall|k: int| 0 <= k < c ==> (#[trigger] channels@[k]).motion_index == start + k,
        decreases channels.len() - c,
    {
        if c > usize::MAX - start || channels[c].motion_index != start + c {
            assert(views[i as int].channels[c as int].motion_index != start + c);
            return false;
        }
        c += 1;
    }
    true
}

impl Bvh {
    /// Whether the document is valid: its joints form a tree in preorder,
    /// its channels are counted and numbered in order without a gap, and
    /// its motion table has one value for each channel of each frame.
    pub fn is_valid(&self) -> (valid: bool)
        ensures
            valid == self@.well_formed(),
    {
        let ghost views = joint_views(self.joints@);
        let count: usize = self.joints.len();
        let mut channels: usize = 0;
        let mut i: usize = 0;
        while i < count
            invariant
                i <= count,
                count == self.joints@.len(),
                views == joint_views(self.joints@),
                channels == channels_before(views, i as int),
                forall|k: int| 0 <= k < i ==> joint_placed(views, k),
                forall|k: int, c: int|
                    0 <= k < i && 0 <= c < views[k].channels.len() ==> (
                    #[trigger] views[k].channels[c]).motion_index == channels_before(views, k) + c,
            decreases count - i,
        {
            assert(views[i as int] == self.joints@[i as int]@);
            if !joint_is_placed(&self.joints, i) {
                return false;
            }
            if !joint_is_numbered(&self.joints, i, channels) {
                return false;
            }
            let more: usize = self.joints[i].channels.len();
            if more > usize::MAX - channels {
                proof {
                    lemma_channels_before_monotonic(views, i + 1, count as int);
                }
                return false;
            }
            channels = channels + more;
            i += 1;
        }
        channels == self.num_channels && self.has_valid_motion()
    }
}

impl Bvh {
    /// The frames, in order: for each the values of its channels.
    pub fn frames(&self) -> (frames: Vec<&[Decimal]>)
        requires
            self@.motion_ok(),
        ensures
            frames@.len() == self@.num_frames,
            forall|f: int|
                0 <= f < frames@.len() ==> decimal_views((#[trigger] frames@[f])@) == self@.frame(f),
    {
        let mut frames: Vec<&[Decimal]> = Vec::new();
        let mut f: usize = 0;
        while f < self.num_frames
            invariant
                f <= self.num_frames,
                self@.motion_ok(),
                frames@.len() == f,
                forall|k: int|
                    0 <= k < f ==> decimal_views((#[trigger] frames@[k])@) == self@.frame(k),
            decreases self.num_frames - f,
        {
            frames.push(self.frame(f));
            f += 1;
        }
        frames
    }
}

impl Default for Bvh {
    /// The empty document: no joints, no frames, a frame time of zero.
    fn default() -> (bvh: Bvh)
        ensures
            bvh@ == empty_view(),
            bvh@.well_formed(),
    {
        let bvh = Bvh {
            joints: Vec::new(),
            motion_values: Vec::new(),
            num_frames: 0,
            num_channels: 0,
            frame_time: nanos_to_duration(0),
        };
        assert(bvh@.joints =~= Seq::<JointView>::empty());
        assert(bvh@.motion_values =~= Seq::<DecimalView>::empty());
        bvh
    }
}

/// The empty document.
pub open spec fn empty_view() -> BvhView {
    BvhView {
        joints: Seq::empty(),
        motion_values: Seq::empty(),
        num_frames: 0,
        num_channels: 0,
        frame_time: 0,
    }
}

} // verus!

//! A joint of the skeleton, and the two small inline collections it holds.

use crate::channel::Channel;
use crate::decimal::{Decimal, DecimalView};
use mint::Vector3;
use smallvec::SmallVec;
use vstd::prelude::*;

verus! {

/// `mint::Vector3`, the triple that holds an offset. Its three fields are
/// public, and Verus reads them as they are.
#[verifier::external_type_specification]
pub struct ExVector3<T>(Vector3<T>);

/// The name of a joint: a byte string, which need not be valid UTF-8. It is
/// held in a `smallvec::SmallVec`, inline while it is short; Verus does not
/// look into that vector and knows its content as `joint_name_bytes`.
#[verifier::external_body]
pub struct JointName {
    bytes: SmallVec<[u8; 24]>,
}

/// The channels of a joint, in order. They are held in a
/// `smallvec::SmallVec`, inline up to six; Verus does not look into that
/// vector and knows its content as `channel_list_items`.
#[verifier::external_body]
pub struct ChannelList {
    items: SmallVec<[Channel; 6]>,
}

/// The bytes that a joint name holds.
pub uninterp spec fn joint_name_bytes(name: JointName) -> Seq<u8>;

/// The channels that a channel list holds, in order.
pub uninterp spec fn channel_list_items(list: ChannelList) -> Seq<Channel>;

impl View for JointName {
    type V = Seq<u8>;

    open spec fn view(&self) -> Seq<u8> {
        joint_name_bytes(*self)
    }
}

impl View for ChannelList {
    type V = Seq<Channel>;

    open spec fn view(&self) -> Seq<Channel> {
        channel_list_items(*self)
    }
}

/// `SmallVec::from_slice`: the new vector holds a copy of the slice.
#[verifier::external_body]
fn name_from_slice(bytes: &[u8]) -> (name: JointName)
    ensures
        joint_name_bytes(name) == bytes@,
{
    JointName { bytes: SmallVec::from_slice(bytes) }
}

/// `SmallVec::as_slice`: the slice is the whole content of the vector.
#[verifier::external_body]
fn name_as_slice(name: &JointName) -> (bytes: &[u8])
    ensures
        bytes@ == joint_name_bytes(*name),
{
    name.bytes.as_slice()
}

/// `SmallVec::new`: the new vector is empty.
#[verifier::external_body]
fn channels_new() -> (list: ChannelList)
    ensures
        channel_list_items(list) == Seq::<Channel>::empty(),
{
    ChannelList { items: SmallVec::new() }
}

/// `SmallVec::push`: the item is added at the end, and nothing else changes.
#[verifier::external_body]
fn channels_push(list: &mut ChannelList, channel: Channel)
    ensures
        channel_list_items(*final(list)) == channel_list_items(*old(list)).push(channel),
{
    list.items.push(channel)
}

/// `SmallVec::as_slice`: the slice is the whole content of the vector.
#[verifier::external_body]
fn channels_as_slice(list: &ChannelList) -> (items: &[Channel])
    ensures
        items@ == channel_list_items(*list),
{
    list.items.as_slice()
}

impl JointName {
    /// A name that holds a copy of `bytes`.
    pub fn from_slice(bytes: &[u8]) -> (name: JointName)
        ensures
            name@ == bytes@,
    {
        name_from_slice(bytes)
    }

    /// The bytes of the name.
    pub fn as_slice(&self) -> (bytes: &[u8])
        ensures
            bytes@ == self@,
    {
        name_as_slice(self)
    }

    /// The number of bytes in the name.
    pub fn len(&self) -> (len: usize)
        ensures
            len == self@.len(),
    {
        self.as_slice().len()
    }
}

impl Clone for JointName {
    fn clone(&self) -> (copy: JointName)
        ensures
            copy@ == self@,
    {
        JointName::from_slice(self.as_slice())
    }
}

impl Default for JointName {
    fn default() -> (name: JointName)
        ensures
            name@ == Seq::<u8>::empty(),
    {
        let none: [u8; 0] = [];
        let name = JointName::from_slice(none.as_slice());
        assert(name@ =~= Seq::<u8>::empty());
        name
    }
}

impl ChannelList {
    /// A list without channels.
    pub fn new() -> (list: ChannelList)
        ensures
            list@ == Seq::<Channel>::empty(),
    {
        channels_new()
    }

    /// Adds `channel` at the end of the list.
    pub fn push(&mut self, channel: Channel)
        ensures
            final(self)@ == old(self)@.push(channel),
    {
        channels_push(self, channel)
    }

    /// The channels, in order.
    pub fn as_slice(&self) -> (items: &[Channel])
        ensures
            items@ == self@,
    {
        channels_as_slice(self)
    }

    /// The number of channels.
    pub fn len(&self) -> (len: usize)
        ensures
            len == self@.len(),
    {
        self.as_slice().len()
    }

    /// The channel at `index`.
    pub fn get(&self, index: usize) -> (channel: Channel)
        requires
            index < self@.len(),
        ensures
            channel == self@[index as int],
    {
        self.as_slice()[index]
    }
}

impl Clone for ChannelList {
    fn clone(&self) -> (copy: ChannelList)
        ensures
            copy@ == self@,
    {
        let items: &[Channel] = self.as_slice();
        let mut copy = ChannelList::new();
        let mut i: usize = 0;
        while i < items.len()
            invariant
                i <= items.len(),
                items@ == self@,
                copy@ == self@.subrange(0, i as int),
            decreases items.len() - i,
        {
            copy.push(items[i]);
            i += 1;
            assert(copy@ =~= self@.subrange(0, i as int));
        }
        assert(self@.subrange(0, i as int) =~= self@);
        copy
    }
}

impl Default for ChannelList {
    fn default() -> (list: ChannelList)
        ensures
            list@ == Seq::<Channel>::empty(),
    {
        ChannelList::new()
    }
}

/// What an offset is: its three coordinates as numbers.
pub open spec fn offset_view(offset: Vector3<Decimal>) -> Vector3<DecimalView> {
    Vector3 { x: offset.x@, y: offset.y@, z: offset.z@ }
}

/// What an optional offset is.
pub open spec fn end_site_view(end_site: Option<Vector3<Decimal>>) -> Option<
    Vector3<DecimalView>,
> {
    match end_site {
        Some(offset) => Some(offset_view(offset)),
        None => None,
    }
}

/// Copies an offset.
pub fn clone_offset(offset: &Vector3<Decimal>) -> (copy: Vector3<Decimal>)
    ensures
        offset_view(copy) == offset_view(*offset),
{
    Vector3 { x: offset.x.clone(), y: offset.y.clone(), z: offset.z.clone() }
}

/// The offset with all three coordinates zero.
pub fn zero_offset() -> (offset: Vector3<Decimal>)
    ensures
        offset_view(offset) == zero_offset_view(),
{
    Vector3 { x: Decimal::zero(), y: Decimal::zero(), z: Decimal::zero() }
}

pub open spec fn zero_offset_view() -> Vector3<DecimalView> {
    let zero = DecimalView { negative: false, mantissa: 0, scale: 0 };
    Vector3 { x: zero, y: zero, z: zero }
}

/// What a joint is, in plain values.
pub struct JointView {
    pub name: Seq<u8>,
    pub offset: Vector3<DecimalView>,
    pub channels: Seq<Channel>,
    pub end_site: Option<Vector3<DecimalView>>,
    pub parent_index: Option<usize>,
    pub depth: usize,
}

/// A joint of the skeleton.
pub struct Joint {
    /// Name of the joint.
    pub name: JointName,
    /// Offset of the joint from its parent.
    pub offset: Vector3<Decimal>,
    /// The channels that animate the joint.
    pub channels: ChannelList,
    /// The offset of the end site, where the joint has one.
    pub end_site: Option<Vector3<Decimal>>,
    /// Where the parent stands in the skeleton's joint list; `None` for the
    /// root.
    pub parent_index: Option<usize>,
    /// How deep the joint is nested; the root has depth zero.
    pub depth: usize,
}

impl View for Joint {
    type V = JointView;

    open spec fn view(&self) -> JointView {
        JointView {
            name: self.name@,
            offset: offset_view(self.offset),
            channels: self.channels@,
            end_site: end_site_view(self.end_site),
            parent_index: self.parent_index,
            depth: self.depth,
        }
    }
}

impl Joint {
    /// Whether this is the root joint: the one without a parent.
    pub fn is_root(&self) -> (root: bool)
        ensures
            root == self@.parent_index.is_none(),
    {
        self.parent_index.is_none()
    }

    /// Whether this joint ends a chain: whether it has an end site.
    pub fn is_end_joint(&self) -> (end: bool)
        ensures
            end == self@.end_site.is_some(),
    {
        self.end_site.is_some()
    }

    /// Where the parent stands in the joint list, or `None` for the root.
    pub fn parent_index(&self) -> (parent: Option<usize>)
        ensures
            parent == self@.parent_index,
    {
        self.parent_index
    }

    /// The offset of the end site, where the joint has one.
    pub fn end_site(&self) -> (end_site: Option<Vector3<Decimal>>)
        ensures
            end_site_view(end_site) == self@.end_site,
    {
        match &self.end_site {
            Some(offset) => Some(clone_offset(offset)),
            None => None,
        }
    }

    /// How deep the joint is nested; the root has depth zero.
    pub fn depth(&self) -> (depth: usize)
        ensures
            depth == self@.depth,
    {
        self.depth
    }
}

impl Default for Joint {
    /// A root joint without name, channels or end site, at the origin.
    fn default() -> (joint: Joint)
        ensures
            joint@ == default_joint_view(),
    {
        Joint {
            name: JointName::default(),
            offset: zero_offset(),
            channels: ChannelList::default(),
            end_site: None,
            parent_index: None,
            depth: 0,
        }
    }
}

pub open spec fn default_joint_view() -> JointView {
    JointView {
        name: Seq::empty(),
        offset: zero_offset_view(),
        channels: Seq::empty(),
        end_site: None,
        parent_index: None,
        depth: 0,
    }
}

impl Clone for Joint {
    fn clone(&self) -> (copy: Joint)
        ensures
            copy@ == self@,
    {
        Joint {
            name: self.name.clone(),
            offset: clone_offset(&self.offset),
            channels: self.channels.clone(),
            end_site: self.end_site(),
            parent_index: self.parent_index,
            depth: self.depth,
        }
    }
}

} // verus!

//! The keywords of the format, as bytes.

use vstd::prelude::*;

verus! {

/// `HIERARCHY`
pub open spec fn word_hierarchy() -> Seq<u8> {
    seq!['H' as u8, 'I' as u8, 'E' as u8, 'R' as u8, 'A' as u8, 'R' as u8, 'C' as u8, 'H' as u8, 'Y' as u8]
}

/// `HIERARCHY`
pub fn hierarchy_word() -> (word: [u8; 9])
    ensures
        word@ == word_hierarchy(),
{
    let word: [u8; 9] = ['H' as u8, 'I' as u8, 'E' as u8, 'R' as u8, 'A' as u8, 'R' as u8, 'C' as u8, 'H' as u8, 'Y' as u8];
    assert(word@ =~= word_hierarchy());
    word
}

/// `ROOT`
pub open spec fn word_root() -> Seq<u8> {
    seq!['R' as u8, 'O' as u8, 'O' as u8, 'T' as u8]
}

/// `ROOT`
pub fn root_word() -> (word: [u8; 4])
    ensures
        word@ == word_root(),
{
    let word: [u8; 4] = ['R' as u8, 'O' as u8, 'O' as u8, 'T' as u8];
    assert(word@ =~= word_root());
    word
}

/// `JOINT`
pub open spec fn word_joint() -> Seq<u8> {
    seq!['J' as u8, 'O' as u8, 'I' as u8, 'N' as u8, 'T' as u8]
}

/// `JOINT`
pub fn joint_word() -> (word: [u8; 5])
    ensures
        word@ == word_joint(),
{
    let word: [u8; 5] = ['J' as u8, 'O' as u8, 'I' as u8, 'N' as u8, 'T' as u8];
    assert(word@ =~= word_joint());
    word
}

/// `End`
pub open spec fn word_end() -> Seq<u8> {
    seq!['E' as u8, 'n' as u8, 'd' as u8]
}

/// `End`
pub fn end_word() -> (word: [u8; 3])
    ensures
        word@ == word_end(),
{
    let word: [u8; 3] = ['E' as u8, 'n' as u8, 'd' as u8];
    assert(word@ =~= word_end());
    word
}

/// `Site`
pub open spec fn word_site() -> Seq<u8> {
    seq!['S' as u8, 'i' as u8, 't' as u8, 'e' as u8]
}

/// `Site`
pub fn site_word() -> (word: [u8; 4])
    ensures
        word@ == word_site(),
{
    let word: [u8; 4] = ['S' as u8, 'i' as u8, 't' as u8, 'e' as u8];
    assert(word@ =~= word_site());
    word
}

/// `OFFSET`
pub open spec fn word_offset() -> Seq<u8> {
    seq!['O' as u8, 'F' as u8, 'F' as u8, 'S' as u8, 'E' as u8, 'T' as u8]
}

/// `OFFSET`
pub fn offset_word() -> (word: [u8; 6])
    ensures
        word@ == word_offset(),
{
    let word: [u8; 6] = ['O' as u8, 'F' as u8, 'F' as u8, 'S' as u8, 'E' as u8, 'T' as u8];
    assert(word@ =~= word_offset());
    word
}

/// `CHANNELS`
pub open spec fn word_channels() -> Seq<u8> {
    seq!['C' as u8, 'H' as u8, 'A' as u8, 'N' as u8, 'N' as u8, 'E' as u8, 'L' as u8, 'S' as u8]
}

/// `CHANNELS`
pub fn channels_word() -> (word: [u8; 8])
    ensures
        word@ == word_channels(),
{
    let word: [u8; 8] = ['C' as u8, 'H' as u8, 'A' as u8, 'N' as u8, 'N' as u8, 'E' as u8, 'L' as u8, 'S' as u8];
    assert(word@ =~= word_channels());
    word
}

/// `MOTION`
pub open spec fn word_motion() -> Seq<u8> {
    seq!['M' as u8, 'O' as u8, 'T' as u8, 'I' as u8, 'O' as u8, 'N' as u8]
}

/// `MOTION`
pub fn motion_word() -> (word: [u8; 6])
    ensures
        word@ == word_motion(),
{
    let word: [u8; 6] = ['M' as u8, 'O' as u8, 'T' as u8, 'I' as u8, 'O' as u8, 'N' as u8];
    assert(word@ =~= word_motion());
    word
}

/// `Frames:`
pub open spec fn word_frames() -> Seq<u8> {
    seq!['F' as u8, 'r' as u8, 'a' as u8, 'm' as u8, 'e' as u8, 's' as u8, ':' as u8]
}

/// `Frames:`
pub fn frames_word() -> (word: [u8; 7])
    ensures
        word@ == word_frames(),
{
    let word: [u8; 7] = ['F' as u8, 'r' as u8, 'a' as u8, 'm' as u8, 'e' as u8, 's' as u8, ':' as u8];
    assert(word@ =~= word_frames());
    word
}

/// `Frame`
pub open spec fn word_frame() -> Seq<u8> {
    seq!['F' as u8, 'r' as u8, 'a' as u8, 'm' as u8, 'e' as u8]
}

/// `Frame`
pub fn frame_word() -> (word: [u8; 5])
    ensures
        word@ == word_frame(),
{
    let word: [u8; 5] = ['F' as u8, 'r' as u8, 'a' as u8, 'm' as u8, 'e' as u8];
    assert(word@ =~= word_frame());
    word
}

/// `Time:`
pub open spec fn word_time() -> Seq<u8> {
    seq!['T' as u8, 'i' as u8, 'm' as u8, 'e' as u8, ':' as u8]
}

/// `Time:`
pub fn time_word() -> (word: [u8; 5])
    ensures
        word@ == word_time(),
{
    let word: [u8; 5] = ['T' as u8, 'i' as u8, 'm' as u8, 'e' as u8, ':' as u8];
    assert(word@ =~= word_time());
    word
}

/// `{`
pub open spec fn word_open() -> Seq<u8> {
    seq!['{' as u8]
}

/// `{`
pub fn open_word() -> (word: [u8; 1])
    ensures
        word@ == word_open(),
{
    let word: [u8; 1] = ['{' as u8];
    assert(word@ =~= word_open());
    word
}

/// `}`
pub open spec fn word_close() -> Seq<u8> {
    seq!['}' as u8]
}

/// `}`
pub fn close_word() -> (word: [u8; 1])
    ensures
        word@ == word_close(),
{
    let word: [u8; 1] = ['}' as u8];
    assert(word@ =~= word_close());
    word
}

/// Whether two byte strings are equal.
pub fn bytes_equal(a: &[u8], b: &[u8]) -> (equal: bool)
    ensures
        equal == (a@ == b@),
{
    if a.len() != b.len() {
        return false;
    }
    let mut i: usize = 0;
    while i < a.len()
        invariant
            i <= a.len(),
            a.len() == b.len(),
            a@.subrange(0, i as int) == b@.subrange(0, i as int),
        decreases a.len() - i,
    {
        if a[i] != b[i] {
            return false;
        }
        i += 1;
        assert(a@.subrange(0, i as int) =~= a@.subrange(0, i - 1).push(a@[i - 1]));
        assert(b@.subrange(0, i as int) =~= b@.subrange(0, i - 1).push(b@[i - 1]));
    }
    assert(a@ =~= a@.subrange(0, i as int));
    assert(b@ =~= b@.subrange(0, i as int));
    true
}

} // verus!

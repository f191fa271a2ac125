//! The flat binary layout of a point cloud.
//!
//! A cloud is stored as its points one after the other, each as twelve
//! bytes: the IEEE-754 binary32 encodings of x, y and z, least significant
//! byte first. There is no header, no count and no padding.

use vstd::prelude::*;

verus! {

/// Where a cloud is kept unless the caller says otherwise.
pub const POINTS_FILE: &'static str = "maps/points.bin";

/// A point as the layout holds it: three coordinates, each the binary32
/// encoding of its value.
#[derive(Clone, Copy, Debug, PartialEq, Eq, Structural)]
pub struct PackedPoint {
    /// First coordinate.
    pub x: u32,
    /// Second coordinate.
    pub y: u32,
    /// Third coordinate.
    pub z: u32,
}

/// The four bytes of a word, least significant first.
pub open spec fn word_bytes(word: u32) -> Seq<u8> {
    seq![
        (word & 0xff) as u8,
        ((word >> 8) & 0xff) as u8,
        ((word >> 16) & 0xff) as u8,
        ((word >> 24) & 0xff) as u8,
    ]
}

/// The word whose bytes, least significant first, are `b0` to `b3`.
pub open spec fn word_of(b0: u8, b1: u8, b2: u8, b3: u8) -> u32 {
    (b0 as u32) | ((b1 as u32) << 8) | ((b2 as u32) << 16) | ((b3 as u32) << 24)
}

/// The word that starts at byte `at` of `bytes`.
pub open spec fn word_at(bytes: Seq<u8>, at: int) -> u32 {
    word_of(bytes[at], bytes[at + 1], bytes[at + 2], bytes[at + 3])
}

/// The twelve bytes of a point.
pub open spec fn record(point: PackedPoint) -> Seq<u8> {
    word_bytes(point.x) + word_bytes(point.y) + word_bytes(point.z)
}

/// The bytes of a cloud: the records of its points, in order.
pub open spec fn encoded(points: Seq<PackedPoint>) -> Seq<u8>
    decreases points.len(),
{
    if points.len() == 0 {
        Seq::empty()
    } else {
        encoded(points.drop_last()) + record(points.last())
    }
}

/// The point whose record is the `i`-th dozen of `bytes`.
pub open spec fn record_at(bytes: Seq<u8>, i: int) -> PackedPoint {
    PackedPoint {
        x: word_at(bytes, 12 * i),
        y: word_at(bytes, 12 * i + 4),
        z: word_at(bytes, 12 * i + 8),
    }
}

/// The cloud that `bytes` holds: one point for every full record. Bytes past
/// the last full record are not looked at.
pub open spec fn decoded(bytes: Seq<u8>) -> Seq<PackedPoint> {
    Seq::new((bytes.len() / 12) as nat, |i: int| record_at(bytes, i))
}

/// A word is the word of its bytes.
pub proof fn lemma_word_round_trip(word: u32)
    ensures
        word_bytes(word).len() == 4,
        word_at(word_bytes(word), 0) == word,
{
    assert(word == (((word & 0xff) as u8) as u32) | ((((word >> 8) & 0xff) as u8) as u32) << 8 | ((((
    word >> 16) & 0xff) as u8) as u32) << 16 | ((((word >> 24) & 0xff) as u8) as u32) << 24)
        by (bit_vector);
}

/// Bytes are the bytes of their word.
pub proof fn lemma_bytes_round_trip(b0: u8, b1: u8, b2: u8, b3: u8)
    ensures
        word_bytes(word_of(b0, b1, b2, b3)) == seq![b0, b1, b2, b3],
{
    let word = word_of(b0, b1, b2, b3);
    assert(word == (b0 as u32) | ((b1 as u32) << 8) | ((b2 as u32) << 16) | ((b3 as u32) << 24));
    assert((word & 0xff) as u8 == b0) by (bit_vector)
        requires
            word == (b0 as u32) | ((b1 as u32) << 8) | ((b2 as u32) << 16) | ((b3 as u32) << 24),
    ;
    assert(((word >> 8) & 0xff) as u8 == b1) by (bit_vector)
        requires
            word == (b0 as u32) | ((b1 as u32) << 8) | ((b2 as u32) << 16) | ((b3 as u32) << 24),
    ;
    assert(((word >> 16) & 0xff) as u8 == b2) by (bit_vector)
        requires
            word == (b0 as u32) | ((b1 as u32) << 8) | ((b2 as u32) << 16) | ((b3 as u32) << 24),
    ;
    assert(((word >> 24) & 0xff) as u8 == b3) by (bit_vector)
        requires
            word == (b0 as u32) | ((b1 as u32) << 8) | ((b2 as u32) << 16) | ((b3 as u32) << 24),
    ;
    assert(word_bytes(word) =~= seq![b0, b1, b2, b3]);
}

/// A cloud of `n` points takes `12 * n` bytes, and each point is found again
/// at its place, whatever follows the cloud.
pub proof fn lemma_encoded_records(points: Seq<PackedPoint>, tail: Seq<u8>, i: int)
    requires
        0 <= i < points.len(),
    ensures
        encoded(points).len() == 12 * points.len(),
        record_at(encoded(points) + tail, i) == points[i],
    decreases points.len(),
{
    lemma_encoded_len(points);
    let shorter = points.drop_last();
    let last = points.last();
    lemma_encoded_len(shorter);
    if i < shorter.len() {
        lemma_encoded_records(shorter, record(last) + tail, i);
        assert(encoded(points) + tail =~= encoded(shorter) + (record(last) + tail));
    } else {
        let bytes = encoded(points) + tail;
        let start = 12 * i;
        lemma_word_round_trip(last.x);
        lemma_word_round_trip(last.y);
        lemma_word_round_trip(last.z);
        assert(word_at(bytes, start) == word_at(word_bytes(last.x), 0));
        assert(word_at(bytes, start + 4) == word_at(word_bytes(last.y), 0));
        assert(word_at(bytes, start + 8) == word_at(word_bytes(last.z), 0));
    }
}

/// A cloud of `n` points takes `12 * n` bytes.
pub proof fn lemma_encoded_len(points: Seq<PackedPoint>)
    ensures
        encoded(points).len() == 12 * points.len(),
    decreases points.len(),
{
    if points.len() > 0 {
        lemma_encoded_len(points.drop_last());
    }
}

/// Reading back what was written gives the points that were written, each
/// coordinate bit for bit. A last record that was cut short is dropped.
pub proof fn lemma_round_trip(points: Seq<PackedPoint>, tail: Seq<u8>)
    requires
        tail.len() < 12,
    ensures
        decoded(encoded(points) + tail) == points,
        decoded(encoded(points)) == points,
{
    lemma_encoded_len(points);
    assert forall|i: int| 0 <= i < points.len() implies record_at(encoded(points) + tail, i)
        == points[i] by {
        lemma_encoded_records(points, tail, i);
    }
    assert(decoded(encoded(points) + tail) =~= points);
    assert(encoded(points) + Seq::<u8>::empty() =~= encoded(points));
    assert forall|i: int| 0 <= i < points.len() implies record_at(encoded(points), i)
        == points[i] by {
        lemma_encoded_records(points, Seq::<u8>::empty(), i);
    }
    assert(decoded(encoded(points)) =~= points);
}

/// Writing what was read gives the bytes that were read, up to the last full
/// record.
pub proof fn lemma_reverse_round_trip(bytes: Seq<u8>)
    ensures
        encoded(decoded(bytes)) == bytes.take(12 * (bytes.len() / 12) as int),
{
    lemma_encoded_prefix(bytes, (bytes.len() / 12) as nat);
    assert(decoded(bytes).take((bytes.len() / 12) as int) =~= decoded(bytes));
}

/// Writing the first `n` points that were read gives the first `12 * n`
/// bytes that were read.
proof fn lemma_encoded_prefix(bytes: Seq<u8>, n: nat)
    requires
        n <= bytes.len() / 12,
    ensures
        encoded(decoded(bytes).take(n as int)) == bytes.take(12 * (n as int)),
    decreases n,
{
    let points = decoded(bytes).take(n as int);
    if n == 0 {
        assert(bytes.take(0) =~= Seq::<u8>::empty());
    } else {
        lemma_encoded_prefix(bytes, (n - 1) as nat);
        assert(points.drop_last() =~= decoded(bytes).take(n - 1));
        let start = 12 * (n - 1);
        lemma_bytes_round_trip(bytes[start], bytes[start + 1], bytes[start + 2], bytes[start + 3]);
        lemma_bytes_round_trip(
            bytes[start + 4],
            bytes[start + 5],
            bytes[start + 6],
            bytes[start + 7],
        );
        lemma_bytes_round_trip(
            bytes[start + 8],
            bytes[start + 9],
            bytes[start + 10],
            bytes[start + 11],
        );
        assert(points.last() == record_at(bytes, n - 1));
        assert(record(points.last()) =~= bytes.subrange(start, start + 12));
        assert(bytes.take(12 * (n as int)) =~= bytes.take(start) + bytes.subrange(start, start + 12));
    }
}

/// Appends the four bytes of `word` to `out`.
fn push_word(out: &mut Vec<u8>, word: u32)
    ensures
        final(out)@ == old(out)@ + word_bytes(word),
{
    assert(word & 0xff < 256 && (word >> 8) & 0xff < 256 && (word >> 16) & 0xff < 256 && (word
        >> 24) & 0xff < 256) by (bit_vector);
    out.push((word & 0xff) as u8);
    out.push(((word >> 8) & 0xff) as u8);
    out.push(((word >> 16) & 0xff) as u8);
    out.push(((word >> 24) & 0xff) as u8);
    assert(out@ =~= old(out)@ + word_bytes(word));
}

/// Reads the word that starts at byte `at` of `bytes`.
fn read_word(bytes: &[u8], at: usize) -> (word: u32)
    requires
        at + 4 <= bytes@.len(),
    ensures
        word == word_at(bytes@, at as int),
{
    (bytes[at] as u32) | ((bytes[at + 1] as u32) << 8) | ((bytes[at + 2] as u32) << 16) | ((bytes[at
        + 3] as u32) << 24)
}

/// Appends the records of `points` to `out`, and tells how many points were
/// written: all of them.
pub fn write_points_to_binary(points: &Vec<PackedPoint>, out: &mut Vec<u8>) -> (written: usize)
    ensures
        final(out)@ == old(out)@ + encoded(points@),
        final(out)@.len() == old(out)@.len() + 12 * points@.len(),
        written == points@.len(),
{
    proof {
        lemma_encoded_len(points@);
    }
    let mut points_counter: usize = 0;
    assert(points@.take(0) =~= Seq::<PackedPoint>::empty());
    assert(out@ =~= old(out)@ + encoded(points@.take(0)));
    while points_counter < points.len()
        invariant
            points_counter <= points@.len(),
            out@ == old(out)@ + encoded(points@.take(points_counter as int)),
        decreases points@.len() - points_counter,
    {
        let point = points[points_counter];
        let ghost before = out@;
        push_word(out, point.x);
        push_word(out, point.y);
        push_word(out, point.z);
        proof {
            let longer = points@.take(points_counter + 1);
            assert(longer.drop_last() =~= points@.take(points_counter as int));
            assert(longer.last() == point);
            assert(out@ =~= before + record(point));
            assert(out@ =~= old(out)@ + encoded(longer));
        }
        points_counter += 1;
    }
    assert(points@.take(points_counter as int) =~= points@);
    points_counter
}

/// Reads the points that `bytes` holds: one for every full record. A last
/// record that was cut short is dropped without a word.
pub fn read_points_from_binary(bytes: &[u8]) -> (points: Vec<PackedPoint>)
    ensures
        points@ == decoded(bytes@),
{
    let count = bytes.len() / 12;
    let mut points: Vec<PackedPoint> = Vec::new();
    let mut i: usize = 0;
    while i < count
        invariant
            i <= count,
            count == bytes@.len() / 12,
            12 * count <= bytes@.len() <= usize::MAX,
            points@.len() == i,
            forall|a: int| 0 <= a < i ==> points@[a] == record_at(bytes@, a),
        decreases count - i,
    {
        let start = i * 12;
        let x = read_word(bytes, start);
        let y = read_word(bytes, start + 4);
        let z = read_word(bytes, start + 8);
        points.push(PackedPoint { x, y, z });
        i += 1;
    }
    assert(points@ =~= decoded(bytes@));
    points
}

/// A cloud of points as the layout holds them.
#[derive(Debug)]
pub struct PointCloud {
    /// The points, in the order in which they are stored.
    pub points: Vec<PackedPoint>,
}

impl PointCloud {
    /// The cloud of the given points.
    pub fn new(points: Vec<PackedPoint>) -> (cloud: PointCloud)
        ensures
            cloud.points == points,
    {
        PointCloud { points }
    }

    /// Where a cloud is kept unless the caller says otherwise.
    pub fn get_standard_file(&self) -> (path: &'static str)
        ensures
            path == POINTS_FILE,
    {
        POINTS_FILE
    }

    /// Replaces the points by those that `bytes` holds, and tells how many
    /// there are now.
    pub fn read_from_bytes(&mut self, bytes: &[u8]) -> (count: usize)
        ensures
            final(self).points@ == decoded(bytes@),
            count == final(self).points@.len(),
    {
        self.points = read_points_from_binary(bytes);
        self.points.len()
    }

    /// Appends the records of the points to `out`, and tells how many points
    /// were written: all of them.
    pub fn write_to_bytes(&self, out: &mut Vec<u8>) -> (count: usize)
        ensures
            final(out)@ == old(out)@ + encoded(self.points@),
            count == self.points@.len(),
    {
        write_points_to_binary(&self.points, out)
    }
}

} // verus!

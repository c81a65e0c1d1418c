//! One byte stream spread over numbered parts of bounded size.
//!
//! Part `i` of a stream is its `i`-th run of `max_file_size` bytes; only the
//! last part may be shorter, and no part is empty. A part comes into being
//! with the first byte written to it, so the parts are determined by the
//! stream and the size limit alone.

use vstd::prelude::*;
use vstd::slice::slice_subrange;
use crate::channel::ByteSink;
use crate::channel::ByteSource;

verus! {

/// The concatenation of `parts` in order.
pub open spec fn joined(parts: Seq<Seq<u8>>) -> Seq<u8>
    decreases parts.len(),
{
    if parts.len() == 0 {
        Seq::empty()
    } else {
        joined(parts.drop_last()) + parts.last()
    }
}

/// The contents of each part, as sequences.
pub open spec fn contents(parts: Seq<Vec<u8>>) -> Seq<Seq<u8>> {
    parts.map_values(|p: Vec<u8>| p@)
}

/// `parts` is what a writer limited to `max` bytes per part produces: no part
/// is empty, none exceeds `max`, and all but the last hold exactly `max`.
pub open spec fn well_split(parts: Seq<Seq<u8>>, max: u64) -> bool {
    forall|i: int|
        0 <= i < parts.len() ==> {
            &&& 1 <= (#[trigger] parts[i]).len() <= max
            &&& i + 1 < parts.len() ==> parts[i].len() == max
        }
}

/// How many more bytes the current part takes before the writer turns to a
/// fresh one. A full part, like no part at all, leaves room for a whole part.
pub open spec fn room(parts: Seq<Seq<u8>>, max: u64) -> int {
    if parts.len() == 0 || parts.last().len() >= max {
        max as int
    } else {
        max - parts.last().len()
    }
}

/// The parts after `bytes`, which fit in the room left, have been written.
pub open spec fn appended(parts: Seq<Seq<u8>>, max: u64, bytes: Seq<u8>) -> Seq<Seq<u8>> {
    if bytes.len() == 0 {
        parts
    } else if parts.len() == 0 || parts.last().len() >= max {
        parts.push(bytes)
    } else {
        parts.drop_last().push(parts.last() + bytes)
    }
}

/// Writing into the room left keeps the parts well split and appends to the
/// stream.
pub proof fn lemma_appended(parts: Seq<Seq<u8>>, max: u64, bytes: Seq<u8>)
    requires
        well_split(parts, max),
        bytes.len() <= room(parts, max),
    ensures
        well_split(appended(parts, max, bytes), max),
        joined(appended(parts, max, bytes)) == joined(parts) + bytes,
{
    let after = appended(parts, max, bytes);
    if bytes.len() == 0 {
        assert(joined(parts) + bytes =~= joined(parts));
    } else if parts.len() == 0 || parts.last().len() >= max {
        assert(after.drop_last() =~= parts);
        assert forall|i: int| 0 <= i < after.len() implies {
            &&& 1 <= (#[trigger] after[i]).len() <= max
            &&& i + 1 < after.len() ==> after[i].len() == max
        } by {
            if i < parts.len() {
                assert(after[i] == parts[i]);
            }
        }
    } else {
        assert(after.drop_last() =~= parts.drop_last());
        assert(joined(parts.drop_last()) + (parts.last() + bytes) =~= joined(parts) + bytes);
        assert forall|i: int| 0 <= i < after.len() implies {
            &&& 1 <= (#[trigger] after[i]).len() <= max
            &&& i + 1 < after.len() ==> after[i].len() == max
        } by {
            if i + 1 < parts.len() {
                assert(after[i] == parts[i]);
            }
        }
    }
}

/// A well-split stream is as long as its full parts and its last part.
pub proof fn lemma_joined_len(parts: Seq<Seq<u8>>, max: u64)
    requires
        well_split(parts, max),
        parts.len() > 0,
    ensures
        joined(parts).len() == (parts.len() - 1) * max + parts.last().len(),
    decreases parts.len(),
{
    let front = parts.drop_last();
    if front.len() == 0 {
        assert(joined(front) =~= Seq::<u8>::empty());
    } else {
        assert forall|i: int| 0 <= i < front.len() implies {
            &&& 1 <= (#[trigger] front[i]).len() <= max
            &&& i + 1 < front.len() ==> front[i].len() == max
        } by {
            assert(front[i] == parts[i]);
        }
        lemma_joined_len(front, max);
        assert(front.last() == parts[parts.len() - 2]);
        assert((parts.len() - 2) * max + max == (parts.len() - 1) * max) by (nonlinear_arith);
    }
}

/// The number of parts of a well-split stream is its length divided by the
/// limit, rounded up.
pub proof fn lemma_part_count(parts: Seq<Seq<u8>>, max: u64)
    requires
        well_split(parts, max),
        max >= 1,
    ensures
        parts.len() == if joined(parts).len() == 0 {
            0
        } else {
            (joined(parts).len() - 1) / (max as int) + 1
        },
{
    if parts.len() > 0 {
        lemma_joined_len(parts, max);
        let len = joined(parts).len() as int;
        assert(len >= 1) by (nonlinear_arith)
            requires
                len == (parts.len() - 1) * max + parts.last().len(),
                parts.len() >= 1,
                parts.last().len() >= 1,
        ;
        vstd::arithmetic::div_mod::lemma_fundamental_div_mod_converse(
            len - 1,
            max as int,
            parts.len() - 1,
            parts.last().len() - 1,
        );
    }
}

/// The parts are determined by the stream and the limit: two ways to split
/// one stream well under one limit are the same.
pub proof fn lemma_well_split_unique(first: Seq<Seq<u8>>, second: Seq<Seq<u8>>, max: u64)
    requires
        well_split(first, max),
        well_split(second, max),
        joined(first) == joined(second),
    ensures
        first == second,
    decreases first.len(),
{
    if first.len() == 0 || second.len() == 0 {
        if first.len() > 0 {
            lemma_joined_len(first, max);
            lemma_part_count(first, max);
        }
        if second.len() > 0 {
            lemma_joined_len(second, max);
            lemma_part_count(second, max);
        }
        assert(first =~= second);
    } else {
        lemma_part_count(first, max);
        lemma_part_count(second, max);
        lemma_joined_len(first, max);
        lemma_joined_len(second, max);
        let front = first.drop_last();
        let other = second.drop_last();
        assert(first.last().len() == second.last().len()) by (nonlinear_arith)
            requires
                first.len() == second.len(),
                (first.len() - 1) * max + first.last().len() == (second.len() - 1) * max
                    + second.last().len(),
        ;
        let k = joined(front).len() as int;
        assert(joined(front) =~= joined(first).take(k));
        assert(joined(other) =~= joined(second).take(k));
        assert(first.last() =~= joined(first).skip(k));
        assert(second.last() =~= joined(second).skip(k));
        assert forall|i: int| 0 <= i < front.len() implies {
            &&& 1 <= (#[trigger] front[i]).len() <= max
            &&& i + 1 < front.len() ==> front[i].len() == max
        } by {
            assert(front[i] == first[i]);
        }
        assert forall|i: int| 0 <= i < other.len() implies {
            &&& 1 <= (#[trigger] other[i]).len() <= max
            &&& i + 1 < other.len() ==> other[i].len() == max
        } by {
            assert(other[i] == second[i]);
        }
        lemma_well_split_unique(front, other, max);
        assert(first =~= front.push(first.last()));
        assert(second =~= other.push(second.last()));
    }
}

/// A byte sink that keeps what it accepts in parts of at most
/// `max_file_size` bytes.
pub struct MultipartWriter {
    parts: Vec<Vec<u8>>,
    max_file_size: u64,
}

impl View for MultipartWriter {
    type V = Seq<Seq<u8>>;

    /// The parts written so far, in order of their numbers.
    closed spec fn view(&self) -> Seq<Seq<u8>> {
        contents(self.parts@)
    }
}

impl MultipartWriter {
    /// The size limit of a part.
    pub closed spec fn limit(&self) -> u64 {
        self.max_file_size
    }

    /// The limit is positive and the parts are well split under it.
    pub open spec fn wf(&self) -> bool {
        &&& self.limit() >= 1
        &&& well_split(self@, self.limit())
    }

    /// A writer that has written nothing yet.
    pub fn new(max_file_size: u64) -> (writer: Self)
        requires
            max_file_size >= 1,
        ensures
            writer.wf(),
            writer.limit() == max_file_size,
            writer@ == Seq::<Seq<u8>>::empty(),
    {
        let writer = MultipartWriter { parts: Vec::new(), max_file_size };
        assert(writer@ =~= Seq::<Seq<u8>>::empty());
        writer
    }

    /// The number of the current part: the last part written to, or 0 if
    /// nothing has been written.
    pub fn file_number(&self) -> (number: usize)
        ensures
            number == if self@.len() == 0 {
                0int
            } else {
                self@.len() - 1
            },
    {
        let count: usize = self.parts.len();
        if count == 0 {
            0
        } else {
            count - 1
        }
    }

    /// The number of bytes in the current part. When it has reached the
    /// limit, the next byte goes to a fresh part.
    pub fn file_size(&self) -> (size: u64)
        requires
            self.wf(),
        ensures
            size == if self@.len() == 0 {
                0
            } else {
                self@.last().len()
            },
    {
        let count: usize = self.parts.len();
        if count == 0 {
            0
        } else {
            assert(self@.last() == self.parts@[count - 1]@);
            self.parts[count - 1].len() as u64
        }
    }

    /// The size limit of a part.
    pub fn max_file_size(&self) -> (max: u64)
        ensures
            max == self.limit(),
    {
        self.max_file_size
    }

    /// Gives up the writer for the parts it has written.
    pub fn into_parts(self) -> (parts: Vec<Vec<u8>>)
        ensures
            contents(parts@) == self@,
    {
        self.parts
    }
}

impl ByteSink for MultipartWriter {
    type Settings = u64;

    open spec fn inv(&self) -> bool {
        self.wf()
    }

    /// The size limit of a part.
    open spec fn settings(&self) -> u64 {
        self.limit()
    }

    open spec fn stream(&self) -> Seq<u8> {
        joined(self@)
    }

    /// Writes as much of `buf` as the current part has room for, turning to a
    /// fresh part first if the current one is full.
    fn write(&mut self, buf: &[u8]) -> (n: usize)
        ensures
            n == if buf@.len() <= room(old(self)@, old(self).limit()) {
                buf@.len() as int
            } else {
                room(old(self)@, old(self).limit())
            },
            final(self)@ == appended(old(self)@, old(self).limit(), buf@.take(n as int)),
    {
        if buf.len() == 0 {
            assert(buf@.take(0) =~= Seq::<u8>::empty());
            assert(joined(self@) + buf@.take(0) =~= joined(self@));
            return 0;
        }
        let ghost before = self@;
        let count: usize = self.parts.len();
        let mut fresh: bool = true;
        if count > 0 {
            assert(before.last() == self.parts@[count - 1]@);
            if (self.parts[count - 1].len() as u64) < self.max_file_size {
                fresh = false;
            }
        }
        let mut part: Vec<u8> = Vec::new();
        if !fresh {
            part = self.parts.pop().unwrap();
            assert(contents(self.parts@) =~= before.drop_last());
            assert(part@ == before.last());
        }
        let ghost kept = self.parts@;
        let ghost held = part@;
        let free: u64 = self.max_file_size - part.len() as u64;
        let n: usize = if buf.len() as u64 <= free {
            buf.len()
        } else {
            free as usize
        };
        part.extend_from_slice(slice_subrange(buf, 0, n));
        self.parts.push(part);
        proof {
            let bytes = buf@.take(n as int);
            assert(buf@.subrange(0, n as int) =~= bytes);
            if fresh {
                assert(part@ =~= bytes);
                assert(self@ =~= before.push(bytes));
            } else {
                assert(part@ =~= held + bytes);
                assert(self.parts@ =~= kept.push(part));
                assert(self@ =~= contents(kept).push(held + bytes));
            }
            lemma_appended(before, self.max_file_size, bytes);
        }
        n
    }
}

/// The index of the first part at or after the cursor `(number, offset)` that
/// still has unread bytes, or the number of parts if there is none.
pub open spec fn unread_part(parts: Seq<Seq<u8>>, number: int, offset: int) -> int
    decreases parts.len() - number,
{
    if number >= parts.len() || offset < parts[number].len() {
        number
    } else {
        unread_part(parts, number + 1, 0)
    }
}

/// The number of bytes in the parts before part `number`.
pub open spec fn part_start(parts: Seq<Seq<u8>>, number: int) -> nat {
    joined(parts.take(number)).len()
}

/// Part `i` begins where the parts before it end, and the next part begins
/// where part `i` ends.
pub proof fn lemma_part_start_step(parts: Seq<Seq<u8>>, i: int)
    requires
        0 <= i < parts.len(),
    ensures
        joined(parts.take(i + 1)) == joined(parts.take(i)) + parts[i],
        part_start(parts, i + 1) == part_start(parts, i) + parts[i].len(),
{
    assert(parts.take(i + 1).drop_last() =~= parts.take(i));
}

/// Byte `j` of part `i` is the byte of the joined stream that lies `j` places
/// after the start of part `i`.
pub proof fn lemma_joined_index(parts: Seq<Seq<u8>>, i: int, j: int)
    requires
        0 <= i < parts.len(),
        0 <= j < parts[i].len(),
    ensures
        part_start(parts, i) + j < joined(parts).len(),
        joined(parts)[part_start(parts, i) + j] == parts[i][j],
    decreases parts.len(),
{
    if i == parts.len() - 1 {
        assert(parts.take(i) =~= parts.drop_last());
    } else {
        lemma_joined_index(parts.drop_last(), i, j);
        assert(parts.drop_last().take(i) =~= parts.take(i));
    }
}

/// All parts together are as long as the stream.
pub proof fn lemma_part_start_end(parts: Seq<Seq<u8>>)
    ensures
        part_start(parts, parts.len() as int) == joined(parts).len(),
{
    assert(parts.take(parts.len() as int) =~= parts);
}

/// A part ends within the stream.
pub proof fn lemma_part_within(parts: Seq<Seq<u8>>, i: int)
    requires
        0 <= i < parts.len(),
    ensures
        part_start(parts, i) + parts[i].len() <= joined(parts).len(),
    decreases parts.len(),
{
    if i == parts.len() - 1 {
        assert(parts.take(i) =~= parts.drop_last());
    } else {
        lemma_part_within(parts.drop_last(), i);
        assert(parts.drop_last().take(i) =~= parts.take(i));
    }
}

/// Part `i` of a well-split stream is the run of the stream that begins at
/// byte `i * max`.
pub proof fn lemma_part_is_run(parts: Seq<Seq<u8>>, max: u64, i: int)
    requires
        well_split(parts, max),
        0 <= i < parts.len(),
    ensures
        part_start(parts, i) == i * max,
        i * max + parts[i].len() <= joined(parts).len(),
        parts[i] == joined(parts).subrange(i * max, i * max + parts[i].len()),
{
    let before = parts.take(i);
    if i == 0 {
        assert(joined(before) =~= Seq::<u8>::empty());
    } else {
        assert forall|k: int| 0 <= k < before.len() implies {
            &&& 1 <= (#[trigger] before[k]).len() <= max
            &&& k + 1 < before.len() ==> before[k].len() == max
        } by {
            assert(before[k] == parts[k]);
        }
        lemma_joined_len(before, max);
        assert(before.last() == parts[i - 1]);
        assert((i - 1) * max + max == i * max) by (nonlinear_arith);
    }
    lemma_part_within(parts, i);
    let run = joined(parts).subrange(i * max, i * max + parts[i].len());
    assert forall|j: int| 0 <= j < parts[i].len() implies parts[i][j] == run[j] by {
        lemma_joined_index(parts, i, j);
    }
    assert(parts[i] =~= run);
}

/// A byte source that reads the parts of a stream one after the other.
pub struct MultipartReader {
    parts: Vec<Vec<u8>>,
    file_number: usize,
    offset: usize,
}

impl MultipartReader {
    /// The parts being read, in order of their numbers.
    pub closed spec fn parts(&self) -> Seq<Seq<u8>> {
        contents(self.parts@)
    }

    /// The number of the part the cursor is in.
    pub closed spec fn number(&self) -> int {
        self.file_number as int
    }

    /// The number of bytes already read from the part the cursor is in.
    pub closed spec fn offset(&self) -> int {
        self.offset as int
    }

    /// The cursor lies within a part, or just past the last one.
    pub open spec fn wf(&self) -> bool {
        &&& 0 <= self.number() <= self.parts().len()
        &&& self.number() < self.parts().len() ==> 0 <= self.offset()
            <= self.parts()[self.number()].len()
        &&& self.number() == self.parts().len() ==> self.offset() == 0
    }

    /// The number of bytes read so far.
    pub open spec fn position(&self) -> int {
        part_start(self.parts(), self.number()) + self.offset()
    }

    /// A reader at the start of part 0, with the whole stream still to read.
    pub fn new(parts: Vec<Vec<u8>>) -> (reader: Self)
        ensures
            reader.wf(),
            reader.parts() == contents(parts@),
            reader.number() == 0,
            reader.offset() == 0,
            reader.remaining() == joined(contents(parts@)),
    {
        let reader = MultipartReader { parts, file_number: 0, offset: 0 };
        assert(reader.parts().take(0) =~= Seq::<Seq<u8>>::empty());
        assert(joined(reader.parts()).skip(0) =~= joined(reader.parts()));
        reader
    }
}

impl ByteSource for MultipartReader {
    open spec fn inv(&self) -> bool {
        self.wf()
    }

    open spec fn remaining(&self) -> Seq<u8> {
        joined(self.parts()).skip(self.position())
    }

    /// Reads from the part the cursor is in, after moving the cursor past
    /// every part that has nothing left. A read never crosses into the next
    /// part; past the last part it returns nothing.
    fn read(&mut self, max: usize) -> (out: Vec<u8>)
        ensures
            final(self).parts() == old(self).parts(),
            max == 0 ==> final(self).number() == old(self).number() && final(self).offset() == old(
                self,
            ).offset(),
            max > 0 ==> ({
                let parts = old(self).parts();
                let j = unread_part(parts, old(self).number(), old(self).offset());
                let from = if j == old(self).number() {
                    old(self).offset()
                } else {
                    0
                };
                &&& final(self).number() == j
                &&& j == parts.len() ==> out@.len() == 0
                &&& j < parts.len() ==> out@.len() == if max <= parts[j].len() - from {
                    max as int
                } else {
                    parts[j].len() - from
                }
                &&& j < parts.len() ==> out@ == parts[j].subrange(from, from + out@.len())
                &&& final(self).offset() == from + out@.len()
            }),
    {
        let mut out: Vec<u8> = Vec::new();
        if max == 0 {
            assert(self.remaining().take(0) =~= out@);
            assert(self.remaining().skip(0) =~= self.remaining());
            return out;
        }
        let ghost parts = self.parts();
        while self.file_number < self.parts.len() && self.offset
            == self.parts[self.file_number].len()
            invariant
                self.wf(),
                self.parts() == parts,
                self.position() == old(self).position(),
                unread_part(parts, self.number(), self.offset()) == unread_part(
                    parts,
                    old(self).number(),
                    old(self).offset(),
                ),
                self.number() >= old(self).number(),
                self.number() == old(self).number() ==> self.offset() == old(self).offset(),
                self.number() != old(self).number() ==> self.offset() == 0,
            decreases self.parts().len() - self.number(),
        {
            proof {
                lemma_part_start_step(parts, self.number());
            }
            self.file_number = self.file_number + 1;
            self.offset = 0;
        }
        if self.file_number == self.parts.len() {
            proof {
                lemma_part_start_end(parts);
                assert(self.remaining().take(0) =~= out@);
                assert(self.remaining().skip(0) =~= self.remaining());
            }
            return out;
        }
        let part = &self.parts[self.file_number];
        let left: usize = part.len() - self.offset;
        let n: usize = if max <= left {
            max
        } else {
            left
        };
        out.extend_from_slice(slice_subrange(part.as_slice(), self.offset, self.offset + n));
        proof {
            let i = self.number();
            let from = self.offset();
            let start = part_start(parts, i);
            let all = joined(parts);
            lemma_part_within(parts, i);
            assert(out@ =~= parts[i].subrange(from, from + n));
            assert forall|k: int| 0 <= k < n implies out@[k] == all.skip(start + from)[k] by {
                lemma_joined_index(parts, i, from + k);
            }
            assert(out@ =~= all.skip(start + from).take(n as int));
            assert(all.skip(start + from).skip(n as int) =~= all.skip(start + from + n));
        }
        self.offset = self.offset + n;
        out
    }
}

} // verus!

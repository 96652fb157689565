//! Binary encoding of tasks and task lists.
//!
//! A task list is stored as one self-describing byte string: a format tag,
//! the number of tasks as a little-endian 64-bit count, then each task in
//! order. A task is stored as its two flag bytes, the byte length of its
//! title as a little-endian 64-bit value, and the title's UTF-8 bytes.
//!
//! `to_bytes` produces exactly `spec_encode_list` of the list's value, and
//! `from_bytes` both accepts every such encoding (returning the original
//! value) and accepts nothing else.

use vstd::prelude::*;
use vstd::slice::{slice_subrange, slice_to_vec};
use vstd::string::StrSliceExecFns;
use vstd::utf8::{encode_utf8, encode_utf8_decode_utf8, encode_utf8_valid_utf8, valid_utf8};

use crate::task::{task_views, Task, TaskList, TaskV};

verus! {

/// Tag in the first byte of every encoded task list, so that a later layout
/// change can be told apart from data written by this one. Bytes that do
/// not carry the tag — including data written under any other encoding —
/// are refused rather than misread.
pub const FORMAT_TAG: u8 = 1;

/// The eight bytes of `x` in little-endian order.
pub open spec fn spec_u64_le(x: u64) -> Seq<u8> {
    seq![
        (x & 0xff) as u8,
        ((x >> 8) & 0xff) as u8,
        ((x >> 16) & 0xff) as u8,
        ((x >> 24) & 0xff) as u8,
        ((x >> 32) & 0xff) as u8,
        ((x >> 40) & 0xff) as u8,
        ((x >> 48) & 0xff) as u8,
        ((x >> 56) & 0xff) as u8,
    ]
}

/// The byte that stands for a flag.
pub open spec fn spec_bool_byte(b: bool) -> u8 {
    if b {
        1
    } else {
        0
    }
}

/// The encoding of one task: flag bytes, title byte length, title bytes.
pub open spec fn spec_encode_task(t: TaskV) -> Seq<u8> {
    seq![spec_bool_byte(t.completed), spec_bool_byte(t.important)]
        + spec_u64_le(encode_utf8(t.title).len() as u64) + encode_utf8(t.title)
}

/// The title's byte length can be written in the length field.
pub open spec fn task_fits(t: TaskV) -> bool {
    encode_utf8(t.title).len() <= u64::MAX
}

/// The encodings of the tasks, one after another.
pub open spec fn spec_encode_tasks(l: Seq<TaskV>) -> Seq<u8>
    decreases l.len(),
{
    if l.len() == 0 {
        Seq::empty()
    } else {
        spec_encode_task(l[0]) + spec_encode_tasks(l.drop_first())
    }
}

/// The count and every title length can be written in their fields.
pub open spec fn list_fits(l: Seq<TaskV>) -> bool {
    l.len() <= u64::MAX && forall|i: int| 0 <= i < l.len() ==> task_fits(#[trigger] l[i])
}

/// The encoding of a whole list: tag, count, then the tasks.
pub open spec fn spec_encode_list(l: Seq<TaskV>) -> Seq<u8> {
    seq![FORMAT_TAG] + spec_u64_le(l.len() as u64) + spec_encode_tasks(l)
}

proof fn lemma_encode_tasks_push(l: Seq<TaskV>, t: TaskV)
    ensures
        spec_encode_tasks(l.push(t)) == spec_encode_tasks(l) + spec_encode_task(t),
    decreases l.len(),
{
    if l.len() == 0 {
        assert(l.push(t).drop_first() =~= Seq::<TaskV>::empty());
        assert(l.push(t)[0] == t);
        assert(spec_encode_tasks(Seq::<TaskV>::empty()) == Seq::<u8>::empty());
        assert(spec_encode_tasks(l.push(t)) == spec_encode_task(t) + Seq::<u8>::empty());
        assert(spec_encode_tasks(l.push(t)) =~= spec_encode_tasks(l) + spec_encode_task(t));
    } else {
        assert(l.push(t).drop_first() =~= l.drop_first().push(t));
        lemma_encode_tasks_push(l.drop_first(), t);
        assert(spec_encode_tasks(l.push(t)) =~= spec_encode_tasks(l) + spec_encode_task(t));
    }
}

proof fn lemma_encode_tasks_take_step(l: Seq<TaskV>, i: int)
    requires
        0 <= i < l.len(),
    ensures
        spec_encode_tasks(l.take(i + 1)) == spec_encode_tasks(l.take(i)) + spec_encode_task(l[i]),
{
    assert(l.take(i + 1) =~= l.take(i).push(l[i]));
    lemma_encode_tasks_push(l.take(i), l[i]);
}

proof fn lemma_encode_tasks_split(l: Seq<TaskV>, i: int)
    requires
        0 <= i <= l.len(),
    ensures
        spec_encode_tasks(l) == spec_encode_tasks(l.take(i)) + spec_encode_tasks(l.skip(i)),
    decreases i,
{
    if i == 0 {
        assert(l.take(0) =~= Seq::<TaskV>::empty());
        assert(l.skip(0) =~= l);
        assert(spec_encode_tasks(l) =~= spec_encode_tasks(l.take(0)) + spec_encode_tasks(l.skip(0)));
    } else {
        lemma_encode_tasks_split(l, i - 1);
        lemma_encode_tasks_take_step(l, i - 1);
        assert(l.skip(i - 1).len() > 0);
        assert(l.skip(i - 1)[0] == l[i - 1]);
        assert(l.skip(i - 1).drop_first() =~= l.skip(i));
        assert(spec_encode_tasks(l.skip(i - 1)) == spec_encode_task(l[i - 1]) + spec_encode_tasks(
            l.skip(i),
        ));
        assert(spec_encode_tasks(l) =~= spec_encode_tasks(l.take(i)) + spec_encode_tasks(l.skip(i)));
    }
}

/// The encoding of task `i` sits between the encodings of those before and
/// after it.
proof fn lemma_encode_tasks_mid(l: Seq<TaskV>, i: int)
    requires
        0 <= i < l.len(),
    ensures
        spec_encode_tasks(l) == spec_encode_tasks(l.take(i)) + spec_encode_task(l[i])
            + spec_encode_tasks(l.skip(i + 1)),
{
    lemma_encode_tasks_split(l, i);
    assert(l.skip(i).len() > 0);
    assert(l.skip(i)[0] == l[i]);
    assert(l.skip(i).drop_first() =~= l.skip(i + 1));
    assert(spec_encode_tasks(l) =~= spec_encode_tasks(l.take(i)) + spec_encode_task(l[i])
        + spec_encode_tasks(l.skip(i + 1)));
}

/// Two characters' sequences with the same UTF-8 bytes are the same.
proof fn lemma_encode_utf8_injective(a: Seq<char>, b: Seq<char>)
    requires
        encode_utf8(a) == encode_utf8(b),
    ensures
        a == b,
{
    encode_utf8_decode_utf8(a);
    encode_utf8_decode_utf8(b);
}

proof fn lemma_spec_u64_le_injective(x: u64, y: u64)
    requires
        spec_u64_le(x) == spec_u64_le(y),
    ensures
        x == y,
{
    assert(spec_u64_le(x)[0] == spec_u64_le(y)[0]);
    assert(spec_u64_le(x)[1] == spec_u64_le(y)[1]);
    assert(spec_u64_le(x)[2] == spec_u64_le(y)[2]);
    assert(spec_u64_le(x)[3] == spec_u64_le(y)[3]);
    assert(spec_u64_le(x)[4] == spec_u64_le(y)[4]);
    assert(spec_u64_le(x)[5] == spec_u64_le(y)[5]);
    assert(spec_u64_le(x)[6] == spec_u64_le(y)[6]);
    assert(spec_u64_le(x)[7] == spec_u64_le(y)[7]);
    assert(((x & 0xff) as u8 == (y & 0xff) as u8 && ((x >> 8) & 0xff) as u8 == ((y >> 8)
        & 0xff) as u8 && ((x >> 16) & 0xff) as u8 == ((y >> 16) & 0xff) as u8 && ((x >> 24)
        & 0xff) as u8 == ((y >> 24) & 0xff) as u8 && ((x >> 32) & 0xff) as u8 == ((y >> 32)
        & 0xff) as u8 && ((x >> 40) & 0xff) as u8 == ((y >> 40) & 0xff) as u8 && ((x >> 48)
        & 0xff) as u8 == ((y >> 48) & 0xff) as u8 && ((x >> 56) & 0xff) as u8 == ((y >> 56)
        & 0xff) as u8) ==> x == y) by (bit_vector);
}

/// Relies on `String::from_utf8`: it succeeds exactly on valid UTF-8 input,
/// and the returned string is the one whose UTF-8 encoding is that input.
#[verifier::external_body]
fn bytes_to_string(b: Vec<u8>) -> (r: Option<String>)
    ensures
        r matches Some(s) ==> encode_utf8(s@) == b@,
        valid_utf8(b@) ==> r is Some,
{
    String::from_utf8(b).ok()
}

fn push_u64_le(out: &mut Vec<u8>, x: u64)
    ensures
        final(out)@ == old(out)@ + spec_u64_le(x),
{
    let ghost orig = out@;
    out.push((x & 0xff) as u8);
    out.push(((x >> 8) & 0xff) as u8);
    out.push(((x >> 16) & 0xff) as u8);
    out.push(((x >> 24) & 0xff) as u8);
    out.push(((x >> 32) & 0xff) as u8);
    out.push(((x >> 40) & 0xff) as u8);
    out.push(((x >> 48) & 0xff) as u8);
    out.push(((x >> 56) & 0xff) as u8);
    proof {
        assert(out@ =~= orig + spec_u64_le(x));
    }
}

fn read_u64_le(bytes: &Vec<u8>, pos: usize) -> (r: u64)
    requires
        pos + 8 <= bytes@.len(),
    ensures
        spec_u64_le(r) == bytes@.subrange(pos as int, pos as int + 8),
{
    let n = bytes.len();
    let b0 = bytes[pos] as u64;
    let b1 = bytes[pos + 1] as u64;
    let b2 = bytes[pos + 2] as u64;
    let b3 = bytes[pos + 3] as u64;
    let b4 = bytes[pos + 4] as u64;
    let b5 = bytes[pos + 5] as u64;
    let b6 = bytes[pos + 6] as u64;
    let b7 = bytes[pos + 7] as u64;
    let r = b0 | (b1 << 8) | (b2 << 16) | (b3 << 24) | (b4 << 32) | (b5 << 40) | (b6 << 48) | (b7
        << 56);
    proof {
        let v = b0 | (b1 << 8) | (b2 << 16) | (b3 << 24) | (b4 << 32) | (b5 << 40) | (b6 << 48) | (
        b7 << 56);
        assert((b0 < 256 && b1 < 256 && b2 < 256 && b3 < 256 && b4 < 256 && b5 < 256 && b6 < 256
            && b7 < 256) ==> ((b0 | (b1 << 8) | (b2 << 16) | (b3 << 24) | (b4 << 32) | (b5 << 40)
            | (b6 << 48) | (b7 << 56)) & 0xff == b0 && ((b0 | (b1 << 8) | (b2 << 16) | (b3 << 24)
            | (b4 << 32) | (b5 << 40) | (b6 << 48) | (b7 << 56)) >> 8) & 0xff == b1 && ((b0 | (b1
            << 8) | (b2 << 16) | (b3 << 24) | (b4 << 32) | (b5 << 40) | (b6 << 48) | (b7 << 56))
            >> 16) & 0xff == b2 && ((b0 | (b1 << 8) | (b2 << 16) | (b3 << 24) | (b4 << 32) | (b5
            << 40) | (b6 << 48) | (b7 << 56)) >> 24) & 0xff == b3 && ((b0 | (b1 << 8) | (b2 << 16)
            | (b3 << 24) | (b4 << 32) | (b5 << 40) | (b6 << 48) | (b7 << 56)) >> 32) & 0xff == b4
            && ((b0 | (b1 << 8) | (b2 << 16) | (b3 << 24) | (b4 << 32) | (b5 << 40) | (b6 << 48)
            | (b7 << 56)) >> 40) & 0xff == b5 && ((b0 | (b1 << 8) | (b2 << 16) | (b3 << 24) | (b4
            << 32) | (b5 << 40) | (b6 << 48) | (b7 << 56)) >> 48) & 0xff == b6 && ((b0 | (b1 << 8)
            | (b2 << 16) | (b3 << 24) | (b4 << 32) | (b5 << 40) | (b6 << 48) | (b7 << 56)) >> 56)
            & 0xff == b7)) by (bit_vector);
        assert(spec_u64_le(r) =~= bytes@.subrange(pos as int, pos as int + 8));
    }
    r
}

fn write_task(task: &Task, out: &mut Vec<u8>)
    ensures
        final(out)@ == old(out)@ + spec_encode_task(task@),
        task_fits(task@),
{
    let ghost orig = out@;
    out.push(if task.completed {
        1
    } else {
        0
    });
    out.push(if task.important {
        1
    } else {
        0
    });
    let mut tb = task.title.as_str().as_bytes_vec();
    let blen = tb.len();
    push_u64_le(out, blen as u64);
    out.append(&mut tb);
    proof {
        assert(out@ =~= orig + spec_encode_task(task@));
    }
}

impl Task {
    /// Encodes the task into the byte layout used by the stable store.
    pub fn to_bytes(&self) -> (r: Vec<u8>)
        ensures
            r@ == spec_encode_task(self@),
            task_fits(self@),
    {
        let mut out: Vec<u8> = Vec::new();
        write_task(self, &mut out);
        proof {
            assert(out@ =~= spec_encode_task(self@));
        }
        out
    }
}

impl TaskList {
    /// Encodes the list into the byte string kept in the stable store.
    pub fn to_bytes(&self) -> (r: Vec<u8>)
        ensures
            r@ == spec_encode_list(self@),
            list_fits(self@),
    {
        let mut out: Vec<u8> = Vec::new();
        out.push(FORMAT_TAG);
        let count = self.tasks.len();
        push_u64_le(&mut out, count as u64);
        let ghost header = seq![FORMAT_TAG] + spec_u64_le(count as u64);
        proof {
            assert(self@.take(0) =~= Seq::<TaskV>::empty());
            assert(out@ =~= header + spec_encode_tasks(self@.take(0)));
        }
        let mut i: usize = 0;
        while i < count
            invariant
                i <= count,
                count == self.tasks@.len(),
                self@.len() == self.tasks@.len(),
                out@ == header + spec_encode_tasks(self@.take(i as int)),
                forall|k: int| 0 <= k < i ==> task_fits(#[trigger] self@[k]),
            decreases count - i,
        {
            write_task(&self.tasks[i], &mut out);
            proof {
                assert(self@[i as int] == self.tasks@[i as int]@);
                lemma_encode_tasks_take_step(self@, i as int);
                assert(out@ =~= header + spec_encode_tasks(self@.take(i as int + 1)));
            }
            i += 1;
        }
        proof {
            assert(self@.take(count as int) =~= self@);
            assert(out@ =~= spec_encode_list(self@));
        }
        out
    }
}

proof fn lemma_task_prefix_parts(bytes: Seq<u8>, pos: int, tv: TaskV)
    requires
        task_fits(tv),
        0 <= pos,
        pos + spec_encode_task(tv).len() <= bytes.len(),
        bytes.subrange(pos, pos + spec_encode_task(tv).len()) == spec_encode_task(tv),
    ensures
        bytes.len() - pos >= 10 + encode_utf8(tv.title).len(),
        bytes[pos] == spec_bool_byte(tv.completed),
        bytes[pos + 1] == spec_bool_byte(tv.important),
        bytes.subrange(pos + 2, pos + 10) == spec_u64_le(encode_utf8(tv.title).len() as u64),
        bytes.subrange(pos + 10, pos + 10 + encode_utf8(tv.title).len()) == encode_utf8(tv.title),
{
    let enc = spec_encode_task(tv);
    let lt = encode_utf8(tv.title).len() as int;
    assert(enc.len() == 10 + lt);
    assert(bytes[pos] == bytes.subrange(pos, pos + enc.len())[0]);
    assert(bytes[pos + 1] == bytes.subrange(pos, pos + enc.len())[1]);
    assert(enc[0] == spec_bool_byte(tv.completed));
    assert(enc[1] == spec_bool_byte(tv.important));
    assert(bytes.subrange(pos + 2, pos + 10) =~= enc.subrange(2, 10));
    assert(enc.subrange(2, 10) =~= spec_u64_le(encode_utf8(tv.title).len() as u64));
    assert(bytes.subrange(pos + 10, pos + 10 + lt) =~= enc.subrange(10, 10 + lt));
    assert(enc.subrange(10, 10 + lt) =~= encode_utf8(tv.title));
}

/// Reads one encoded task starting at `pos`. Returns the task and the
/// position just past its encoding; accepts exactly the encodings of tasks.
fn parse_task(bytes: &Vec<u8>, pos: usize) -> (r: Option<(Task, usize)>)
    requires
        pos <= bytes@.len(),
    ensures
        r matches Some(p) ==> pos < p.1 <= bytes@.len() && task_fits(p.0@) && bytes@.subrange(
            pos as int,
            p.1 as int,
        ) == spec_encode_task(p.0@),
        forall|tv: TaskV|
            (task_fits(tv) && pos + #[trigger] spec_encode_task(tv).len() <= bytes@.len()
                && bytes@.subrange(pos as int, pos + spec_encode_task(tv).len())
                == spec_encode_task(tv)) ==> (r matches Some(p) && p.0@ == tv && p.1 == pos
                + spec_encode_task(tv).len()),
{
    let n = bytes.len();
    if n - pos < 10 {
        proof {
            assert forall|tv: TaskV|
                task_fits(tv) && pos + #[trigger] spec_encode_task(tv).len() <= bytes@.len()
                    && bytes@.subrange(pos as int, pos + spec_encode_task(tv).len())
                    == spec_encode_task(tv) implies false by {
                lemma_task_prefix_parts(bytes@, pos as int, tv);
            }
        }
        return None;
    }
    let cb = bytes[pos];
    if cb > 1 {
        proof {
            assert forall|tv: TaskV|
                task_fits(tv) && pos + #[trigger] spec_encode_task(tv).len() <= bytes@.len()
                    && bytes@.subrange(pos as int, pos + spec_encode_task(tv).len())
                    == spec_encode_task(tv) implies false by {
                lemma_task_prefix_parts(bytes@, pos as int, tv);
            }
        }
        return None;
    }
    let completed = cb == 1;
    let ib = bytes[pos + 1];
    if ib > 1 {
        proof {
            assert forall|tv: TaskV|
                task_fits(tv) && pos + #[trigger] spec_encode_task(tv).len() <= bytes@.len()
                    && bytes@.subrange(pos as int, pos + spec_encode_task(tv).len())
                    == spec_encode_task(tv) implies false by {
                lemma_task_prefix_parts(bytes@, pos as int, tv);
            }
        }
        return None;
    }
    let important = ib == 1;
    let m = read_u64_le(bytes, pos + 2);
    let rem = n - pos - 10;
    if m > rem as u64 {
        proof {
            assert forall|tv: TaskV|
                task_fits(tv) && pos + #[trigger] spec_encode_task(tv).len() <= bytes@.len()
                    && bytes@.subrange(pos as int, pos + spec_encode_task(tv).len())
                    == spec_encode_task(tv) implies false by {
                lemma_task_prefix_parts(bytes@, pos as int, tv);
                lemma_spec_u64_le_injective(m, encode_utf8(tv.title).len() as u64);
            }
        }
        return None;
    }
    let mlen = m as usize;
    let start = pos + 10;
    let end = start + mlen;
    let seg = slice_to_vec(slice_subrange(bytes.as_slice(), start, end));
    let ghost segv = seg@;
    let title = match bytes_to_string(seg) {
        Some(s) => s,
        None => {
            proof {
                assert forall|tv: TaskV|
                    task_fits(tv) && pos + #[trigger] spec_encode_task(tv).len() <= bytes@.len()
                        && bytes@.subrange(pos as int, pos + spec_encode_task(tv).len())
                        == spec_encode_task(tv) implies false by {
                    lemma_task_prefix_parts(bytes@, pos as int, tv);
                    lemma_spec_u64_le_injective(m, encode_utf8(tv.title).len() as u64);
                    assert(segv =~= encode_utf8(tv.title));
                    encode_utf8_valid_utf8(tv.title);
                }
            }
            return None;
        },
    };
    let t = Task::new(title, completed, important);
    let np = end;
    proof {
        assert(encode_utf8(t@.title) == segv);
        assert(encode_utf8(t@.title).len() == mlen);
        assert(spec_u64_le(mlen as u64) == bytes@.subrange(pos as int + 2, pos as int + 10));
        assert(bytes@.subrange(pos as int, np as int) =~= spec_encode_task(t@)) by {
            assert(spec_encode_task(t@).len() == 10 + mlen);
            assert(forall|k: int|
                2 <= k < 10 ==> spec_encode_task(t@)[k] == spec_u64_le(mlen as u64)[k - 2]);
            assert(forall|k: int|
                10 <= k < 10 + mlen ==> spec_encode_task(t@)[k] == segv[k - 10]);
            assert(forall|k: int|
                0 <= k < mlen ==> segv[k] == bytes@[pos as int + 10 + k]);
        }
        assert forall|tv: TaskV|
            task_fits(tv) && pos + #[trigger] spec_encode_task(tv).len() <= bytes@.len()
                && bytes@.subrange(pos as int, pos + spec_encode_task(tv).len())
                == spec_encode_task(tv) implies t@ == tv && np == pos + spec_encode_task(
            tv,
        ).len() by {
            lemma_task_prefix_parts(bytes@, pos as int, tv);
            lemma_spec_u64_le_injective(m, encode_utf8(tv.title).len() as u64);
            assert(segv =~= encode_utf8(tv.title));
            lemma_encode_utf8_injective(t@.title, tv.title);
            assert(t@ =~= tv);
        }
    }
    Some((t, np))
}

proof fn lemma_list_encoding_parts(bytes: Seq<u8>, l: Seq<TaskV>)
    requires
        list_fits(l),
        spec_encode_list(l) == bytes,
    ensures
        bytes.len() >= 9,
        bytes[0] == FORMAT_TAG,
        bytes.subrange(1, 9) == spec_u64_le(l.len() as u64),
        bytes.subrange(9, bytes.len() as int) == spec_encode_tasks(l),
        bytes.len() == 9 + spec_encode_tasks(l).len(),
{
    let enc = spec_encode_list(l);
    assert(enc.len() == 9 + spec_encode_tasks(l).len());
    assert(enc[0] == FORMAT_TAG);
    assert(bytes.subrange(1, 9) =~= spec_u64_le(l.len() as u64));
    assert(bytes.subrange(9, bytes.len() as int) =~= spec_encode_tasks(l));
}

impl Task {
    /// Decodes a task. Returns the task whose encoding is exactly `bytes`,
    /// and `None` on any other input.
    ///
    /// A decode failure means the call that needed the value cannot go on;
    /// `None` hands that decision to the caller instead of aborting here,
    /// which is what lets the store prove the failure unreachable wherever
    /// the bytes were written by `to_bytes`.
    pub fn from_bytes(bytes: &Vec<u8>) -> (r: Option<Task>)
        ensures
            r matches Some(t) ==> task_fits(t@) && spec_encode_task(t@) == bytes@,
            forall|tv: TaskV|
                (task_fits(tv) && #[trigger] spec_encode_task(tv) == bytes@) ==> (r matches Some(t)
                    && t@ == tv),
    {
        let n = bytes.len();
        let r = parse_task(bytes, 0);
        match r {
            Some((t, np)) => {
                if np == n {
                    proof {
                        assert(bytes@.subrange(0, np as int) =~= bytes@);
                    }
                    let ghost tt = t;
                    proof {
                        assert forall|tv: TaskV|
                            task_fits(tv) && #[trigger] spec_encode_task(tv)
                                == bytes@ implies tt@ == tv by {
                            assert(bytes@.subrange(0, spec_encode_task(tv).len() as int) =~= bytes@);
                        }
                    }
                    Some(t)
                } else {
                    proof {
                        assert forall|tv: TaskV|
                            task_fits(tv) && #[trigger] spec_encode_task(tv)
                                == bytes@ implies false by {
                            assert(bytes@.subrange(0, spec_encode_task(tv).len() as int) =~= bytes@);
                        }
                    }
                    None
                }
            },
            None => {
                proof {
                    assert forall|tv: TaskV|
                        task_fits(tv) && #[trigger] spec_encode_task(tv) == bytes@ implies false by {
                        assert(bytes@.subrange(0, spec_encode_task(tv).len() as int) =~= bytes@);
                    }
                }
                None
            },
        }
    }
}

impl TaskList {
    /// Decodes a task list. Returns the list whose encoding is exactly
    /// `bytes`, and `None` on any other input.
    ///
    /// Failure to decode stored data is unrecoverable for the call that hit
    /// it: no partial list is ever returned. `None` hands the abort decision
    /// to the caller instead of panicking here; the store's operations prove
    /// the case unreachable for a well-formed store, and its recovery path
    /// surfaces it as a failure to open the store at all.
    pub fn from_bytes(bytes: &Vec<u8>) -> (r: Option<TaskList>)
        ensures
            r matches Some(tl) ==> list_fits(tl@) && spec_encode_list(tl@) == bytes@,
            forall|l: Seq<TaskV>|
                (list_fits(l) && #[trigger] spec_encode_list(l) == bytes@) ==> (r matches Some(tl)
                    && tl@ == l),
    {
        let n = bytes.len();
        if n < 9 {
            proof {
                assert forall|l: Seq<TaskV>|
                    list_fits(l) && #[trigger] spec_encode_list(l) == bytes@ implies false by {
                    lemma_list_encoding_parts(bytes@, l);
                }
            }
            return None;
        }
        if bytes[0] != FORMAT_TAG {
            proof {
                assert forall|l: Seq<TaskV>|
                    list_fits(l) && #[trigger] spec_encode_list(l) == bytes@ implies false by {
                    lemma_list_encoding_parts(bytes@, l);
                }
            }
            return None;
        }
        let cnt = read_u64_le(bytes, 1);
        let mut tasks: Vec<Task> = Vec::new();
        let mut pos: usize = 9;
        let mut j: u64 = 0;
        proof {
            assert(task_views(tasks@) =~= Seq::<TaskV>::empty());
            assert(bytes@.subrange(9, 9) =~= spec_encode_tasks(task_views(tasks@)));
            assert forall|l: Seq<TaskV>|
                (list_fits(l) && #[trigger] spec_encode_list(l) == bytes@) implies (l.len() == cnt
                && task_views(tasks@) == l.take(0) && 9 == 9 + spec_encode_tasks(
                l.take(0),
            ).len()) by {
                lemma_list_encoding_parts(bytes@, l);
                lemma_spec_u64_le_injective(cnt, l.len() as u64);
                assert(l.take(0) =~= Seq::<TaskV>::empty());
                assert(task_views(tasks@) =~= l.take(0));
                assert(spec_encode_tasks(l.take(0)).len() == 0);
            }
        }
        while j < cnt
            invariant
                9 <= pos <= bytes@.len(),
                j <= cnt,
                tasks@.len() == j,
                forall|k: int| 0 <= k < j ==> task_fits(#[trigger] task_views(tasks@)[k]),
                bytes@.subrange(9, pos as int) == spec_encode_tasks(task_views(tasks@)),
                spec_u64_le(cnt) == bytes@.subrange(1, 9),
                forall|l: Seq<TaskV>|
                    (list_fits(l) && #[trigger] spec_encode_list(l) == bytes@) ==> (l.len() == cnt
                        && j <= l.len() && task_views(tasks@) == l.take(j as int) && pos as int == 9
                        + spec_encode_tasks(l.take(j as int)).len()),
            decreases cnt - j,
        {
            let parsed = parse_task(bytes, pos);
            match parsed {
                None => {
                    proof {
                        assert forall|l: Seq<TaskV>|
                            list_fits(l) && #[trigger] spec_encode_list(l)
                                == bytes@ implies false by {
                            lemma_list_encoding_parts(bytes@, l);
                            lemma_encode_tasks_mid(l, j as int);
                            lemma_subrange_of_tasks(bytes@, l, j as int, pos as int);
                        }
                    }
                    return None;
                },
                Some((t, np)) => {
                    let ghost before = tasks@;
                    tasks.push(t);
                    proof {
                        assert(task_views(tasks@) =~= task_views(before).push(t@));
                        lemma_encode_tasks_push(task_views(before), t@);
                        assert(bytes@.subrange(9, np as int) =~= bytes@.subrange(9, pos as int)
                            + bytes@.subrange(pos as int, np as int));
                        assert(bytes@.subrange(9, np as int) == spec_encode_tasks(
                            task_views(tasks@),
                        ));
                        assert forall|l: Seq<TaskV>|
                            (list_fits(l) && #[trigger] spec_encode_list(l) == bytes@) implies (
                        l.len() == cnt && j + 1 <= l.len() && task_views(tasks@) == l.take(
                            j as int + 1,
                        ) && np as int == 9 + spec_encode_tasks(l.take(j as int + 1)).len()) by {
                            lemma_list_encoding_parts(bytes@, l);
                            lemma_encode_tasks_mid(l, j as int);
                            lemma_subrange_of_tasks(bytes@, l, j as int, pos as int);
                            assert(t@ == l[j as int]);
                            assert(l.take(j as int + 1) =~= l.take(j as int).push(l[j as int]));
                            lemma_encode_tasks_take_step(l, j as int);
                            assert(task_views(tasks@) =~= l.take(j as int + 1));
                        }
                    }
                    pos = np;
                    j = j + 1;
                },
            }
        }
        if pos != n {
            proof {
                assert forall|l: Seq<TaskV>|
                    list_fits(l) && #[trigger] spec_encode_list(l) == bytes@ implies false by {
                    lemma_list_encoding_parts(bytes@, l);
                    lemma_spec_u64_le_injective(cnt, l.len() as u64);
                    assert(l.take(j as int) =~= l);
                }
            }
            return None;
        }
        let tl = TaskList { tasks };
        proof {
            assert(tl@.len() == j);
            assert(spec_encode_list(tl@) =~= bytes@) by {
                assert(bytes@.subrange(9, n as int) == spec_encode_tasks(tl@));
                assert(spec_u64_le(tl@.len() as u64) == bytes@.subrange(1, 9));
                assert(spec_encode_list(tl@).len() == 9 + (n - 9));
                assert(forall|k: int|
                    1 <= k < 9 ==> spec_encode_list(tl@)[k] == bytes@.subrange(1, 9)[k - 1]);
                assert(forall|k: int|
                    9 <= k < n ==> spec_encode_list(tl@)[k] == bytes@.subrange(9, n as int)[k - 9]);
            }
            assert forall|l: Seq<TaskV>|
                (list_fits(l) && #[trigger] spec_encode_list(l) == bytes@) implies tl@ == l by {
                assert(l.take(j as int) =~= l);
            }
        }
        Some(tl)
    }
}

/// Inside a whole-list encoding, the bytes at the position after task `i`'s
/// predecessors are exactly task `i`'s encoding.
proof fn lemma_subrange_of_tasks(bytes: Seq<u8>, l: Seq<TaskV>, i: int, pos: int)
    requires
        list_fits(l),
        spec_encode_list(l) == bytes,
        0 <= i < l.len(),
        pos == 9 + spec_encode_tasks(l.take(i)).len(),
    ensures
        pos + spec_encode_task(l[i]).len() <= bytes.len(),
        bytes.subrange(pos, pos + spec_encode_task(l[i]).len()) == spec_encode_task(l[i]),
        task_fits(l[i]),
{
    lemma_list_encoding_parts(bytes, l);
    lemma_encode_tasks_mid(l, i);
    let a = spec_encode_tasks(l.take(i));
    let b = spec_encode_task(l[i]);
    let c = spec_encode_tasks(l.skip(i + 1));
    assert(bytes.subrange(9, bytes.len() as int) == a + b + c);
    assert(bytes.len() - 9 == a.len() + b.len() + c.len());
    assert forall|k: int| 0 <= k < b.len() implies bytes[pos + k] == b[k] by {
        assert(bytes[pos + k] == bytes.subrange(9, bytes.len() as int)[pos - 9 + k]);
        assert((a + b + c)[pos - 9 + k] == b[k]);
    }
    assert(bytes.subrange(pos, pos + b.len()) =~= b);
}

} // verus!

//! The data buffers of a command: pieces of the shared region that are read and written as if
//! they were one buffer.
use crate::error::TcmuError;
#[allow(unused_imports)]
use crate::tcmu::{iov_table, iov_table_fits, iovec_at};
use crate::tcmu::{CmdEntry, IoVec, ENTRY_IOV, IOVEC_SIZE};
use vstd::prelude::*;

verus! {

/// The `len` offsets from `start` on.
pub open spec fn span(start: int, len: int) -> Seq<int> {
    Seq::new(len as nat, |k: int| start + k)
}

/// The offsets of the bytes of the buffers from number `i` on, without the first `pos` bytes of
/// that one, in the order in which they are read and written.
pub open spec fn offsets_from(iov: Seq<IoVec>, i: int, pos: int) -> Seq<int>
    decreases iov.len() - i,
{
    if i >= iov.len() {
        Seq::empty()
    } else {
        span(iov[i].iov_base + pos, iov[i].iov_len - pos) + offsets_from(iov, i + 1, 0)
    }
}

/// Whether each offset lies inside a region of `size` bytes.
pub open spec fn inside(offsets: Seq<int>, size: nat) -> bool {
    forall|k: int| 0 <= k < offsets.len() ==> 0 <= #[trigger] offsets[k] < size
}

/// The region after the bytes of `data` were written to the offsets, one after the other.
pub open spec fn scatter(mem: Seq<u8>, offsets: Seq<int>, data: Seq<u8>) -> Seq<u8>
    decreases offsets.len(),
{
    if offsets.len() == 0 {
        mem
    } else {
        scatter(mem, offsets.drop_last(), data.drop_last()).update(offsets.last(), data.last())
    }
}

/// The bytes of the region at the offsets.
pub open spec fn gather(mem: Seq<u8>, offsets: Seq<int>) -> Seq<u8> {
    Seq::new(offsets.len(), |k: int| mem[offsets[k]])
}

/// The place, by the number of a buffer and a position in it, at which a read or a write of `want`
/// bytes ends that begins at byte `pos` of buffer `i`. A buffer that is used up is left; one that
/// is empty is passed over only on the way to a further byte.
pub open spec fn place_after(iov: Seq<IoVec>, i: int, pos: int, want: int) -> (int, int)
    decreases iov.len() - i,
{
    if want <= 0 || i >= iov.len() {
        (i, pos)
    } else if want >= iov[i].iov_len - pos {
        place_after(iov, i + 1, 0, want - (iov[i].iov_len - pos))
    } else {
        (i, pos + want)
    }
}

/// Whether the place `b` is `a` or one behind it.
pub open spec fn not_before(b: (int, int), a: (int, int)) -> bool {
    b.0 > a.0 || b.0 == a.0 && b.1 >= a.1
}

/// How many of `want` bytes there is room for in `room` bytes.
pub open spec fn least(want: nat, room: nat) -> nat {
    if want <= room {
        want
    } else {
        room
    }
}

/// The buffers of one command, with a position that each read and each write moves on.
pub struct DataBuffer {
    iov: Vec<IoVec>,
    i: usize,
    pos: u64,
}

impl DataBuffer {
    /// The table of the buffers.
    pub closed spec fn table(&self) -> Seq<IoVec> {
        self.iov@
    }

    /// The number of the buffer that is read or written next, and the position in it.
    pub closed spec fn place(&self) -> (int, int) {
        (self.i as int, self.pos as int)
    }

    /// The place is the start of a buffer, inside one, or behind the last.
    pub open spec fn wf(&self) -> bool {
        let (i, pos) = self.place();
        &&& 0 <= i <= self.table().len()
        &&& pos == 0 || i < self.table().len() && 0 < pos < self.table()[i].iov_len
    }

    /// The offsets of the bytes that were not yet read or written.
    pub open spec fn remaining(&self) -> Seq<int> {
        offsets_from(self.table(), self.place().0, self.place().1)
    }

    /// The buffers of `ent`, from the first byte on. Fails if the table of them does not lie
    /// inside the region.
    pub fn new(ent: &CmdEntry, base: &[u8]) -> (r: Result<DataBuffer, TcmuError>)
        ensures
            match r {
                Ok(b) => {
                    &&& iov_table_fits(base@, ent.off as int, ent.iov_cnt as nat)
                    &&& b.wf()
                    &&& b.table() == iov_table(base@, ent.off as int, ent.iov_cnt as nat)
                    &&& b.place() == (0int, 0int)
                },
                Err(e) => {
                    &&& !iov_table_fits(base@, ent.off as int, ent.iov_cnt as nat)
                    &&& e == TcmuError::OutOfBounds
                },
            },
    {
        let size: usize = base.len();
        if size < ENTRY_IOV || ent.off > size - ENTRY_IOV || ent.iov_cnt as usize > (size
            - ENTRY_IOV - ent.off) / IOVEC_SIZE {
            return Err(TcmuError::OutOfBounds);
        }
        let cnt: usize = ent.iov_cnt as usize;
        let first: usize = ent.off + ENTRY_IOV;
        let mut iov: Vec<IoVec> = Vec::new();
        let mut k: usize = 0;
        while k < cnt
            invariant
                k <= cnt,
                iov@.len() == k,
                first + IOVEC_SIZE * cnt <= base.len(),
                forall|j: int|
                    0 <= j < k ==> iov@[j] == iovec_at(base@, first + IOVEC_SIZE * j),
            decreases cnt - k,
        {
            iov.push(IoVec::load(base, first + IOVEC_SIZE * k));
            k += 1;
        }
        assert(iov@ =~= iov_table(base@, ent.off as int, ent.iov_cnt as nat));
        Ok(DataBuffer { iov, i: 0, pos: 0 })
    }

    /// How far one step goes from byte `pos` of buffer `i`: to its end, or as far as `want` bytes
    /// reach. Returns the number of bytes and the position behind them.
    fn step(&self, i: usize, pos: u64, want: usize) -> (r: (usize, usize, u64))
        requires
            want > 0,
            i < self.iov.len(),
            pos <= self.iov@[i as int].iov_len,
        ensures
            r.0 <= want,
            r.0 <= self.iov@[i as int].iov_len - pos,
            r.1 <= self.iov@.len(),
            r.2 == 0 || r.1 < self.iov@.len() && r.2 < self.iov@[r.1 as int].iov_len,
            place_after(self.iov@, i as int, pos as int, want as int) == place_after(
                self.iov@,
                r.1 as int,
                r.2 as int,
                want - r.0,
            ),
            r.1 == i + 1 || r.1 == i && r.0 == want,
            ({
                let a = offsets_from(self.iov@, i as int, pos as int);
                &&& r.0 <= a.len()
                &&& a.take(r.0 as int) == span(self.iov@[i as int].iov_base + pos, r.0 as int)
                &&& a.skip(r.0 as int) == offsets_from(self.iov@, r.1 as int, r.2 as int)
            }),
    {
        let room: u64 = self.iov[i].iov_len - pos;
        let ghost a = offsets_from(self.iov@, i as int, pos as int);
        let ghost start = self.iov@[i as int].iov_base + pos;
        if want as u64 >= room {
            let l: usize = room as usize;
            assert(a.take(l as int) =~= span(start, l as int));
            assert(a.skip(l as int) =~= offsets_from(self.iov@, i + 1, 0));
            (l, i + 1, 0)
        } else {
            assert(a.take(want as int) =~= span(start, want as int));
            assert(a.skip(want as int) =~= offsets_from(self.iov@, i as int, pos + want));
            (want, i, pos + want as u64)
        }
    }

    /// The number of bytes that a read or a write of `want` bytes moves, or `None` if one of them
    /// lies outside a region of `size` bytes.
    fn reach(&self, want: usize, size: usize) -> (r: Option<usize>)
        requires
            self.wf(),
        ensures
            ({
                let n = least(want as nat, self.remaining().len());
                if inside(self.remaining().take(n as int), size as nat) {
                    r == Some(n as usize)
                } else {
                    r is None
                }
            }),
    {
        let mut n: usize = 0;
        let mut i: usize = self.i;
        let mut pos: u64 = self.pos;
        let ghost a = self.remaining();
        let ghost total = least(want as nat, a.len());
        while n < want && i < self.iov.len()
            invariant
                n <= want,
                i <= self.iov@.len(),
                i < self.iov@.len() ==> pos <= self.iov@[i as int].iov_len,
                a == self.remaining(),
                total == least(want as nat, a.len()),
                n <= a.len(),
                a.skip(n as int) == offsets_from(self.iov@, i as int, pos as int),
                inside(a.take(n as int), size as nat),
            decreases self.iov@.len() - i, want - n,
        {
            let iov_base: u64 = self.iov[i].iov_base;
            let (l, next_i, next_pos) = self.step(i, pos, want - n);
            let ghost rest = a.skip(n as int);
            let ghost start = iov_base + pos;
            assert(forall|k: int|
                0 <= k < l ==> #[trigger] a[n + k] == start + k) by {
                assert forall|k: int| 0 <= k < l implies #[trigger] a[n + k] == start + k by {
                    assert(rest[k] == a[n + k]);
                    assert(rest.take(l as int)[k] == rest[k]);
                }
            }
            if l > 0 && (l > size || pos > (size - l) as u64 || iov_base > (size - l) as u64
                - pos) {
                assert(start + l > size);
                assert(a.take(total as int)[n + l - 1] == a[n + (l - 1)]);
                return None;
            }
            assert(inside(a.take(n + l), size as nat)) by {
                assert forall|k: int| 0 <= k < n + l implies 0 <= #[trigger] a.take(n + l)[k]
                    < size by {
                    if k < n {
                        assert(a.take(n as int)[k] == a[k]);
                    } else {
                        assert(a[n + (k - n)] == start + (k - n));
                    }
                }
            }
            assert(a.skip(n + l) =~= rest.skip(l as int));
            n += l;
            i = next_i;
            pos = next_pos;
        }
        assert(n == total);
        Some(n)
    }

    /// Writes `buf` into the buffers, as far as there is room, and returns the number of bytes
    /// written. Writes nothing if one of them would lie outside the region.
    pub fn write(&mut self, base: &mut [u8], buf: &[u8]) -> (r: Result<usize, TcmuError>)
        requires
            old(self).wf(),
        ensures
            final(self).wf(),
            final(self).table() == old(self).table(),
            not_before(final(self).place(), old(self).place()),
            buf@.len() == 0 ==> r == Ok::<usize, TcmuError>(0) && final(self).place() == old(
                self,
            ).place(),
            ({
                let n = least(buf@.len(), old(self).remaining().len());
                let touched = old(self).remaining().take(n as int);
                if inside(touched, old(base)@.len()) {
                    &&& r == Ok::<usize, TcmuError>(n as usize)
                    &&& final(self).remaining() == old(self).remaining().skip(n as int)
                    &&& final(self).place() == place_after(
                        old(self).table(),
                        old(self).place().0,
                        old(self).place().1,
                        buf@.len() as int,
                    )
                    &&& final(base)@ == scatter(old(base)@, touched, buf@.take(n as int))
                } else {
                    &&& r == Err::<usize, TcmuError>(TcmuError::OutOfBounds)
                    &&& *final(self) == *old(self)
                    &&& final(base)@ == old(base)@
                }
            }),
    {
        let n: usize = match self.reach(buf.len(), base.len()) {
            Some(n) => n,
            None => {
                return Err(TcmuError::OutOfBounds);
            },
        };
        proof {
            lemma_place_forward(self.iov@, self.i as int, self.pos as int, buf@.len() as int);
        }
        let ghost a = self.remaining();
        let ghost end = place_after(self.iov@, self.i as int, self.pos as int, buf@.len() as int);
        let ghost mem = base@;
        let mut done: usize = 0;
        assert(a.skip(0) =~= a);
        while done < buf.len() && self.i < self.iov.len()
            invariant
                self.wf(),
                self.table() == old(self).table(),
                end == place_after(
                    self.iov@,
                    self.i as int,
                    self.pos as int,
                    buf@.len() - done,
                ),
                done <= n,
                n == least(buf@.len(), a.len()),
                a.skip(done as int) == self.remaining(),
                inside(a.take(n as int), mem.len()),
                base@.len() == mem.len(),
                base@ == scatter(mem, a.take(done as int), buf@.take(done as int)),
            decreases self.iov@.len() - self.i, buf@.len() - done,
        {
            let iov_base: u64 = self.iov[self.i].iov_base;
            let pos: u64 = self.pos;
            let (l, next_i, next_pos) = self.step(self.i, self.pos, buf.len() - done);
            let ghost rest = a.skip(done as int);
            let mut j: usize = 0;
            while j < l
                invariant
                    j <= l,
                    done + l <= n,
                    n == least(buf@.len(), a.len()),
                    rest == a.skip(done as int),
                    rest.take(l as int) == span(iov_base + pos, l as int),
                    inside(a.take(n as int), mem.len()),
                    base@.len() == mem.len(),
                    base@ == scatter(mem, a.take(done + j), buf@.take(done + j)),
                decreases l - j,
            {
                assert(a[done + j] == iov_base + pos + j) by {
                    assert(rest[j as int] == a[done + j]);
                    assert(rest.take(l as int)[j as int] == rest[j as int]);
                }
                assert(a.take(n as int)[done + j] == a[done + j]);
                assert(base.len() == base@.len());
                base[(iov_base + pos) as usize + j] = buf[done + j];
                assert(a.take(done + j + 1).drop_last() =~= a.take(done + j));
                assert(buf@.take(done + j + 1).drop_last() =~= buf@.take(done + j));
                j += 1;
            }
            assert(a.skip(done + l) =~= rest.skip(l as int));
            self.i = next_i;
            self.pos = next_pos;
            done += l;
        }
        assert(done == n);
        Ok(done)
    }

    /// Fills `buf` from the buffers, as far as they reach, and returns the number of bytes read.
    /// Reads nothing if one of them would lie outside the region.
    pub fn read(&mut self, base: &[u8], buf: &mut [u8]) -> (r: Result<usize, TcmuError>)
        requires
            old(self).wf(),
        ensures
            final(self).wf(),
            final(self).table() == old(self).table(),
            not_before(final(self).place(), old(self).place()),
            old(buf)@.len() == 0 ==> r == Ok::<usize, TcmuError>(0) && final(self).place() == old(
                self,
            ).place(),
            ({
                let n = least(old(buf)@.len(), old(self).remaining().len());
                let touched = old(self).remaining().take(n as int);
                if inside(touched, base@.len()) {
                    &&& r == Ok::<usize, TcmuError>(n as usize)
                    &&& final(self).remaining() == old(self).remaining().skip(n as int)
                    &&& final(self).place() == place_after(
                        old(self).table(),
                        old(self).place().0,
                        old(self).place().1,
                        old(buf)@.len() as int,
                    )
                    &&& final(buf)@ == gather(base@, touched) + old(buf)@.skip(n as int)
                } else {
                    &&& r == Err::<usize, TcmuError>(TcmuError::OutOfBounds)
                    &&& *final(self) == *old(self)
                    &&& final(buf)@ == old(buf)@
                }
            }),
    {
        let n: usize = match self.reach(buf.len(), base.len()) {
            Some(n) => n,
            None => {
                return Err(TcmuError::OutOfBounds);
            },
        };
        proof {
            lemma_place_forward(self.iov@, self.i as int, self.pos as int, buf@.len() as int);
        }
        let ghost a = self.remaining();
        let ghost end = place_after(self.iov@, self.i as int, self.pos as int, buf@.len() as int);
        let ghost before = buf@;
        let size: usize = buf.len();
        let mut done: usize = 0;
        assert(a.skip(0) =~= a);
        assert(buf@ =~= gather(base@, a.take(0)) + before.skip(0));
        while done < size && self.i < self.iov.len()
            invariant
                self.wf(),
                self.table() == old(self).table(),
                end == place_after(self.iov@, self.i as int, self.pos as int, size - done),
                done <= n,
                size == before.len(),
                n == least(before.len(), a.len()),
                a.skip(done as int) == self.remaining(),
                inside(a.take(n as int), base@.len()),
                buf@ == gather(base@, a.take(done as int)) + before.skip(done as int),
            decreases self.iov@.len() - self.i, size - done,
        {
            let iov_base: u64 = self.iov[self.i].iov_base;
            let pos: u64 = self.pos;
            let (l, next_i, next_pos) = self.step(self.i, self.pos, size - done);
            let ghost rest = a.skip(done as int);
            let mut j: usize = 0;
            while j < l
                invariant
                    j <= l,
                    done + l <= n,
                    n == least(before.len(), a.len()),
                    rest == a.skip(done as int),
                    rest.take(l as int) == span(iov_base + pos, l as int),
                    inside(a.take(n as int), base@.len()),
                    buf@ == gather(base@, a.take(done + j)) + before.skip(done + j),
                decreases l - j,
            {
                assert(a[done + j] == iov_base + pos + j) by {
                    assert(rest[j as int] == a[done + j]);
                    assert(rest.take(l as int)[j as int] == rest[j as int]);
                }
                assert(a.take(n as int)[done + j] == a[done + j]);
                assert(base.len() == base@.len());
                buf[done + j] = base[(iov_base + pos) as usize + j];
                assert(buf@ =~= gather(base@, a.take(done + j + 1)) + before.skip(done + j + 1));
                j += 1;
            }
            assert(a.skip(done + l) =~= rest.skip(l as int));
            self.i = next_i;
            self.pos = next_pos;
            done += l;
        }
        assert(done == n);
        Ok(done)
    }
}

/// A read or a write never goes back.
proof fn lemma_place_forward(iov: Seq<IoVec>, i: int, pos: int, want: int)
    ensures
        not_before(place_after(iov, i, pos, want), (i, pos)),
    decreases iov.len() - i,
{
    if want > 0 && i < iov.len() && want >= iov[i].iov_len - pos {
        lemma_place_forward(iov, i + 1, 0, want - (iov[i].iov_len - pos));
    }
}

/// Two reads or writes, one after the other, end at the place where one of both sizes ends.
pub proof fn lemma_two_places(iov: Seq<IoVec>, i: int, pos: int, want1: nat, want2: nat)
    requires
        0 <= i,
        0 <= pos,
        i < iov.len() ==> pos <= iov[i].iov_len,
    ensures
        ({
            let (i1, pos1) = place_after(iov, i, pos, want1 as int);
            place_after(iov, i1, pos1, want2 as int) == place_after(
                iov,
                i,
                pos,
                (want1 + want2) as int,
            )
        }),
    decreases iov.len() - i,
{
    if want1 > 0 && i < iov.len() && want1 >= iov[i].iov_len - pos {
        let rest = (want1 - (iov[i].iov_len - pos)) as nat;
        lemma_two_places(iov, i + 1, 0, rest, want2);
    }
}

/// A write changes no byte but those at its offsets, and keeps the size of the region.
pub proof fn lemma_scatter_frame(mem: Seq<u8>, offsets: Seq<int>, data: Seq<u8>)
    requires
        offsets.len() == data.len(),
        inside(offsets, mem.len()),
    ensures
        scatter(mem, offsets, data).len() == mem.len(),
        forall|i: int|
            0 <= i < mem.len() && !offsets.contains(i) ==> scatter(mem, offsets, data)[i]
                == mem[i],
    decreases offsets.len(),
{
    if offsets.len() > 0 {
        let init = offsets.drop_last();
        assert forall|k: int| 0 <= k < init.len() implies 0 <= #[trigger] init[k] < mem.len() by {
            assert(init[k] == offsets[k]);
        }
        lemma_scatter_frame(mem, init, data.drop_last());
        assert forall|i: int| 0 <= i < mem.len() && !offsets.contains(i) implies scatter(
            mem,
            offsets,
            data,
        )[i] == mem[i] by {
            assert(offsets[offsets.len() - 1] == offsets.last());
            assert(!init.contains(i)) by {
                if init.contains(i) {
                    let k = init.index_of(i);
                    assert(offsets[k] == i);
                }
            }
        }
    }
}

/// What was written is read back, where no two of the buffers overlap.
pub proof fn lemma_read_back(mem: Seq<u8>, offsets: Seq<int>, data: Seq<u8>)
    requires
        offsets.len() == data.len(),
        inside(offsets, mem.len()),
        offsets.no_duplicates(),
    ensures
        gather(scatter(mem, offsets, data), offsets) == data,
    decreases offsets.len(),
{
    if offsets.len() > 0 {
        let init = offsets.drop_last();
        let d = data.drop_last();
        assert forall|k: int| 0 <= k < init.len() implies 0 <= #[trigger] init[k] < mem.len() by {
            assert(init[k] == offsets[k]);
        }
        lemma_read_back(mem, init, d);
        lemma_scatter_frame(mem, init, d);
        let m = scatter(mem, init, d);
        let out = scatter(mem, offsets, data);
        assert(0 <= offsets[offsets.len() - 1] < mem.len());
        assert forall|k: int| 0 <= k < data.len() implies #[trigger] gather(out, offsets)[k]
            == data[k] by {
            if k < init.len() {
                assert(gather(m, init)[k] == d[k]);
                assert(offsets[k] != offsets[offsets.len() - 1]);
                assert(init[k] == offsets[k]);
            }
        }
    }
    assert(gather(scatter(mem, offsets, data), offsets) =~= data);
}

proof fn lemma_scatter_joins(
    mem: Seq<u8>,
    offsets1: Seq<int>,
    data1: Seq<u8>,
    offsets2: Seq<int>,
    data2: Seq<u8>,
)
    requires
        offsets1.len() == data1.len(),
        offsets2.len() == data2.len(),
    ensures
        scatter(scatter(mem, offsets1, data1), offsets2, data2) == scatter(
            mem,
            offsets1 + offsets2,
            data1 + data2,
        ),
    decreases offsets2.len(),
{
    if offsets2.len() == 0 {
        assert(offsets1 + offsets2 =~= offsets1);
        assert(data1 + data2 =~= data1);
    } else {
        lemma_scatter_joins(mem, offsets1, data1, offsets2.drop_last(), data2.drop_last());
        assert((offsets1 + offsets2).drop_last() =~= offsets1 + offsets2.drop_last());
        assert((data1 + data2).drop_last() =~= data1 + data2.drop_last());
    }
}

/// Two writes, one after the other, do what one write of both does, also where there is not room
/// for all.
pub proof fn lemma_two_writes(mem: Seq<u8>, offsets: Seq<int>, data1: Seq<u8>, data2: Seq<u8>)
    ensures
        ({
            let n1 = least(data1.len(), offsets.len());
            let rest = offsets.skip(n1 as int);
            let n2 = least(data2.len(), rest.len());
            let n = least((data1 + data2).len(), offsets.len());
            let mem1 = scatter(mem, offsets.take(n1 as int), data1.take(n1 as int));
            &&& n == n1 + n2
            &&& scatter(mem1, rest.take(n2 as int), data2.take(n2 as int)) == scatter(
                mem,
                offsets.take(n as int),
                (data1 + data2).take(n as int),
            )
        }),
{
    let n1 = least(data1.len(), offsets.len());
    let rest = offsets.skip(n1 as int);
    let n2 = least(data2.len(), rest.len());
    lemma_scatter_joins(
        mem,
        offsets.take(n1 as int),
        data1.take(n1 as int),
        rest.take(n2 as int),
        data2.take(n2 as int),
    );
    assert(offsets.take(n1 as int) + rest.take(n2 as int) =~= offsets.take((n1 + n2) as int));
    assert(data1.take(n1 as int) + data2.take(n2 as int) =~= (data1 + data2).take(
        (n1 + n2) as int,
    ));
}

/// Two reads, one after the other, give what one read of both sizes gives.
pub proof fn lemma_two_reads(mem: Seq<u8>, offsets: Seq<int>, size1: nat, size2: nat)
    ensures
        ({
            let n1 = least(size1, offsets.len());
            let rest = offsets.skip(n1 as int);
            let n2 = least(size2, rest.len());
            let n = least(size1 + size2, offsets.len());
            &&& n == n1 + n2
            &&& gather(mem, offsets.take(n1 as int)) + gather(mem, rest.take(n2 as int)) == gather(
                mem,
                offsets.take(n as int),
            )
        }),
{
    let n1 = least(size1, offsets.len());
    let rest = offsets.skip(n1 as int);
    let n2 = least(size2, rest.len());
    assert(gather(mem, offsets.take(n1 as int)) + gather(mem, rest.take(n2 as int)) =~= gather(
        mem,
        offsets.take((n1 + n2) as int),
    ));
}

/// The number of bytes in the first `k` buffers.
pub open spec fn total(iov: Seq<IoVec>, k: int) -> int
    decreases k,
{
    if k <= 0 {
        0
    } else {
        total(iov, k - 1) + iov[k - 1].iov_len
    }
}

/// More buffers do not hold fewer bytes.
proof fn lemma_total_grows(iov: Seq<IoVec>, a: int, b: int)
    requires
        0 <= a <= b <= iov.len(),
    ensures
        0 <= total(iov, a) <= total(iov, b),
    decreases b,
{
    if a < b {
        lemma_total_grows(iov, a, b - 1);
    } else if a > 0 {
        lemma_total_grows(iov, a - 1, b - 1);
    }
}

/// From byte `pos` of buffer `i` on there are as many bytes as the buffers hold, without those
/// before.
pub proof fn lemma_offsets_len(iov: Seq<IoVec>, i: int, pos: int)
    requires
        0 <= i <= iov.len(),
        i < iov.len() ==> 0 <= pos <= iov[i].iov_len,
        i == iov.len() ==> pos == 0,
    ensures
        offsets_from(iov, i, pos).len() == total(iov, iov.len() as int) - total(iov, i) - pos,
    decreases iov.len() - i,
{
    if i < iov.len() {
        lemma_offsets_len(iov, i + 1, 0);
    }
}

/// The bytes of the buffers follow each other: byte `j` of buffer `k` comes after all bytes of the
/// buffers before `k` and the bytes before `j`, and lies `j` bytes behind the start of its buffer.
pub proof fn lemma_offsets(iov: Seq<IoVec>, i: int, pos: int, k: int, j: int)
    requires
        0 <= i <= k < iov.len(),
        0 <= pos <= iov[i].iov_len,
        0 <= j < iov[k].iov_len,
        k == i ==> j >= pos,
    ensures
        ({
            let x = total(iov, k) + j - total(iov, i) - pos;
            &&& 0 <= x < offsets_from(iov, i, pos).len()
            &&& offsets_from(iov, i, pos)[x] == iov[k].iov_base + j
        }),
    decreases k - i,
{
    lemma_offsets_len(iov, i, pos);
    lemma_total_grows(iov, k + 1, iov.len() as int);
    if i < k {
        lemma_offsets(iov, i + 1, 0, k, j);
    }
}

/// The buffer, and the position in it, of byte `x` of all buffers.
pub(crate) proof fn lemma_locate(iov: Seq<IoVec>, i: int, x: int) -> (r: (int, int))
    requires
        0 <= i <= iov.len(),
        0 <= x < offsets_from(iov, i, 0).len(),
    ensures
        i <= r.0 < iov.len(),
        0 <= r.1 < iov[r.0].iov_len,
        x == total(iov, r.0) + r.1 - total(iov, i),
        offsets_from(iov, i, 0)[x] == iov[r.0].iov_base + r.1,
    decreases iov.len() - i,
{
    if x < iov[i].iov_len {
        (i, x)
    } else {
        lemma_locate(iov, i + 1, x - iov[i].iov_len)
    }
}

/// A read or a write of `want` bytes moves on by `want` bytes, or to the end of the last buffer,
/// and rests at the start of a buffer or inside one. It has not passed an empty buffer after the
/// last byte that it moved.
pub proof fn lemma_place(iov: Seq<IoVec>, i: int, pos: int, want: nat)
    requires
        0 <= i <= iov.len(),
        pos == 0 || i < iov.len() && 0 < pos < iov[i].iov_len,
    ensures
        ({
            let (i2, pos2) = place_after(iov, i, pos, want as int);
            let from = total(iov, i) + pos;
            let all = total(iov, iov.len() as int);
            &&& i <= i2 <= iov.len()
            &&& pos2 == 0 || i2 < iov.len() && 0 < pos2 < iov[i2].iov_len
            &&& from + want <= all ==> total(iov, i2) + pos2 == from + want
            &&& from + want > all ==> i2 == iov.len()
            &&& want == 0 ==> i2 == i && pos2 == pos
            &&& want > 0 && from + want <= all && pos2 == 0 ==> i2 > 0 && iov[i2 - 1].iov_len > 0
        }),
    decreases iov.len() - i,
{
    if i < iov.len() {
        lemma_total_grows(iov, i + 1, iov.len() as int);
        if want > 0 && want >= iov[i].iov_len - pos {
            let rest = (want - (iov[i].iov_len - pos)) as nat;
            lemma_place(iov, i + 1, 0, rest);
        }
    }
}

/// The number of bytes that are moved is wanted and there is room for it, and no larger number is.
pub proof fn lemma_least(want: nat, room: nat)
    ensures
        least(want, room) <= want,
        least(want, room) <= room,
        least(want, room) == want || least(want, room) == room,
{
}

/// A byte that is written stays, unless one that is written later goes to the same place.
pub proof fn lemma_last_write_stays(mem: Seq<u8>, offsets: Seq<int>, data: Seq<u8>, k: int)
    requires
        offsets.len() == data.len(),
        forall|j: int| 0 <= j < offsets.len() ==> 0 <= #[trigger] offsets[j] < mem.len(),
        0 <= k < offsets.len(),
        forall|j: int| k < j < offsets.len() ==> #[trigger] offsets[j] != offsets[k],
    ensures
        scatter(mem, offsets, data)[offsets[k]] == data[k],
    decreases offsets.len(),
{
    let init = offsets.drop_last();
    let d = data.drop_last();
    let last = offsets.len() - 1;
    assert(0 <= offsets[last] < mem.len());
    assert forall|j: int| 0 <= j < init.len() implies 0 <= #[trigger] init[j] < mem.len() by {
        assert(init[j] == offsets[j]);
    }
    assert(0 <= offsets[k] < mem.len());
    lemma_scatter_frame(mem, init, d);
    if k < last {
        assert(offsets[last] != offsets[k]);
        assert forall|j: int| k < j < init.len() implies #[trigger] init[j] != init[k] by {
            assert(init[j] == offsets[j]);
        }
        lemma_last_write_stays(mem, init, d, k);
    }
}

/// A read gives the bytes that lie at its offsets, in their order, and no more.
pub proof fn lemma_gather(mem: Seq<u8>, offsets: Seq<int>)
    ensures
        gather(mem, offsets).len() == offsets.len(),
        forall|k: int|
            0 <= k < offsets.len() ==> #[trigger] gather(mem, offsets)[k] == mem[offsets[k]],
{
}

/// Bytes that are written one behind the other replace what lay there, and nothing else.
pub proof fn lemma_scatter_span(mem: Seq<u8>, start: int, data: Seq<u8>)
    requires
        0 <= start,
        data.len() > 0 ==> start + data.len() <= mem.len(),
    ensures
        scatter(mem, span(start, data.len() as int), data).len() == mem.len(),
        forall|i: int|
            #![trigger scatter(mem, span(start, data.len() as int), data)[i]]
            0 <= i < mem.len() ==> scatter(mem, span(start, data.len() as int), data)[i] == (
            if start <= i < start + data.len() {
                data[i - start]
            } else {
                mem[i]
            }),
{
    let offsets = span(start, data.len() as int);
    lemma_scatter_frame(mem, offsets, data);
    assert forall|i: int| 0 <= i < mem.len() implies #[trigger] scatter(mem, offsets, data)[i] == (
    if start <= i < start + data.len() {
        data[i - start]
    } else {
        mem[i]
    }) by {
        if start <= i < start + data.len() {
            assert(offsets[i - start] == i);
            lemma_last_write_stays(mem, offsets, data, i - start);
        } else if offsets.contains(i) {
            let k = offsets.index_of(i);
            assert(offsets[k] == start + k);
        }
    }
}

} // verus!

//! Room in the log that has been set aside and is yet to be filled.

use crate::types::{LogID, Lsn};
use vstd::prelude::*;

verus! {

/// The side of the IO buffers that reservations see: the buffers that a
/// writer has left, in the order in which it happened.
///
/// Whoever runs the buffers takes the entries off and lets each buffer go on.
pub struct IoBufs {
    pub exited: Vec<usize>,
}

impl IoBufs {
    /// No writer has left yet.
    pub fn new() -> (r: IoBufs)
        ensures
            r.exited@ == Seq::<usize>::empty(),
    {
        IoBufs { exited: Vec::new() }
    }

    /// Notes that a writer has left the buffer `idx`.
    pub fn exit_reservation(&mut self, idx: usize)
        ensures
            final(self).exited@ == old(self).exited@.push(idx),
    {
        self.exited.push(idx);
    }
}

/// A pending log reservation which can be aborted or completed.
///
/// The holder should quickly call `complete` or `abort`, as taking too long to
/// decide will cause the underlying IO buffer to become blocked.
pub struct Reservation<'a> {
    pub iobufs: &'a mut IoBufs,
    pub idx: usize,
    pub data: Vec<u8>,
    pub destination: &'a mut [u8],
    pub flushed: bool,
    pub lsn: Lsn,
    pub lid: LogID,
}

/// `room` with its first `n` bytes set to zero.
pub open spec fn zeroed(room: Seq<u8>, n: nat) -> Seq<u8> {
    Seq::new(
        room.len(),
        |i: int|
            if i < n {
                0u8
            } else {
                room[i]
            },
    )
}

impl<'a> Reservation<'a> {
    /// Whether dropping the reservation aborts it: it has something to write
    /// and has been neither completed nor aborted.
    pub open spec fn aborts_on_drop(self) -> bool {
        self.data@.len() > 0 && !self.flushed
    }

    /// Gives the reservation up, aborting it if it was never used.
    pub fn drop(self)
        requires
            self.aborts_on_drop() ==> self.data@.len() <= self.destination@.len(),
        ensures
            final(self.destination)@ == if self.aborts_on_drop() {
                zeroed(old(self.destination)@, self.data@.len())
            } else {
                old(self.destination)@
            },
            final(self.iobufs).exited@ == if self.aborts_on_drop() {
                old(self.iobufs).exited@.push(self.idx)
            } else {
                old(self.iobufs).exited@
            },
            self.data@.len() == 0 || self.flushed ==> {
                &&& final(self.destination)@ == old(self.destination)@
                &&& final(self.iobufs).exited@ == old(self.iobufs).exited@
            },
            self.data@.len() > 0 && !self.flushed ==> {
                &&& final(self.destination)@.len() == old(self.destination)@.len()
                &&& forall|i: int| 0 <= i < self.data@.len() ==> final(self.destination)@[i] == 0
                &&& forall|i: int|
                    self.data@.len() <= i < old(self.destination)@.len()
                        ==> final(self.destination)@[i] == old(self.destination)@[i]
                &&& final(self.iobufs).exited@ == old(self.iobufs).exited@.push(self.idx)
            },
    {
        let mut this = self;
        let should_flush = this.data.len() > 0 && !this.flushed;
        if should_flush {
            let _ = this.flush(false);
        }
    }

    /// Cancels the reservation, placing a failed flush on disk, returning
    /// the (cancelled) log sequence number and file offset.
    pub fn abort(self) -> (r: (Lsn, LogID))
        requires
            !self.flushed,
            self.data@.len() <= self.destination@.len(),
        ensures
            r == (self.lsn, self.lid),
            final(self.destination)@ == zeroed(old(self.destination)@, self.data@.len()),
            final(self.destination)@.len() == old(self.destination)@.len(),
            forall|i: int| 0 <= i < self.data@.len() ==> final(self.destination)@[i] == 0,
            forall|i: int|
                self.data@.len() <= i < old(self.destination)@.len()
                    ==> final(self.destination)@[i] == old(self.destination)@[i],
            final(self.iobufs).exited@ == old(self.iobufs).exited@.push(self.idx),
    {
        let mut this = self;
        this.flush(false)
    }

    /// Completes the reservation, placing the buffer on disk. Returns
    /// the log sequence number of the write, and the file offset.
    pub fn complete(self) -> (r: (Lsn, LogID))
        requires
            !self.flushed,
            self.data@.len() == self.destination@.len(),
        ensures
            r == (self.lsn, self.lid),
            final(self.destination)@ == self.data@,
            final(self.iobufs).exited@ == old(self.iobufs).exited@.push(self.idx),
    {
        let mut this = self;
        this.flush(true)
    }

    /// Gets the log file offset for reading this buffer in the future.
    pub fn lid(&self) -> (r: LogID)
        ensures
            r == self.lid,
    {
        self.lid
    }

    /// Gets the log sequence number for this update.
    pub fn lsn(&self) -> (r: Lsn)
        ensures
            r == self.lsn,
    {
        self.lsn
    }

    /// Fills the reserved room, with the data if they are `valid` and with
    /// zeroes otherwise, and leaves the buffer.
    fn flush(&mut self, valid: bool) -> (r: (Lsn, LogID))
        requires
            !old(self).flushed,
            valid ==> old(self).data@.len() == old(self).destination@.len(),
            !valid ==> old(self).data@.len() <= old(self).destination@.len(),
        ensures
            r == (old(self).lsn, old(self).lid),
            final(self).flushed,
            final(self).data == old(self).data,
            final(self).idx == old(self).idx,
            final(self).lsn == old(self).lsn,
            final(self).lid == old(self).lid,
            final(self).destination@ == if valid {
                old(self).data@
            } else {
                zeroed(old(self).destination@, old(self).data@.len())
            },
            final(self).iobufs.exited@ == old(self).iobufs.exited@.push(old(self).idx),
            final(final(self).destination)@ == final(old(self).destination)@,
            *final(final(self).iobufs) == *final(old(self).iobufs),
    {
        self.flushed = true;
        if valid {
            copy_from(&mut *self.destination, &self.data);
        } else {
            let n: usize = self.data.len();
            write_zeroes(&mut *self.destination, n);
        }
        self.iobufs.exit_reservation(self.idx);
        (self.lsn(), self.lid())
    }
}

/// Copies `data` into `room`.
fn copy_from(room: &mut [u8], data: &Vec<u8>)
    requires
        data@.len() == old(room)@.len(),
    ensures
        final(room)@ == data@,
{
    let mut i: usize = 0;
    while i < data.len()
        invariant
            i <= data@.len() == room@.len(),
            forall|j: int| 0 <= j < i ==> #[trigger] room@[j] == data@[j],
        decreases data@.len() - i,
    {
        room[i] = data[i];
        i += 1;
    }
    assert(room@ =~= data@);
}

/// Sets the first `n` bytes of `room` to zero.
fn write_zeroes(room: &mut [u8], n: usize)
    requires
        n <= old(room)@.len(),
    ensures
        final(room)@ == zeroed(old(room)@, n as nat),
{
    let mut i: usize = 0;
    while i < n
        invariant
            i <= n <= room@.len(),
            room@ =~= zeroed(old(room)@, i as nat),
        decreases n - i,
    {
        room[i] = 0;
        i += 1;
    }
}

} // verus!

use std::sync::Arc;
use vstd::prelude::*;

verus! {

/// An error of a [`DiskPartition`].
pub trait PartitionError: Sized {
    /// The error for a read that ended before the requested bytes.
    fn unexpected_eop() -> Self;
}

/// A random-access byte source that presents a raw partition.
///
/// The partition is modelled by `content`: the bytes it holds, from offset 0.
/// A reliable partition never fails a read, and each read returns all the
/// requested bytes that it holds.
pub trait DiskPartition {
    type Err: PartitionError;

    spec fn content(&self) -> Seq<u8>;

    spec fn reliable(&self) -> bool;

    /// Reads at most `len` bytes from `offset`. Fewer bytes may come back;
    /// none at all means that the partition ends at `offset`.
    fn read(&self, offset: u64, len: usize) -> (r: Result<Vec<u8>, Self::Err>)
        ensures
            r matches Ok(v) ==> v@.len() <= len && (v@.len() > 0 ==> offset + v@.len()
                <= self.content().len() && v@ == self.content().subrange(
                offset as int,
                offset + v@.len(),
            )),
            self.reliable() ==> (r matches Ok(v) && v@.len() == available(
                self.content().len() as int,
                offset as int,
                len as int,
            )),
    ;
}

/// How many of `len` bytes from `offset` a partition of `size` bytes holds.
pub open spec fn available(size: int, offset: int, len: int) -> int {
    if offset >= size {
        0
    } else if len <= size - offset {
        len
    } else {
        size - offset
    }
}

/// Reads exactly `len` bytes from `offset`, failing with
/// [`PartitionError::unexpected_eop`] where the partition ends first or
/// the bytes would lie past 64 bits.
pub fn read_exact<P: DiskPartition>(disk: &P, offset: u64, len: usize) -> (r: Result<Vec<u8>, P::Err>)
    ensures
        r matches Ok(v) ==> v@.len() == len && (len > 0 ==> offset + len <= disk.content().len()
            && v@ == disk.content().subrange(offset as int, offset + len)),
        len == 0 ==> (r matches Ok(v) && v@.len() == 0),
        offset + len > u64::MAX ==> r is Err,
        disk.reliable() && len > 0 ==> (r is Ok <==> offset + len <= disk.content().len()
            && offset + len <= u64::MAX),
{
    let mut out: Vec<u8> = Vec::new();
    if len == 0 {
        return Ok(out);
    }
    if offset.checked_add(len as u64).is_none() {
        return Err(P::Err::unexpected_eop());
    }
    while out.len() < len
        invariant
            out@.len() <= len,
            offset + len <= u64::MAX,
            out@.len() > 0 ==> offset + out@.len() <= disk.content().len() && out@
                == disk.content().subrange(offset as int, offset + out@.len()),
            disk.reliable() && offset + len <= disk.content().len() ==> offset + out@.len()
                <= disk.content().len(),
        decreases len - out@.len(),
    {
        let at = offset + out.len() as u64;
        let mut chunk = match disk.read(at, len - out.len()) {
            Ok(v) => v,
            Err(e) => return Err(e),
        };
        if chunk.len() == 0 {
            return Err(P::Err::unexpected_eop());
        }
        out.append(&mut chunk);
        assert(out@ =~= disk.content().subrange(offset as int, offset + out@.len()));
    }
    Ok(out)
}

impl<T: DiskPartition> DiskPartition for &T {
    type Err = T::Err;

    open spec fn content(&self) -> Seq<u8> {
        (**self).content()
    }

    open spec fn reliable(&self) -> bool {
        (**self).reliable()
    }

    fn read(&self, offset: u64, len: usize) -> (r: Result<Vec<u8>, T::Err>) {
        (**self).read(offset, len)
    }
}

impl<T: DiskPartition> DiskPartition for Arc<T> {
    type Err = T::Err;

    open spec fn content(&self) -> Seq<u8> {
        (**self).content()
    }

    open spec fn reliable(&self) -> bool {
        (**self).reliable()
    }

    fn read(&self, offset: u64, len: usize) -> (r: Result<Vec<u8>, T::Err>) {
        (**self).read(offset, len)
    }
}

/// The error of a [`MemoryPartition`]: it only ever runs out of bytes.
#[derive(Debug, PartialEq, Eq, Structural)]
pub enum MemoryError {
    UnexpectedEop,
}

impl PartitionError for MemoryError {
    fn unexpected_eop() -> Self {
        MemoryError::UnexpectedEop
    }
}

/// A partition held in memory.
pub struct MemoryPartition {
    data: Vec<u8>,
}

impl MemoryPartition {
    pub fn new(data: Vec<u8>) -> (r: Self)
        ensures
            r.content() == data@,
            r.reliable(),
    {
        MemoryPartition { data }
    }
}

impl DiskPartition for MemoryPartition {
    type Err = MemoryError;

    closed spec fn content(&self) -> Seq<u8> {
        self.data@
    }

    closed spec fn reliable(&self) -> bool {
        true
    }

    fn read(&self, offset: u64, len: usize) -> (r: Result<Vec<u8>, MemoryError>) {
        let mut out: Vec<u8> = Vec::new();
        if offset >= self.data.len() as u64 {
            return Ok(out);
        }
        let start = offset as usize;
        let end = if len <= self.data.len() - start {
            start + len
        } else {
            self.data.len()
        };
        let mut i = start;
        while i < end
            invariant
                start <= i <= end <= self.data@.len(),
                out@ == self.data@.subrange(start as int, i as int),
            decreases end - i,
        {
            out.push(self.data[i]);
            i += 1;
            assert(out@ =~= self.data@.subrange(start as int, i as int));
        }
        Ok(out)
    }
}

} // verus!

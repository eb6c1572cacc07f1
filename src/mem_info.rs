//! The meminfo file, which reports the memory usage of the system.
use vstd::prelude::*;

use crate::errno::Errno;

verus! {

/// The meminfo file. Its content is the text report of the memory statistics, which the
/// caller renders; reads copy a window of it.
#[derive(Debug)]
pub struct MemInfo {}

impl MemInfo {
    /// The size reported for the file: none, its content being generated on each read.
    pub fn get_size(&self) -> (r: u64)
        ensures
            r == 0,
    {
        0
    }

    /// Copies into `buff` the part of `content` that starts at `offset`, as much as fits.
    /// Returns the number of bytes copied and whether the end of the content was reached; an
    /// empty `buff` reads nothing and reports no end.
    pub fn read(&mut self, content: &Vec<u8>, offset: u64, buff: &mut Vec<u8>) -> (r: (u64, bool))
        requires
            offset <= content@.len(),
        ensures
            old(buff)@.len() == 0 ==> r == (0u64, false) && final(buff)@ == old(buff)@,
            old(buff)@.len() > 0 ==> {
                let len = if content@.len() - offset < old(buff)@.len() {
                    content@.len() - offset
                } else {
                    old(buff)@.len() as int
                };
                &&& r.0 == len
                &&& r.1 == (offset + len >= content@.len())
                &&& final(buff)@ == content@.subrange(offset as int, offset + len) + old(buff)@.subrange(len, old(buff)@.len() as int)
            },
    {
        if buff.len() == 0 {
            return (0, false);
        }
        let clen = content.len();
        assert(offset <= clen);
        let start = offset as usize;
        assert(start as int == offset as int);
        let avail = content.len() - start;
        let len = if avail < buff.len() { avail } else { buff.len() };
        let mut i: usize = 0;
        while i < len
            invariant
                start as int == offset as int,
                start <= content@.len(),
                content@.len() <= usize::MAX,
                len <= content@.len() - start,
                len <= buff@.len(),
                buff@.len() == old(buff)@.len(),
                i <= len,
                forall|k: int| 0 <= k < i ==> buff@[k] == content@[start + k],
                forall|k: int| len <= k < buff@.len() ==> buff@[k] == old(buff)@[k],
            decreases len - i,
        {
            buff.set(i, content[start + i]);
            i = i + 1;
        }
        proof {
            assert(buff@ =~= content@.subrange(offset as int, offset + len) + old(buff)@.subrange(len as int, old(buff)@.len() as int));
        }
        (len as u64, start + len >= content.len())
    }

    /// Writing to the file is not allowed.
    pub fn write(&mut self, _offset: u64, _buff: &Vec<u8>) -> (r: Result<u64, Errno>)
        ensures
            r == Err::<u64, Errno>(Errno::InvalidArgument),
    {
        Err(Errno::InvalidArgument)
    }
}

} // verus!

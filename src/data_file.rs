use vstd::prelude::*;
use crate::errors::Errors;
use crate::log_record::{decode, parse_record, ReadLogRecord};

verus! {

/// One append-only data file: its id, its write offset and its bytes.
pub struct DataFile {
    file_id: u32,
    write_off: u64,
    data: Vec<u8>,
}

impl DataFile {
    /// The file's id.
    pub closed spec fn id(&self) -> u32 {
        self.file_id
    }

    /// Every byte written to the file so far.
    pub closed spec fn content(&self) -> Seq<u8> {
        self.data@
    }

    /// The write offset is the end of the written bytes.
    pub closed spec fn wf(&self) -> bool {
        self.write_off as int == self.data@.len()
    }

    /// A new, empty data file.
    pub fn new(file_id: u32) -> (r: DataFile)
        ensures
            r.wf(),
            r.id() == file_id,
            r.content() == Seq::<u8>::empty(),
    {
        DataFile { file_id, write_off: 0, data: Vec::new() }
    }

    /// A data file that already holds `data`.
    pub fn from_bytes(file_id: u32, data: Vec<u8>) -> (r: DataFile)
        ensures
            r.wf(),
            r.id() == file_id,
            r.content() == data@,
    {
        let write_off = data.len() as u64;
        DataFile { file_id, write_off, data }
    }

    /// Where the next append goes.
    pub fn get_write_off(&self) -> (r: u64)
        requires
            self.wf(),
        ensures
            r as int == self.content().len(),
    {
        self.write_off
    }

    /// The file's id.
    pub fn get_file_id(&self) -> (r: u32)
        ensures
            r == self.id(),
    {
        self.file_id
    }

    /// The bytes written so far.
    pub fn bytes(&self) -> (r: &Vec<u8>)
        ensures
            r@ == self.content(),
    {
        &self.data
    }

    /// Reads the record that starts at `offset`.
    pub fn read_log_record(&self, offset: u64) -> (r: Result<ReadLogRecord, Errors>)
        ensures
            match (r, parse_record(self.content(), offset as int)) {
                (Ok(rr), Ok((k, v, t, n))) => rr.record.key@ == k && rr.record.value@ == v
                    && rr.record.rec_type == t && rr.size == n,
                (Err(e), Err(se)) => e == se,
                _ => false,
            },
    {
        if offset > self.data.len() as u64 {
            return Err(Errors::ReadDataFileEOF);
        }
        decode(&self.data, offset as usize)
    }

    /// Appends `buf`; returns the number of bytes written.
    pub fn write(&mut self, buf: &Vec<u8>) -> (r: usize)
        requires
            old(self).wf(),
        ensures
            final(self).wf(),
            final(self).id() == old(self).id(),
            final(self).content() == old(self).content() + buf@,
            r == buf@.len(),
    {
        let mut i: usize = 0;
        while i < buf.len()
            invariant
                i <= buf@.len(),
                self.file_id == old(self).file_id,
                self.data@ == old(self).data@ + buf@.subrange(0, i as int),
            decreases buf.len() - i,
        {
            self.data.push(buf[i]);
            i = i + 1;
            assert(self.data@ =~= old(self).data@ + buf@.subrange(0, i as int));
        }
        assert(buf@.subrange(0, buf@.len() as int) =~= buf@);
        self.write_off = self.data.len() as u64;
        buf.len()
    }

    /// Cuts the file back to its first `len` bytes.
    pub fn truncate(&mut self, len: usize)
        requires
            old(self).wf(),
            len <= old(self).content().len(),
        ensures
            final(self).wf(),
            final(self).id() == old(self).id(),
            final(self).content() == old(self).content().subrange(0, len as int),
    {
        self.data.truncate(len);
        self.write_off = len as u64;
    }
}

} // verus!

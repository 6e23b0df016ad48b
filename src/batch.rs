use vstd::prelude::*;
use crate::db::{apply_ops, ops_fit, ops_view, BatchOp, Engine};
use crate::errors::Errors;
use crate::options::WriteBatchOptions;

verus! {

/// Operations staged in memory and written to an engine as one batch.
pub struct WriteBatch {
    pending: Vec<BatchOp>,
    options: WriteBatchOptions,
}

impl WriteBatch {
    /// The staged operations, in the order they were made.
    pub closed spec fn ops(&self) -> Seq<(Seq<u8>, Option<Seq<u8>>)> {
        ops_view(self.pending@)
    }

    /// The most operations the batch holds.
    pub closed spec fn max_ops(&self) -> nat {
        self.options.max_batch_num as nat
    }

    /// Every staged key is non-empty, and keys and values fit the record format.
    pub closed spec fn wf(&self) -> bool {
        ops_fit(self.pending@)
    }

    /// An empty batch.
    pub fn new(options: WriteBatchOptions) -> (r: WriteBatch)
        ensures
            r.wf(),
            r.ops() == Seq::<(Seq<u8>, Option<Seq<u8>>)>::empty(),
            r.max_ops() == options.max_batch_num,
    {
        let r = WriteBatch { pending: Vec::new(), options };
        assert(r.ops() =~= Seq::<(Seq<u8>, Option<Seq<u8>>)>::empty());
        r
    }

    /// Stages storing `value` under `key`.
    pub fn put(&mut self, key: Vec<u8>, value: Vec<u8>) -> (r: Result<(), Errors>)
        requires
            old(self).wf(),
            key@.len() <= u32::MAX,
            value@.len() <= u32::MAX,
        ensures
            final(self).wf(),
            final(self).max_ops() == old(self).max_ops(),
            key@.len() == 0 ==> r == Err::<(), Errors>(Errors::KeyIsEmpty),
            key@.len() > 0 && old(self).ops().len() >= old(self).max_ops() ==> r == Err::<(), Errors>(
                Errors::ExceedMaxBatchNum,
            ),
            r is Err ==> final(self).ops() == old(self).ops(),
            key@.len() > 0 && old(self).ops().len() < old(self).max_ops() ==> r is Ok
                && final(self).ops() == old(self).ops().push((key@, Some(value@))),
    {
        if key.len() == 0 {
            return Err(Errors::KeyIsEmpty);
        }
        if self.pending.len() >= self.options.max_batch_num {
            return Err(Errors::ExceedMaxBatchNum);
        }
        let ghost k = key@;
        let ghost v = value@;
        self.pending.push((key, Some(value)));
        assert(self.ops() =~= old(self).ops().push((k, Some(v))));
        Ok(())
    }

    /// Stages deleting `key`.
    pub fn delete(&mut self, key: Vec<u8>) -> (r: Result<(), Errors>)
        requires
            old(self).wf(),
            key@.len() <= u32::MAX,
        ensures
            final(self).wf(),
            final(self).max_ops() == old(self).max_ops(),
            key@.len() == 0 ==> r == Err::<(), Errors>(Errors::KeyIsEmpty),
            key@.len() > 0 && old(self).ops().len() >= old(self).max_ops() ==> r == Err::<(), Errors>(
                Errors::ExceedMaxBatchNum,
            ),
            r is Err ==> final(self).ops() == old(self).ops(),
            key@.len() > 0 && old(self).ops().len() < old(self).max_ops() ==> r is Ok
                && final(self).ops() == old(self).ops().push((key@, None::<Seq<u8>>)),
    {
        if key.len() == 0 {
            return Err(Errors::KeyIsEmpty);
        }
        if self.pending.len() >= self.options.max_batch_num {
            return Err(Errors::ExceedMaxBatchNum);
        }
        let ghost k = key@;
        self.pending.push((key, None));
        assert(self.ops() =~= old(self).ops().push((k, None::<Seq<u8>>)));
        Ok(())
    }

    /// Writes every staged operation to `engine` as one batch, which is then
    /// used up. The batch goes to the data files as a begin marker, one
    /// record per operation and a finished marker, and reopening applies it
    /// only if the finished marker was written, so a crash never leaves part
    /// of it. Each record may start a new data file, so the batch is refused
    /// up front, with the engine untouched, when the file ids left might not
    /// cover it.
    pub fn commit(self, engine: &mut Engine) -> (r: Result<(), Errors>)
        requires
            self.wf(),
            old(engine).wf(),
        ensures
            final(engine).wf(),
            final(engine).data_file_size() == old(engine).data_file_size(),
            old(engine).durable() ==> final(engine).durable(),
            r is Ok <==> old(engine).active_id() + self.ops().len() + 2 < u32::MAX,
            r is Ok ==> final(engine)@ == apply_ops(old(engine)@, self.ops(), self.ops().len() as int),
            r is Err ==> r == Err::<(), Errors>(Errors::FailedToOpenDataFile) && *final(engine) == *old(engine),
    {
        let first_id = engine.active_file().get_file_id();
        let room: u64 = u32::MAX as u64 - first_id as u64;
        if room < 3 || self.pending.len() as u64 > room - 3 {
            return Err(Errors::FailedToOpenDataFile);
        }
        engine.write_batch(&self.pending);
        Ok(())
    }
}

impl Engine {
    /// A new, empty write batch for this engine.
    pub fn new_write_batch(&self, options: WriteBatchOptions) -> (r: WriteBatch)
        ensures
            r.wf(),
            r.ops() == Seq::<(Seq<u8>, Option<Seq<u8>>)>::empty(),
            r.max_ops() == options.max_batch_num,
    {
        WriteBatch::new(options)
    }
}

} // verus!

use vstd::prelude::*;

verus! {

/// Which in-memory index structure the engine keeps.
#[derive(Debug, Clone, Copy, PartialEq, Eq, Structural)]
pub enum IndexType {
    /// Ordered balanced tree.
    BTree,
    /// Concurrent ordered skip list.
    SkipList,
    /// Disk-backed ordered tree.
    BPlusTree,
}

/// How a data file is read.
#[derive(Debug, Clone, Copy, PartialEq, Eq, Structural)]
pub enum IOType {
    /// Buffered standard file IO.
    StandardFIO,
    /// Memory-mapped reads.
    MemoryMap,
}

/// Default size of a data file before a new one is started: 256 MiB.
pub const DEFAULT_DATA_FILE_SIZE: u64 = 268435456;

/// Engine configuration.
#[derive(Debug, Clone)]
pub struct Options {
    /// Storage root directory.
    pub dir_path: String,
    /// Size in bytes at which the active data file is rotated.
    pub data_file_size: u64,
    /// Whether every append is flushed to disk at once.
    pub sync_writes: bool,
    /// Flush after this many accumulated bytes (0: never by count).
    pub bytes_per_sync: usize,
    /// Index structure to use.
    pub index_type: IndexType,
    /// Whether data files are memory-mapped while the engine starts.
    pub mmap_at_startup: bool,
    /// Percentage of reclaimable bytes over all data that calls for a merge.
    pub data_file_merge_ratio_percent: u32,
}

impl Options {
    /// The defaults, with data kept under `dir_path`.
    pub fn with_dir(dir_path: String) -> (r: Options)
        ensures
            r.dir_path@ == dir_path@,
            r.data_file_size == DEFAULT_DATA_FILE_SIZE,
            !r.sync_writes,
            r.bytes_per_sync == 0,
            r.index_type == IndexType::BTree,
            r.mmap_at_startup,
            r.data_file_merge_ratio_percent == 50,
    {
        Options {
            dir_path,
            data_file_size: DEFAULT_DATA_FILE_SIZE,
            sync_writes: false,
            bytes_per_sync: 0,
            index_type: IndexType::BTree,
            mmap_at_startup: true,
            data_file_merge_ratio_percent: 50,
        }
    }

    /// Whether the engine can be opened with these options: a directory is
    /// named and the data file size is positive.
    pub open spec fn valid(&self) -> bool {
        self.dir_path@.len() > 0 && self.data_file_size > 0
    }
}

impl Default for Options {
    fn default() -> (r: Options)
        ensures
            r.dir_path@ == "/tmp/bitcask-rs"@,
            r.valid(),
            r.data_file_size == DEFAULT_DATA_FILE_SIZE,
            !r.sync_writes,
            r.bytes_per_sync == 0,
            r.index_type == IndexType::BTree,
            r.mmap_at_startup,
            r.data_file_merge_ratio_percent == 50,
    {
        let r = Options::with_dir("/tmp/bitcask-rs".to_owned());
        proof {
            reveal_strlit("/tmp/bitcask-rs");
        }
        r
    }
}

/// Options of an index iterator.
#[derive(Debug, Clone)]
pub struct IteratorOptions {
    /// Only keys that start with this prefix are visited.
    pub prefix: Vec<u8>,
    /// Visit keys in descending order.
    pub reverse: bool,
}

impl Default for IteratorOptions {
    fn default() -> (r: IteratorOptions)
        ensures
            r.prefix@.len() == 0,
            !r.reverse,
    {
        IteratorOptions { prefix: Vec::new(), reverse: false }
    }
}

/// Largest default number of operations that one write batch holds.
pub const DEFAULT_MAX_BATCH_NUM: usize = 10000;

/// Options of a write batch.
#[derive(Debug, Clone, Copy)]
pub struct WriteBatchOptions {
    /// Largest number of operations in one batch.
    pub max_batch_num: usize,
    /// Whether the commit is flushed to disk.
    pub sync_writes: bool,
}

impl Default for WriteBatchOptions {
    fn default() -> (r: WriteBatchOptions)
        ensures
            r.max_batch_num == DEFAULT_MAX_BATCH_NUM,
            r.sync_writes,
    {
        WriteBatchOptions { max_batch_num: DEFAULT_MAX_BATCH_NUM, sync_writes: true }
    }
}

} // verus!

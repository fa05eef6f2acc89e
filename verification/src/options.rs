//! Store configuration, its validation, and the shared context a store
//! carries (its options and its index).

use crate::index::IndexMode;
use crate::index::HashMap;
use crate::result::Error;
use crate::result::Reason;
use vstd::prelude::*;

verus! {

/// Keys and values may not exceed this many bytes, whatever the options
/// say: a record must fit the `u32` length field of its locator.
pub const MAX_SIZE_LIMIT: usize = 0x3FFFFFFF;

/// Configuration of a store.
pub struct Opts {
    /// Longest accepted key, in bytes. Must be positive.
    pub max_key_size: usize,
    /// Longest accepted value, in bytes. Must be positive.
    pub max_value_size: usize,
    /// A read-only store refuses put and delete.
    pub read_only: bool,
    /// Whether a batch commit flushes after its marker.
    pub sync_writes: bool,
    /// The directory the store lives in. Must be non-empty.
    pub dir_path: String,
    /// Rotation threshold of the active segment, in bytes. Must be positive.
    pub data_file_size: u64,
}

impl Opts {
    /// Options with every field given.
    pub fn new(
        max_key_size: usize,
        max_value_size: usize,
        read_only: bool,
        sync_writes: bool,
        dir_path: String,
        data_file_size: u64,
    ) -> (r: Opts)
        ensures
            r.max_key_size == max_key_size,
            r.max_value_size == max_value_size,
            r.read_only == read_only,
            r.sync_writes == sync_writes,
            r.dir_path@ == dir_path@,
            r.data_file_size == data_file_size,
    {
        Opts { max_key_size, max_value_size, read_only, sync_writes, dir_path, data_file_size }
    }

    /// A field-for-field copy of these options.
    pub fn duplicate(&self) -> (r: Opts)
        ensures
            r.max_key_size == self.max_key_size,
            r.max_value_size == self.max_value_size,
            r.read_only == self.read_only,
            r.sync_writes == self.sync_writes,
            r.dir_path@ == self.dir_path@,
            r.data_file_size == self.data_file_size,
    {
        Opts {
            max_key_size: self.max_key_size,
            max_value_size: self.max_value_size,
            read_only: self.read_only,
            sync_writes: self.sync_writes,
            dir_path: self.dir_path.clone(),
            data_file_size: self.data_file_size,
        }
    }
}

impl Default for Opts {
    /// A writable store under `/tmp` with a gigabyte rotation threshold.
    fn default() -> (r: Opts)
        ensures
            r.max_key_size == 256,
            r.max_value_size == 1024,
            r.read_only == false,
            r.sync_writes == true,
            r.dir_path@ == "/tmp"@,
            r.data_file_size == 0x40000000,
    {
        Opts {
            max_key_size: 256,
            max_value_size: 1024,
            read_only: false,
            sync_writes: true,
            dir_path: "/tmp".to_owned(),
            data_file_size: 0x40000000,
        }
    }
}

/// What validation says of given options: the first rule they break, in the
/// order key size, value size, file size, directory.
pub open spec fn validate_spec(o: &Opts) -> Result<(), Error> {
    if o.max_key_size == 0 || o.max_key_size > MAX_SIZE_LIMIT {
        Err(Error::Unsupported(Reason::BadMaxKeySize))
    } else if o.max_value_size == 0 || o.max_value_size > MAX_SIZE_LIMIT {
        Err(Error::Unsupported(Reason::BadMaxValueSize))
    } else if o.data_file_size == 0 {
        Err(Error::Unsupported(Reason::BadDataFileSize))
    } else if o.dir_path@.len() == 0 {
        Err(Error::Unsupported(Reason::BadDirPath))
    } else {
        Ok(())
    }
}

/// Checks the options a store is being opened with.
pub fn validate_options(options: &Opts) -> (r: Result<(), Error>)
    ensures
        r == validate_spec(options),
        r is Ok <==> {
            &&& 0 < options.max_key_size <= MAX_SIZE_LIMIT
            &&& 0 < options.max_value_size <= MAX_SIZE_LIMIT
            &&& options.data_file_size > 0
            &&& options.dir_path@.len() > 0
        },
{
    if options.max_key_size == 0 || options.max_key_size > MAX_SIZE_LIMIT {
        return Err(Error::Unsupported(Reason::BadMaxKeySize));
    }
    if options.max_value_size == 0 || options.max_value_size > MAX_SIZE_LIMIT {
        return Err(Error::Unsupported(Reason::BadMaxValueSize));
    }
    if options.data_file_size == 0 {
        return Err(Error::Unsupported(Reason::BadDataFileSize));
    }
    if options.dir_path.as_str().is_empty() {
        return Err(Error::Unsupported(Reason::BadDirPath));
    }
    Ok(())
}

/// The pieces of a store shared by its operations: its options and the
/// in-memory index of live keys.
pub struct Context {
    /// The index mapping each live key to its locator.
    pub index: IndexMode,
    /// The options the store was opened with.
    pub opts: Opts,
}

impl Default for Context {
    /// A context with an empty index over the default options.
    fn default() -> (r: Context)
        ensures
            r.index@ == Map::<Seq<u8>, crate::keydir::KeyDirView>::empty(),
            r.index.wf(),
            r.opts.max_key_size == 256,
            r.opts.max_value_size == 1024,
            r.opts.read_only == false,
            r.opts.sync_writes == true,
            r.opts.data_file_size == 0x40000000,
    {
        Context { index: IndexMode::new_hashmap(), opts: Opts::default() }
    }
}

impl Context {
    /// A context with an empty index and a copy of the given options.
    pub fn new(opts: &Opts) -> (r: Context)
        ensures
            r.index@ == Map::<Seq<u8>, crate::keydir::KeyDirView>::empty(),
            r.opts.max_key_size == opts.max_key_size,
            r.opts.max_value_size == opts.max_value_size,
            r.opts.read_only == opts.read_only,
            r.opts.sync_writes == opts.sync_writes,
            r.opts.dir_path@ == opts.dir_path@,
            r.opts.data_file_size == opts.data_file_size,
            r.index.wf(),
    {
        Context { index: IndexMode::new_hashmap(), opts: opts.duplicate() }
    }
}

} // verus!

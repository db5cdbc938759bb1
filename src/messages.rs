use vstd::prelude::*;

use crate::primitives::Blake2bHash;

verus! {

/// A macro block, as far as the sync reads it.
#[derive(Clone, Copy, Debug, PartialEq, Eq)]
pub struct MacroBlock {
    pub block_number: u32,
    pub hash: Blake2bHash,
    /// The block ends an epoch and elects the next validators.
    pub is_election_block: bool,
}

/// A block: micro, or macro.
#[derive(Clone, Copy, Debug, PartialEq, Eq)]
pub enum Block {
    Micro { block_number: u32, hash: Blake2bHash },
    Macro(MacroBlock),
}

/// A list of hashes, or a list of the objects themselves.
pub enum Objects<T> {
    Hashes(Vec<Blake2bHash>),
    Objects(Vec<T>),
}

/// Most hashes an `Objects` message carries.
pub const MAX_HASHES: usize = 1000;

/// Most objects an `Objects` message carries.
pub const MAX_OBJECTS: usize = 1000;

impl<T> Objects<T> {
    pub fn with_objects(objects: Vec<T>) -> (r: Self)
        ensures
            r matches Objects::Objects(o) && o@ == objects@,
    {
        Objects::Objects(objects)
    }

    pub fn with_hashes(hashes: Vec<Blake2bHash>) -> (r: Self)
        ensures
            r matches Objects::Hashes(h) && h@ == hashes@,
    {
        Objects::Hashes(hashes)
    }

    pub fn contains_hashes(&self) -> (r: bool)
        ensures
            r == self is Hashes,
    {
        matches!(self, Objects::Hashes(_))
    }

    pub fn contains_objects(&self) -> (r: bool)
        ensures
            r == self is Objects,
    {
        !self.contains_hashes()
    }
}

#[derive(Clone, Copy, Debug, PartialEq, Eq, Structural)]
pub enum BlockHashType {
    Micro,
    Checkpoint,
    Election,
}

impl BlockHashType {
    /// The kind of a block: micro, election macro block, or other macro
    /// block (a checkpoint).
    pub fn from(block: &Block) -> (r: BlockHashType)
        ensures
            r == match *block {
                Block::Micro { .. } => BlockHashType::Micro,
                Block::Macro(m) => if m.is_election_block {
                    BlockHashType::Election
                } else {
                    BlockHashType::Checkpoint
                },
            },
    {
        match block {
            Block::Micro { .. } => BlockHashType::Micro,
            Block::Macro(macro_block) => {
                if macro_block.is_election_block {
                    BlockHashType::Election
                } else {
                    BlockHashType::Checkpoint
                }
            },
        }
    }

    /// The tag of the kind on the wire.
    pub fn to_u8(&self) -> (r: u8)
        ensures
            r == match *self {
                BlockHashType::Micro => 1u8,
                BlockHashType::Checkpoint => 2u8,
                BlockHashType::Election => 3u8,
            },
    {
        match self {
            BlockHashType::Micro => 1,
            BlockHashType::Checkpoint => 2,
            BlockHashType::Election => 3,
        }
    }
}

#[derive(Clone, Copy, Debug, PartialEq, Eq, Structural)]
pub enum RequestBlockHashesFilter {
    All,
    ElectionOnly,
    ElectionAndLatestCheckpoint,
}

impl RequestBlockHashesFilter {
    /// The tag of the filter on the wire.
    pub fn to_u8(&self) -> (r: u8)
        ensures
            r == match *self {
                RequestBlockHashesFilter::All => 1u8,
                RequestBlockHashesFilter::ElectionOnly => 2u8,
                RequestBlockHashesFilter::ElectionAndLatestCheckpoint => 3u8,
            },
    {
        match self {
            RequestBlockHashesFilter::All => 1,
            RequestBlockHashesFilter::ElectionOnly => 2,
            RequestBlockHashesFilter::ElectionAndLatestCheckpoint => 3,
        }
    }
}

/// Most locators a `RequestBlockHashes` carries.
pub const MAX_LOCATORS: usize = 128;

pub struct RequestBlockHashes {
    pub locators: Vec<Blake2bHash>,
    pub max_blocks: u16,
    pub filter: RequestBlockHashesFilter,
    pub request_identifier: u32,
}

impl RequestBlockHashes {
    pub const TYPE_ID: u64 = 200;
}

pub struct BlockHashes {
    pub hashes: Vec<(BlockHashType, Blake2bHash)>,
    pub request_identifier: u32,
}

impl BlockHashes {
    pub const TYPE_ID: u64 = 201;
}

pub struct RequestBatchSet {
    pub hash: Blake2bHash,
    pub request_identifier: u32,
}

impl RequestBatchSet {
    pub const TYPE_ID: u64 = 202;
}

/// A macro block and the number of extended transactions of its epoch.
#[derive(Clone, Copy, Debug)]
pub struct BatchSetInfo {
    pub block: MacroBlock,
    pub history_len: u32,
    pub request_identifier: u32,
}

impl BatchSetInfo {
    pub const TYPE_ID: u64 = 203;
}

pub struct RequestHistoryChunk {
    pub epoch_number: u32,
    pub chunk_index: u64,
    pub request_identifier: u32,
}

impl RequestHistoryChunk {
    pub const TYPE_ID: u64 = 204;
}

/// An entry of an epoch's history, kept in its serialized form.
#[derive(Clone, Debug, PartialEq, Eq)]
pub struct ExtendedTransaction {
    pub data: Vec<u8>,
}

/// A run of consecutive history entries.
pub struct HistoryTreeChunk {
    pub history: Vec<ExtendedTransaction>,
}

/// A chunk of an epoch's history; `None` where the peer has none there.
pub struct HistoryChunk {
    pub chunk: Option<HistoryTreeChunk>,
    pub request_identifier: u32,
}

impl HistoryChunk {
    pub const TYPE_ID: u64 = 205;
}

} // verus!

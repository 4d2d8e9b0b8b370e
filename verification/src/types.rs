//! Data types and the metadata record of composite values.

use vstd::prelude::*;

verus! {

/// Version of the value encoding.
pub const ENCODING_VERSION: u8 = 1;

/// The half of `flags` that holds the encoding version.
pub const FLAGS_VERSION_MASK: u8 = 0xF0;

/// The half of `flags` that holds the data type.
pub const FLAGS_TYPE_MASK: u8 = 0x0F;

pub const DATA_TYPE_STRING: u8 = 1;

pub const DATA_TYPE_HASH: u8 = 2;

pub const DATA_TYPE_LIST: u8 = 3;

pub const DATA_TYPE_SET: u8 = 4;

pub const DATA_TYPE_ZSET: u8 = 5;

pub const DATA_TYPE_BITMAP: u8 = 6;

pub const DATA_TYPE_STREAM: u8 = 8;

/// The data types a key can hold.
#[derive(Debug, Clone, Copy, PartialEq, Eq, Structural)]
pub enum DataType {
    String,
    Hash,
    List,
    SetType,
    ZSet,
    Stream,
    Bitmap,
}

/// The code of a data type inside `flags`.
pub open spec fn code_of(t: DataType) -> u8 {
    match t {
        DataType::String => 1,
        DataType::Hash => 2,
        DataType::List => 3,
        DataType::SetType => 4,
        DataType::ZSet => 5,
        DataType::Bitmap => 6,
        DataType::Stream => 8,
    }
}

/// The data type with a given code.
pub open spec fn type_of_code(code: u8) -> Option<DataType> {
    if code == 1 {
        Some(DataType::String)
    } else if code == 2 {
        Some(DataType::Hash)
    } else if code == 3 {
        Some(DataType::List)
    } else if code == 4 {
        Some(DataType::SetType)
    } else if code == 5 {
        Some(DataType::ZSet)
    } else if code == 6 {
        Some(DataType::Bitmap)
    } else if code == 8 {
        Some(DataType::Stream)
    } else {
        None
    }
}

/// The data type that `flags` names, in its lower half.
pub open spec fn type_of_flags(flags: u8) -> Option<DataType> {
    type_of_code(flags % 16)
}

/// `flags` of a value: the encoding version above, the data type below.
pub open spec fn flags_of(t: DataType) -> u8 {
    (16 * ENCODING_VERSION + code_of(t)) as u8
}

impl DataType {
    pub fn code(&self) -> (c: u8)
        ensures
            c == code_of(*self),
    {
        match self {
            DataType::String => DATA_TYPE_STRING,
            DataType::Hash => DATA_TYPE_HASH,
            DataType::List => DATA_TYPE_LIST,
            DataType::SetType => DATA_TYPE_SET,
            DataType::ZSet => DATA_TYPE_ZSET,
            DataType::Stream => DATA_TYPE_STREAM,
            DataType::Bitmap => DATA_TYPE_BITMAP,
        }
    }

    pub fn from_code(code: u8) -> (t: Option<DataType>)
        ensures
            t == type_of_code(code),
    {
        if code == DATA_TYPE_STRING {
            Some(DataType::String)
        } else if code == DATA_TYPE_HASH {
            Some(DataType::Hash)
        } else if code == DATA_TYPE_LIST {
            Some(DataType::List)
        } else if code == DATA_TYPE_SET {
            Some(DataType::SetType)
        } else if code == DATA_TYPE_ZSET {
            Some(DataType::ZSet)
        } else if code == DATA_TYPE_STREAM {
            Some(DataType::Stream)
        } else if code == DATA_TYPE_BITMAP {
            Some(DataType::Bitmap)
        } else {
            None
        }
    }
}

/// Builds `flags` for a data type.
pub fn build_flags(data_type: DataType) -> (flags: u8)
    ensures
        flags == flags_of(data_type),
{
    let c: u8 = data_type.code();
    proof {
        assert(c < 16 ==> (1u8 << 4u8) | (c & 0x0F) == 16 + c) by (bit_vector);
    }
    (ENCODING_VERSION << 4) | (c & FLAGS_TYPE_MASK)
}

/// Reads the data type out of `flags`.
pub fn data_type_from_flags(flags: u8) -> (t: Option<DataType>)
    ensures
        t == type_of_flags(flags),
{
    proof {
        assert(flags & 0x0F == flags % 16) by (bit_vector);
    }
    DataType::from_code(flags & FLAGS_TYPE_MASK)
}

/// Reads the encoding version out of `flags`.
pub fn version_from_flags(flags: u8) -> (v: u8)
    ensures
        v == flags / 16,
{
    proof {
        assert((flags & 0xF0) >> 4u8 == flags / 16) by (bit_vector);
    }
    (flags & FLAGS_VERSION_MASK) >> 4
}

/// A data type survives the trip through its code and through `flags`, and
/// the encoding version does.
pub proof fn law_flags_round_trip(t: DataType)
    ensures
        type_of_code(code_of(t)) == Some(t),
        type_of_flags(flags_of(t)) == Some(t),
        flags_of(t) / 16 == ENCODING_VERSION,
{
}

/// Metadata of a composite value. A string keeps `flags`, the expiry time and
/// its payload in one record instead.
#[derive(Debug, Clone, Copy, PartialEq, Eq, Structural)]
pub struct Metadata {
    pub flags: u8,
    /// Expiry time in milliseconds since the epoch; 0 for none.
    pub expire: i64,
    /// Version of the value; entries of older versions are invisible.
    pub version: u64,
    /// Number of elements.
    pub size: u64,
    /// Index of the first list element; lists only.
    pub head: i64,
    /// Index of the last list element; lists only.
    pub tail: i64,
}

/// Whether a value with this expiry time is gone at `now_ms`.
pub open spec fn expired(expire: i64, now_ms: i64) -> bool {
    expire > 0 && expire <= now_ms
}

/// Metadata of a value without elements.
pub open spec fn fresh_metadata(data_type: DataType, version: u64) -> Metadata {
    Metadata { flags: flags_of(data_type), expire: 0, version, size: 0, head: 0, tail: -1i64 }
}

impl Metadata {
    /// Metadata of a value without elements.
    pub fn new(data_type: DataType, version: u64) -> (m: Metadata)
        ensures
            m == fresh_metadata(data_type, version),
    {
        Metadata { flags: build_flags(data_type), expire: 0, version, size: 0, head: 0, tail: -1 }
    }

    pub fn data_type(&self) -> (t: Option<DataType>)
        ensures
            t == type_of_flags(self.flags),
    {
        data_type_from_flags(self.flags)
    }

    pub fn encoding_version(&self) -> (v: u8)
        ensures
            v == self.flags / 16,
    {
        version_from_flags(self.flags)
    }

    pub fn is_expired(&self, now_ms: i64) -> (b: bool)
        ensures
            b == expired(self.expire, now_ms),
    {
        self.expire > 0 && self.expire <= now_ms
    }
}

} // verus!

//! CONFIG: the settings by their names.

use super::{array, ok, push_reply, CommandContext};
use crate::cmd;
use crate::config;
use crate::config::{
    CompressionType, Config, ConfigManager, ConfigView, ServerConfigView, StorageConfigView,
};
use crate::encoding;
use crate::error;
use crate::error::{ErrorView, KvdbError, KvdbResult};
use crate::glob;
use crate::order;
use crate::protocol;
use crate::protocol::{RespValue, RespView};
use crate::text;
use vstd::prelude::*;
use vstd::string::*;
use vstd::utf8;

verus! {

/// A setting.
#[derive(Debug, Clone, Copy, PartialEq, Eq, Structural)]
pub enum Setting {
    Bind,
    UnixSocket,
    WorkerThreads,
    Maxclients,
    TcpKeepalive,
    Timeout,
    HttpBind,
    Namespace,
    DbPath,
    WalDir,
    MaxOpenFiles,
    WriteBufferSize,
    MaxWriteBufferNumber,
    MinWriteBufferNumberToMerge,
    TargetFileSizeBase,
    MaxBytesForLevelBase,
    LevelCompactionDynamicLevelBytes,
    CompressionType,
    BottommostCompressionType,
    BlockCacheSize,
    CacheIndexAndFilterBlocks,
    WalBytesLimit,
    MaxBackgroundJobs,
    MaxSubcompactions,
    EnablePipelinedWrite,
    UseFsync,
    LogLevel,
    DynamicConfig,
}

/// How many settings there are.
pub const SETTINGS: usize = 28;

/// The settings in the order in which they are shown.
pub open spec fn setting_at(i: int) -> Setting {
    if i <= 0 {
        Setting::Bind
    } else if i == 1 {
        Setting::UnixSocket
    } else if i == 2 {
        Setting::WorkerThreads
    } else if i == 3 {
        Setting::Maxclients
    } else if i == 4 {
        Setting::TcpKeepalive
    } else if i == 5 {
        Setting::Timeout
    } else if i == 6 {
        Setting::HttpBind
    } else if i == 7 {
        Setting::Namespace
    } else if i == 8 {
        Setting::DbPath
    } else if i == 9 {
        Setting::WalDir
    } else if i == 10 {
        Setting::MaxOpenFiles
    } else if i == 11 {
        Setting::WriteBufferSize
    } else if i == 12 {
        Setting::MaxWriteBufferNumber
    } else if i == 13 {
        Setting::MinWriteBufferNumberToMerge
    } else if i == 14 {
        Setting::TargetFileSizeBase
    } else if i == 15 {
        Setting::MaxBytesForLevelBase
    } else if i == 16 {
        Setting::LevelCompactionDynamicLevelBytes
    } else if i == 17 {
        Setting::CompressionType
    } else if i == 18 {
        Setting::BottommostCompressionType
    } else if i == 19 {
        Setting::BlockCacheSize
    } else if i == 20 {
        Setting::CacheIndexAndFilterBlocks
    } else if i == 21 {
        Setting::WalBytesLimit
    } else if i == 22 {
        Setting::MaxBackgroundJobs
    } else if i == 23 {
        Setting::MaxSubcompactions
    } else if i == 24 {
        Setting::EnablePipelinedWrite
    } else if i == 25 {
        Setting::UseFsync
    } else if i == 26 {
        Setting::LogLevel
    } else {
        Setting::DynamicConfig
    }
}

/// The setting at a place.
pub fn setting(i: usize) -> (s: Setting)
    ensures
        s == setting_at(i as int),
{
    if i == 0 {
        Setting::Bind
    } else if i == 1 {
        Setting::UnixSocket
    } else if i == 2 {
        Setting::WorkerThreads
    } else if i == 3 {
        Setting::Maxclients
    } else if i == 4 {
        Setting::TcpKeepalive
    } else if i == 5 {
        Setting::Timeout
    } else if i == 6 {
        Setting::HttpBind
    } else if i == 7 {
        Setting::Namespace
    } else if i == 8 {
        Setting::DbPath
    } else if i == 9 {
        Setting::WalDir
    } else if i == 10 {
        Setting::MaxOpenFiles
    } else if i == 11 {
        Setting::WriteBufferSize
    } else if i == 12 {
        Setting::MaxWriteBufferNumber
    } else if i == 13 {
        Setting::MinWriteBufferNumberToMerge
    } else if i == 14 {
        Setting::TargetFileSizeBase
    } else if i == 15 {
        Setting::MaxBytesForLevelBase
    } else if i == 16 {
        Setting::LevelCompactionDynamicLevelBytes
    } else if i == 17 {
        Setting::CompressionType
    } else if i == 18 {
        Setting::BottommostCompressionType
    } else if i == 19 {
        Setting::BlockCacheSize
    } else if i == 20 {
        Setting::CacheIndexAndFilterBlocks
    } else if i == 21 {
        Setting::WalBytesLimit
    } else if i == 22 {
        Setting::MaxBackgroundJobs
    } else if i == 23 {
        Setting::MaxSubcompactions
    } else if i == 24 {
        Setting::EnablePipelinedWrite
    } else if i == 25 {
        Setting::UseFsync
    } else if i == 26 {
        Setting::LogLevel
    } else {
        Setting::DynamicConfig
    }
}

/// The name of a setting.
pub open spec fn name_of(s: Setting) -> Seq<char> {
    match s {
        Setting::Bind => "bind"@,
        Setting::UnixSocket => "unix_socket"@,
        Setting::WorkerThreads => "worker_threads"@,
        Setting::Maxclients => "maxclients"@,
        Setting::TcpKeepalive => "tcp_keepalive"@,
        Setting::Timeout => "timeout"@,
        Setting::HttpBind => "http_bind"@,
        Setting::Namespace => "namespace"@,
        Setting::DbPath => "db_path"@,
        Setting::WalDir => "wal_dir"@,
        Setting::MaxOpenFiles => "max_open_files"@,
        Setting::WriteBufferSize => "write_buffer_size"@,
        Setting::MaxWriteBufferNumber => "max_write_buffer_number"@,
        Setting::MinWriteBufferNumberToMerge => "min_write_buffer_number_to_merge"@,
        Setting::TargetFileSizeBase => "target_file_size_base"@,
        Setting::MaxBytesForLevelBase => "max_bytes_for_level_base"@,
        Setting::LevelCompactionDynamicLevelBytes => "level_compaction_dynamic_level_bytes"@,
        Setting::CompressionType => "compression_type"@,
        Setting::BottommostCompressionType => "bottommost_compression_type"@,
        Setting::BlockCacheSize => "block_cache_size"@,
        Setting::CacheIndexAndFilterBlocks => "cache_index_and_filter_blocks"@,
        Setting::WalBytesLimit => "wal_bytes_limit"@,
        Setting::MaxBackgroundJobs => "max_background_jobs"@,
        Setting::MaxSubcompactions => "max_subcompactions"@,
        Setting::EnablePipelinedWrite => "enable_pipelined_write"@,
        Setting::UseFsync => "use_fsync"@,
        Setting::LogLevel => "log_level"@,
        Setting::DynamicConfig => "dynamic_config"@,
    }
}

/// The name of a setting.
pub fn name_text(s: Setting) -> (t: &'static str)
    ensures
        t@ == name_of(s),
{
    match s {
        Setting::Bind => "bind",
        Setting::UnixSocket => "unix_socket",
        Setting::WorkerThreads => "worker_threads",
        Setting::Maxclients => "maxclients",
        Setting::TcpKeepalive => "tcp_keepalive",
        Setting::Timeout => "timeout",
        Setting::HttpBind => "http_bind",
        Setting::Namespace => "namespace",
        Setting::DbPath => "db_path",
        Setting::WalDir => "wal_dir",
        Setting::MaxOpenFiles => "max_open_files",
        Setting::WriteBufferSize => "write_buffer_size",
        Setting::MaxWriteBufferNumber => "max_write_buffer_number",
        Setting::MinWriteBufferNumberToMerge => "min_write_buffer_number_to_merge",
        Setting::TargetFileSizeBase => "target_file_size_base",
        Setting::MaxBytesForLevelBase => "max_bytes_for_level_base",
        Setting::LevelCompactionDynamicLevelBytes => "level_compaction_dynamic_level_bytes",
        Setting::CompressionType => "compression_type",
        Setting::BottommostCompressionType => "bottommost_compression_type",
        Setting::BlockCacheSize => "block_cache_size",
        Setting::CacheIndexAndFilterBlocks => "cache_index_and_filter_blocks",
        Setting::WalBytesLimit => "wal_bytes_limit",
        Setting::MaxBackgroundJobs => "max_background_jobs",
        Setting::MaxSubcompactions => "max_subcompactions",
        Setting::EnablePipelinedWrite => "enable_pipelined_write",
        Setting::UseFsync => "use_fsync",
        Setting::LogLevel => "log_level",
        Setting::DynamicConfig => "dynamic_config",
    }
}

/// A number as text.
#[verifier::opaque]
pub open spec fn shown_number(n: int) -> Seq<char> {
    text::chars_of(text::dec(n as nat))
}

/// A number with its sign as text.
#[verifier::opaque]
pub open spec fn shown_signed(n: int) -> Seq<char> {
    text::chars_of(text::dec_signed(n))
}

/// A setting that is on or off.
pub open spec fn shown_flag(b: bool) -> Seq<char> {
    if b {
        "true"@
    } else {
        "false"@
    }
}

/// A text that may be left out.
pub open spec fn shown_option(t: Option<Seq<char>>) -> Seq<char> {
    match t {
        Some(t) => t,
        None => Seq::empty(),
    }
}

/// A number that may be left out.
pub open spec fn shown_count(n: Option<usize>) -> Seq<char> {
    match n {
        Some(n) => shown_number(n as int),
        None => Seq::empty(),
    }
}

/// A kind of compression as text.
pub open spec fn shown_compression(c: CompressionType) -> Seq<char> {
    match c {
        CompressionType::Uncompressed => "none"@,
        CompressionType::Snappy => "snappy"@,
        CompressionType::Lz4 => "lz4"@,
        CompressionType::Zstd => "zstd"@,
    }
}

fn number_text(n: u64) -> (t: String)
    ensures
        t@ == shown_number(n as int),
{
    let mut t = String::new();
    text::append_dec(&mut t, n);
    proof {
        reveal(shown_number);
        assert(t@ =~= shown_number(n as int));
    }
    t
}

fn signed_text(n: i64) -> (t: String)
    ensures
        t@ == shown_signed(n as int),
{
    let mut t = String::new();
    text::append_signed(&mut t, n);
    proof {
        reveal(shown_signed);
        assert(t@ =~= shown_signed(n as int));
    }
    t
}

fn flag_text(b: bool) -> (t: String)
    ensures
        t@ == shown_flag(b),
{
    if b {
        "true".to_owned()
    } else {
        "false".to_owned()
    }
}

fn option_text(o: &Option<String>) -> (t: String)
    ensures
        t@ == shown_option(config::opt_text(*o)),
{
    match o {
        Some(t) => t.clone(),
        None => {
            let t = String::new();
            proof {
                assert(t@ =~= Seq::<char>::empty());
            }
            t
        },
    }
}

fn count_text(o: Option<usize>) -> (t: String)
    ensures
        t@ == shown_count(o),
{
    match o {
        Some(n) => number_text(n as u64),
        None => {
            let t = String::new();
            proof {
                assert(t@ =~= Seq::<char>::empty());
            }
            t
        },
    }
}

fn compression_text(c: CompressionType) -> (t: String)
    ensures
        t@ == shown_compression(c),
{
    match c {
        CompressionType::Uncompressed => "none".to_owned(),
        CompressionType::Snappy => "snappy".to_owned(),
        CompressionType::Lz4 => "lz4".to_owned(),
        CompressionType::Zstd => "zstd".to_owned(),
    }
}

/// What a setting is, as text.
pub open spec fn value_of(c: ConfigView, s: Setting) -> Seq<char> {
    match s {
        Setting::Bind => c.server.bind,
        Setting::UnixSocket => shown_option(c.server.unix_socket),
        Setting::WorkerThreads => shown_count(c.server.worker_threads),
        Setting::Maxclients => shown_signed(c.server.maxclients as int),
        Setting::TcpKeepalive => shown_number(c.server.tcp_keepalive as int),
        Setting::Timeout => shown_number(c.server.timeout as int),
        Setting::HttpBind => c.server.http_bind,
        Setting::Namespace => c.server.namespace,
        Setting::DbPath => c.storage.db_path,
        Setting::WalDir => shown_option(c.storage.wal_dir),
        Setting::MaxOpenFiles => shown_signed(c.storage.max_open_files as int),
        Setting::WriteBufferSize => shown_number(c.storage.write_buffer_size as int),
        Setting::MaxWriteBufferNumber => shown_signed(c.storage.max_write_buffer_number as int),
        Setting::MinWriteBufferNumberToMerge => shown_signed(c.storage.min_write_buffer_number_to_merge as int),
        Setting::TargetFileSizeBase => shown_number(c.storage.target_file_size_base as int),
        Setting::MaxBytesForLevelBase => shown_number(c.storage.max_bytes_for_level_base as int),
        Setting::LevelCompactionDynamicLevelBytes => shown_flag(c.storage.level_compaction_dynamic_level_bytes),
        Setting::CompressionType => shown_compression(c.storage.compression_type),
        Setting::BottommostCompressionType => shown_compression(c.storage.bottommost_compression_type),
        Setting::BlockCacheSize => shown_number(c.storage.block_cache_size as int),
        Setting::CacheIndexAndFilterBlocks => shown_flag(c.storage.cache_index_and_filter_blocks),
        Setting::WalBytesLimit => shown_number(c.storage.wal_bytes_limit as int),
        Setting::MaxBackgroundJobs => shown_signed(c.storage.max_background_jobs as int),
        Setting::MaxSubcompactions => shown_number(c.storage.max_subcompactions as int),
        Setting::EnablePipelinedWrite => shown_flag(c.storage.enable_pipelined_write),
        Setting::UseFsync => shown_flag(c.storage.use_fsync),
        Setting::LogLevel => c.log_level,
        Setting::DynamicConfig => shown_flag(c.dynamic_config),
    }
}

fn value_text(c: &Config, s: Setting) -> (t: String)
    ensures
        t@ == value_of(c@, s),
{
    match s {
        Setting::Bind => c.server.bind.clone(),
        Setting::UnixSocket => option_text(&c.server.unix_socket),
        Setting::WorkerThreads => count_text(c.server.worker_threads),
        Setting::Maxclients => signed_text(c.server.maxclients),
        Setting::TcpKeepalive => number_text(c.server.tcp_keepalive),
        Setting::Timeout => number_text(c.server.timeout),
        Setting::HttpBind => c.server.http_bind.clone(),
        Setting::Namespace => c.server.namespace.clone(),
        Setting::DbPath => c.storage.db_path.clone(),
        Setting::WalDir => option_text(&c.storage.wal_dir),
        Setting::MaxOpenFiles => signed_text(c.storage.max_open_files as i64),
        Setting::WriteBufferSize => number_text(c.storage.write_buffer_size),
        Setting::MaxWriteBufferNumber => signed_text(c.storage.max_write_buffer_number as i64),
        Setting::MinWriteBufferNumberToMerge => signed_text(c.storage.min_write_buffer_number_to_merge as i64),
        Setting::TargetFileSizeBase => number_text(c.storage.target_file_size_base),
        Setting::MaxBytesForLevelBase => number_text(c.storage.max_bytes_for_level_base),
        Setting::LevelCompactionDynamicLevelBytes => flag_text(c.storage.level_compaction_dynamic_level_bytes),
        Setting::CompressionType => compression_text(c.storage.compression_type),
        Setting::BottommostCompressionType => compression_text(c.storage.bottommost_compression_type),
        Setting::BlockCacheSize => number_text(c.storage.block_cache_size),
        Setting::CacheIndexAndFilterBlocks => flag_text(c.storage.cache_index_and_filter_blocks),
        Setting::WalBytesLimit => number_text(c.storage.wal_bytes_limit),
        Setting::MaxBackgroundJobs => signed_text(c.storage.max_background_jobs as i64),
        Setting::MaxSubcompactions => number_text(c.storage.max_subcompactions as u64),
        Setting::EnablePipelinedWrite => flag_text(c.storage.enable_pipelined_write),
        Setting::UseFsync => flag_text(c.storage.use_fsync),
        Setting::LogLevel => c.log_level.clone(),
        Setting::DynamicConfig => flag_text(c.dynamic_config),
    }
}

/// What a text turns a flag to.
#[verifier::opaque]
pub open spec fn flag_in(v: Seq<u8>) -> Option<bool> {
    if text::is_word(v, "TRUE"@) {
        Some(true)
    } else if text::is_word(v, "FALSE"@) {
        Some(false)
    } else {
        None
    }
}

/// A number of 64 bits.
#[verifier::opaque]
pub open spec fn number_in(v: Seq<u8>) -> Option<u64> {
    text::u64_in(v)
}

/// A signed number of 64 bits.
#[verifier::opaque]
pub open spec fn signed_in(v: Seq<u8>) -> Option<i64> {
    text::i64_in(v)
}

/// A signed number of 32 bits.
#[verifier::opaque]
pub open spec fn i32_in(v: Seq<u8>) -> Option<i32> {
    match text::i64_in(v) {
        Some(n) => if i32::MIN <= n <= i32::MAX {
            Some(n as i32)
        } else {
            None
        },
        None => None,
    }
}

/// A number of 32 bits.
#[verifier::opaque]
pub open spec fn u32_in(v: Seq<u8>) -> Option<u32> {
    match text::u64_in(v) {
        Some(n) => if n <= u32::MAX {
            Some(n as u32)
        } else {
            None
        },
        None => None,
    }
}

/// A number that may be left out: an empty text leaves it out.
#[verifier::opaque]
pub open spec fn count_in(v: Seq<u8>) -> Option<Option<usize>> {
    if v.len() == 0 {
        Some(None)
    } else {
        match text::usize_in(v) {
            Some(n) => Some(Some(n)),
            None => None,
        }
    }
}

/// A text that may be left out: an empty one leaves it out.
#[verifier::opaque]
pub open spec fn option_in(v: Seq<u8>) -> Option<Seq<char>> {
    if v.len() == 0 {
        None
    } else {
        Some(text::text_in(v))
    }
}

/// A kind of compression.
#[verifier::opaque]
pub open spec fn compression_in(v: Seq<u8>) -> Option<CompressionType> {
    if text::is_word(v, "NONE"@) {
        Some(CompressionType::Uncompressed)
    } else if text::is_word(v, "SNAPPY"@) {
        Some(CompressionType::Snappy)
    } else if text::is_word(v, "LZ4"@) {
        Some(CompressionType::Lz4)
    } else if text::is_word(v, "ZSTD"@) {
        Some(CompressionType::Zstd)
    } else {
        None
    }
}

fn parse_number(v: &[u8]) -> (r: Option<u64>)
    ensures
        r == number_in(v@),
{
    proof {
        reveal(number_in);
    }
    text::parse_u64(v)
}

fn parse_signed(v: &[u8]) -> (r: Option<i64>)
    ensures
        r == signed_in(v@),
{
    proof {
        reveal(signed_in);
    }
    text::parse_i64(v)
}

fn parse_flag(v: &[u8]) -> (r: Option<bool>)
    ensures
        r == flag_in(v@),
{
    proof {
        reveal(flag_in);
    }
    if text::matches_word(v, "TRUE") {
        Some(true)
    } else if text::matches_word(v, "FALSE") {
        Some(false)
    } else {
        None
    }
}

fn parse_i32(v: &[u8]) -> (r: Option<i32>)
    ensures
        r == i32_in(v@),
{
    proof {
        reveal(i32_in);
    }
    match text::parse_i64(v) {
        Some(n) => if -0x8000_0000 <= n && n <= 0x7FFF_FFFF {
            Some(n as i32)
        } else {
            None
        },
        None => None,
    }
}

fn parse_u32(v: &[u8]) -> (r: Option<u32>)
    ensures
        r == u32_in(v@),
{
    proof {
        reveal(u32_in);
    }
    match text::parse_u64(v) {
        Some(n) => if n <= 0xFFFF_FFFF {
            Some(n as u32)
        } else {
            None
        },
        None => None,
    }
}

fn parse_count(v: &[u8]) -> (r: Option<Option<usize>>)
    ensures
        r == count_in(v@),
{
    proof {
        reveal(count_in);
    }
    if v.len() == 0 {
        return Some(None);
    }
    match text::parse_usize(v) {
        Some(n) => Some(Some(n)),
        None => None,
    }
}

fn parse_option(v: &[u8]) -> (r: Option<String>)
    ensures
        config::opt_text(r) == option_in(v@),
{
    proof {
        reveal(option_in);
    }
    if v.len() == 0 {
        None
    } else {
        Some(text::lossy(v))
    }
}

fn parse_compression(v: &[u8]) -> (r: Option<CompressionType>)
    ensures
        r == compression_in(v@),
{
    proof {
        reveal(compression_in);
    }
    if text::matches_word(v, "NONE") {
        Some(CompressionType::Uncompressed)
    } else if text::matches_word(v, "SNAPPY") {
        Some(CompressionType::Snappy)
    } else if text::matches_word(v, "LZ4") {
        Some(CompressionType::Lz4)
    } else if text::matches_word(v, "ZSTD") {
        Some(CompressionType::Zstd)
    } else {
        None
    }
}

/// A configuration with another setting of the server.
pub open spec fn with_server(c: ConfigView, server: ServerConfigView) -> ConfigView {
    ConfigView { server, ..c }
}

/// A configuration with another setting of the store.
pub open spec fn with_storage(c: ConfigView, storage: StorageConfigView) -> ConfigView {
    ConfigView { storage, ..c }
}

/// A configuration with a setting as a text says, if it says anything that the
/// setting can be.
pub open spec fn changed(c: ConfigView, s: Setting, v: Seq<u8>) -> Option<ConfigView> {
    match s {
        Setting::Bind => Some(
            with_server(c, ServerConfigView { bind: text::text_in(v), ..c.server }),
        ),
        Setting::UnixSocket => Some(
            with_server(c, ServerConfigView { unix_socket: option_in(v), ..c.server }),
        ),
        Setting::WorkerThreads => match count_in(v) {
            Some(x) => Some(
                with_server(c, ServerConfigView { worker_threads: x, ..c.server }),
            ),
            None => None,
        },
        Setting::Maxclients => match signed_in(v) {
            Some(x) => Some(
                with_server(c, ServerConfigView { maxclients: x, ..c.server }),
            ),
            None => None,
        },
        Setting::TcpKeepalive => match number_in(v) {
            Some(x) => Some(
                with_server(c, ServerConfigView { tcp_keepalive: x, ..c.server }),
            ),
            None => None,
        },
        Setting::Timeout => match number_in(v) {
            Some(x) => Some(
                with_server(c, ServerConfigView { timeout: x, ..c.server }),
            ),
            None => None,
        },
        Setting::HttpBind => Some(
            with_server(c, ServerConfigView { http_bind: text::text_in(v), ..c.server }),
        ),
        Setting::Namespace => Some(
            with_server(c, ServerConfigView { namespace: text::text_in(v), ..c.server }),
        ),
        Setting::DbPath => Some(
            with_storage(c, StorageConfigView { db_path: text::text_in(v), ..c.storage }),
        ),
        Setting::WalDir => Some(
            with_storage(c, StorageConfigView { wal_dir: option_in(v), ..c.storage }),
        ),
        Setting::MaxOpenFiles => match i32_in(v) {
            Some(x) => Some(
                with_storage(c, StorageConfigView { max_open_files: x, ..c.storage }),
            ),
            None => None,
        },
        Setting::WriteBufferSize => match number_in(v) {
            Some(x) => Some(
                with_storage(c, StorageConfigView { write_buffer_size: x, ..c.storage }),
            ),
            None => None,
        },
        Setting::MaxWriteBufferNumber => match i32_in(v) {
            Some(x) => Some(
                with_storage(c, StorageConfigView { max_write_buffer_number: x, ..c.storage }),
            ),
            None => None,
        },
        Setting::MinWriteBufferNumberToMerge => match i32_in(v) {
            Some(x) => Some(
                with_storage(c, StorageConfigView { min_write_buffer_number_to_merge: x, ..c.storage }),
            ),
            None => None,
        },
        Setting::TargetFileSizeBase => match number_in(v) {
            Some(x) => Some(
                with_storage(c, StorageConfigView { target_file_size_base: x, ..c.storage }),
            ),
            None => None,
        },
        Setting::MaxBytesForLevelBase => match number_in(v) {
            Some(x) => Some(
                with_storage(c, StorageConfigView { max_bytes_for_level_base: x, ..c.storage }),
            ),
            None => None,
        },
        Setting::LevelCompactionDynamicLevelBytes => match flag_in(v) {
            Some(x) => Some(
                with_storage(c, StorageConfigView { level_compaction_dynamic_level_bytes: x, ..c.storage }),
            ),
            None => None,
        },
        Setting::CompressionType => match compression_in(v) {
            Some(x) => Some(
                with_storage(c, StorageConfigView { compression_type: x, ..c.storage }),
            ),
            None => None,
        },
        Setting::BottommostCompressionType => match compression_in(v) {
            Some(x) => Some(
                with_storage(c, StorageConfigView { bottommost_compression_type: x, ..c.storage }),
            ),
            None => None,
        },
        Setting::BlockCacheSize => match number_in(v) {
            Some(x) => Some(
                with_storage(c, StorageConfigView { block_cache_size: x, ..c.storage }),
            ),
            None => None,
        },
        Setting::CacheIndexAndFilterBlocks => match flag_in(v) {
            Some(x) => Some(
                with_storage(c, StorageConfigView { cache_index_and_filter_blocks: x, ..c.storage }),
            ),
            None => None,
        },
        Setting::WalBytesLimit => match number_in(v) {
            Some(x) => Some(
                with_storage(c, StorageConfigView { wal_bytes_limit: x, ..c.storage }),
            ),
            None => None,
        },
        Setting::MaxBackgroundJobs => match i32_in(v) {
            Some(x) => Some(
                with_storage(c, StorageConfigView { max_background_jobs: x, ..c.storage }),
            ),
            None => None,
        },
        Setting::MaxSubcompactions => match u32_in(v) {
            Some(x) => Some(
                with_storage(c, StorageConfigView { max_subcompactions: x, ..c.storage }),
            ),
            None => None,
        },
        Setting::EnablePipelinedWrite => match flag_in(v) {
            Some(x) => Some(
                with_storage(c, StorageConfigView { enable_pipelined_write: x, ..c.storage }),
            ),
            None => None,
        },
        Setting::UseFsync => match flag_in(v) {
            Some(x) => Some(
                with_storage(c, StorageConfigView { use_fsync: x, ..c.storage }),
            ),
            None => None,
        },
        Setting::LogLevel => Some(
            ConfigView { log_level: text::text_in(v), ..c },
        ),
        Setting::DynamicConfig => match flag_in(v) {
            Some(x) => Some(
                ConfigView { dynamic_config: x, ..c },
            ),
            None => None,
        },
    }
}

fn change(c: &mut Config, s: Setting, v: &[u8]) -> (done: bool)
    ensures
        match changed(old(c)@, s, v@) {
            Some(after) => done && final(c)@ == after,
            None => !done && final(c)@ == old(c)@,
        },
{
    match s {
        Setting::Bind => c.server.bind = text::lossy(v),
        Setting::UnixSocket => c.server.unix_socket = parse_option(v),
        Setting::WorkerThreads => match parse_count(v) {
            Some(x) => c.server.worker_threads = x,
            None => return false,
        },
        Setting::Maxclients => match parse_signed(v) {
            Some(x) => c.server.maxclients = x,
            None => return false,
        },
        Setting::TcpKeepalive => match parse_number(v) {
            Some(x) => c.server.tcp_keepalive = x,
            None => return false,
        },
        Setting::Timeout => match parse_number(v) {
            Some(x) => c.server.timeout = x,
            None => return false,
        },
        Setting::HttpBind => c.server.http_bind = text::lossy(v),
        Setting::Namespace => c.server.namespace = text::lossy(v),
        Setting::DbPath => c.storage.db_path = text::lossy(v),
        Setting::WalDir => c.storage.wal_dir = parse_option(v),
        Setting::MaxOpenFiles => match parse_i32(v) {
            Some(x) => c.storage.max_open_files = x,
            None => return false,
        },
        Setting::WriteBufferSize => match parse_number(v) {
            Some(x) => c.storage.write_buffer_size = x,
            None => return false,
        },
        Setting::MaxWriteBufferNumber => match parse_i32(v) {
            Some(x) => c.storage.max_write_buffer_number = x,
            None => return false,
        },
        Setting::MinWriteBufferNumberToMerge => match parse_i32(v) {
            Some(x) => c.storage.min_write_buffer_number_to_merge = x,
            None => return false,
        },
        Setting::TargetFileSizeBase => match parse_number(v) {
            Some(x) => c.storage.target_file_size_base = x,
            None => return false,
        },
        Setting::MaxBytesForLevelBase => match parse_number(v) {
            Some(x) => c.storage.max_bytes_for_level_base = x,
            None => return false,
        },
        Setting::LevelCompactionDynamicLevelBytes => match parse_flag(v) {
            Some(x) => c.storage.level_compaction_dynamic_level_bytes = x,
            None => return false,
        },
        Setting::CompressionType => match parse_compression(v) {
            Some(x) => c.storage.compression_type = x,
            None => return false,
        },
        Setting::BottommostCompressionType => match parse_compression(v) {
            Some(x) => c.storage.bottommost_compression_type = x,
            None => return false,
        },
        Setting::BlockCacheSize => match parse_number(v) {
            Some(x) => c.storage.block_cache_size = x,
            None => return false,
        },
        Setting::CacheIndexAndFilterBlocks => match parse_flag(v) {
            Some(x) => c.storage.cache_index_and_filter_blocks = x,
            None => return false,
        },
        Setting::WalBytesLimit => match parse_number(v) {
            Some(x) => c.storage.wal_bytes_limit = x,
            None => return false,
        },
        Setting::MaxBackgroundJobs => match parse_i32(v) {
            Some(x) => c.storage.max_background_jobs = x,
            None => return false,
        },
        Setting::MaxSubcompactions => match parse_u32(v) {
            Some(x) => c.storage.max_subcompactions = x,
            None => return false,
        },
        Setting::EnablePipelinedWrite => match parse_flag(v) {
            Some(x) => c.storage.enable_pipelined_write = x,
            None => return false,
        },
        Setting::UseFsync => match parse_flag(v) {
            Some(x) => c.storage.use_fsync = x,
            None => return false,
        },
        Setting::LogLevel => c.log_level = text::lossy(v),
        Setting::DynamicConfig => match parse_flag(v) {
            Some(x) => c.dynamic_config = x,
            None => return false,
        },
    }
    true
}

/// The names and the values of those of the first `n` settings whose names a
/// pattern stands for.
pub open spec fn found(c: ConfigView, pattern: Seq<u8>, n: nat) -> Seq<RespView>
    decreases n,
{
    if n == 0 {
        Seq::empty()
    } else {
        let before = found(c, pattern, (n - 1) as nat);
        let s = setting_at(n - 1);
        let name = utf8::encode_utf8(name_of(s));
        if glob::matches(pattern, name) {
            before.push(cmd::bulk(Some(name))).push(
                cmd::bulk(Some(utf8::encode_utf8(value_of(c, s)))),
            )
        } else {
            before
        }
    }
}

fn get_settings(c: &Config, pattern: &[u8]) -> (r: RespValue)
    ensures
        r@ == RespView::Array(found(c@, pattern@, SETTINGS as nat)),
{
    let mut items: Vec<RespValue> = Vec::new();
    let mut i: usize = 0;
    proof {
        assert(protocol::views(items@) =~= Seq::<RespView>::empty());
    }
    while i < SETTINGS
        invariant
            i <= SETTINGS,
            protocol::views(items@) == found(c@, pattern@, i as nat),
        decreases SETTINGS - i,
    {
        let s = setting(i);
        let name = text::bytes_of(name_text(s));
        if glob::glob(pattern, &name) {
            let value = value_text(c, s);
            push_reply(&mut items, RespValue::BulkString(Some(name)));
            push_reply(&mut items, RespValue::BulkString(Some(text::bytes_of(value.as_str()))));
        }
        i = i + 1;
    }
    array(items)
}

/// The setting with a name, among those from `i` on.
pub open spec fn named_from(name: Seq<u8>, i: int) -> Option<Setting>
    decreases SETTINGS - i,
{
    if i >= SETTINGS {
        None
    } else if utf8::encode_utf8(name_of(setting_at(i))) == name {
        Some(setting_at(i))
    } else {
        named_from(name, i + 1)
    }
}

fn find_setting(name: &[u8]) -> (r: Option<Setting>)
    ensures
        r == named_from(name@, 0),
{
    let mut i: usize = 0;
    while i < SETTINGS
        invariant
            i <= SETTINGS,
            named_from(name@, 0) == named_from(name@, i as int),
        decreases SETTINGS - i,
    {
        let s = setting(i);
        let own = text::bytes_of(name_text(s));
        if order::same(&own, name) {
            return Some(s);
        }
        i = i + 1;
    }
    None
}

/// The configuration that CONFIG SET asks for.
pub open spec fn asked(c: ConfigView, name: Seq<u8>, v: Seq<u8>) -> Result<ConfigView, ErrorView> {
    match named_from(name, 0) {
        None => Err(ErrorView::Command("unknown setting"@)),
        Some(s) => match changed(c, s, v) {
            Some(after) => Ok(after),
            None => Err(ErrorView::Command("invalid value for the setting"@)),
        },
    }
}

fn ask(c: &mut Config, name: &[u8], v: &[u8]) -> (r: KvdbResult<()>)
    ensures
        match asked(old(c)@, name@, v@) {
            Ok(after) => r is Ok && final(c)@ == after,
            Err(e) => r is Err && r->Err_0@ == e,
        },
{
    match find_setting(name) {
        None => Err(error::command_error("unknown setting")),
        Some(s) => if change(c, s, v) {
            Ok(())
        } else {
            Err(error::command_error("invalid value for the setting"))
        },
    }
}

/// Names and values as byte strings.
pub open spec fn pairs_of(given: Seq<(Vec<u8>, Vec<u8>)>) -> Seq<(Seq<u8>, Seq<u8>)> {
    Seq::new(given.len(), |i: int| (given[i].0@, given[i].1@))
}

/// A configuration with the first `n` of some settings, such as those that the
/// environment gives, or the first error.
pub open spec fn overlaid(c: ConfigView, given: Seq<(Seq<u8>, Seq<u8>)>, n: nat) -> Result<
    ConfigView,
    ErrorView,
>
    decreases n,
{
    if n == 0 {
        Ok(c)
    } else {
        match overlaid(c, given, (n - 1) as nat) {
            Err(e) => Err(e),
            Ok(before) => asked(before, given[n - 1].0, given[n - 1].1),
        }
    }
}

proof fn lemma_overlay_error(c: ConfigView, given: Seq<(Seq<u8>, Seq<u8>)>, n: nat, m: nat)
    requires
        n <= m,
        overlaid(c, given, n) is Err,
    ensures
        overlaid(c, given, m) == overlaid(c, given, n),
    decreases m,
{
    if n < m {
        lemma_overlay_error(c, given, n, (m - 1) as nat);
    }
}

fn overlay(c: &mut Config, given: &Vec<(Vec<u8>, Vec<u8>)>) -> (r: KvdbResult<()>)
    ensures
        match overlaid(old(c)@, pairs_of(given@), given@.len()) {
            Ok(after) => r is Ok && final(c)@ == after,
            Err(e) => r is Err && r->Err_0@ == e,
        },
{
    let ghost first = c@;
    let ghost all = pairs_of(given@);
    let mut i: usize = 0;
    while i < given.len()
        invariant
            i <= given@.len(),
            all == pairs_of(given@),
            all.len() == given@.len(),
            first == old(c)@,
            overlaid(first, all, i as nat) == Ok::<_, ErrorView>(c@),
        decreases given.len() - i,
    {
        proof {
            assert(all[i as int] == (given@[i as int].0@, given@[i as int].1@));
            if overlaid(first, all, (i + 1) as nat) is Err {
                lemma_overlay_error(first, all, (i + 1) as nat, all.len());
            }
        }
        match ask(c, &given[i].0, &given[i].1) {
            Ok(_) => {},
            Err(e) => return Err(e),
        }
        i = i + 1;
    }
    Ok(())
}

/// What loading a configuration in layers gives on a machine with so many bytes
/// of memory: the defaults, under a file, under settings that are given apart.
pub open spec fn loaded_with(
    file: Option<(Seq<char>, ConfigView)>,
    given: Seq<(Seq<u8>, Seq<u8>)>,
    total_mem: u64,
) -> Result<ConfigView, ErrorView> {
    match overlaid(config::layered(file), given, given.len()) {
        Err(e) => Err(e),
        Ok(c) => {
            let fit = config::fitted(c, total_mem);
            match config::fault_in(fit, total_mem) {
                None => Ok(fit),
                Some(e) => Err(e),
            }
        },
    }
}

/// Puts the defaults, under the settings of a file with its path, under
/// settings that are given apart, in force on a machine with so many bytes of
/// memory.
pub fn load_within(
    file: Option<(String, Config)>,
    given: &Vec<(Vec<u8>, Vec<u8>)>,
    total_mem: u64,
) -> (r: KvdbResult<ConfigManager>)
    ensures
        config::manager_view(r) == loaded_with(
            config::file_view(file),
            pairs_of(given@),
            total_mem,
        ),
{
    let ghost layers = config::file_view(file);
    let mut c = Config::default();
    match file {
        Some((path, read)) => {
            c.config_file = Some(path);
            c.merge(read);
        },
        None => {},
    }
    proof {
        assert(c@ == config::layered(layers));
        assert(pairs_of(given@).len() == given@.len());
    }
    match overlay(&mut c, given) {
        Ok(_) => {},
        Err(e) => return Err(e),
    }
    c.adjust_to(total_mem);
    match c.validate_within(total_mem) {
        Ok(_) => Ok(ConfigManager::new(c)),
        Err(e) => Err(e),
    }
}

/// Puts the defaults, under a file, under settings that are given apart, in
/// force on this machine.
pub fn load(file: Option<(String, Config)>, given: &Vec<(Vec<u8>, Vec<u8>)>) -> (r: KvdbResult<
    ConfigManager,
>)
    ensures
        exists|total_mem: u64|
            config::manager_view(r) == #[trigger] loaded_with(
                config::file_view(file),
                pairs_of(given@),
                total_mem,
            ),
{
    let total_mem: u64 = config::total_memory();
    load_within(file, given, total_mem)
}

/// Settings that are given apart stand above the file: loading without any is
/// loading the file alone.
pub proof fn law_layers(file: Option<(Seq<char>, ConfigView)>, total_mem: u64)
    ensures
        loaded_with(file, Seq::empty(), total_mem) == config::loaded(file, total_mem),
{
}

/// What CONFIG SET does on a machine with so many bytes of memory: a valid
/// configuration comes into force, and any other changes nothing.
pub open spec fn set_result(c: ConfigView, name: Seq<u8>, v: Seq<u8>, total_mem: u64) -> (
    ConfigView,
    Result<RespView, ErrorView>,
) {
    match asked(c, name, v) {
        Err(e) => (c, Err(e)),
        Ok(new) => {
            let fit = config::fitted(new, total_mem);
            match config::fault_in(fit, total_mem) {
                None => (fit, Ok(cmd::ok_reply())),
                Some(e) => (c, Err(e)),
            }
        },
    }
}

/// CONFIG SET on a machine with so many bytes of memory.
pub fn set_within(ctx: &mut CommandContext, name: &[u8], v: &[u8], total_mem: u64) -> (r: KvdbResult<
    RespValue,
>)
    ensures
        (final(ctx).config@, cmd::reply_view(r)) == set_result(
            old(ctx).config@,
            name@,
            v@,
            total_mem,
        ),
        *final(ctx) == (CommandContext { config: final(ctx).config, ..*old(ctx) }),
{
    let mut c = ctx.config.get();
    match ask(&mut c, name, v) {
        Err(e) => return Err(e),
        Ok(_) => {},
    }
    match ctx.config.update_within(c, total_mem) {
        Err(e) => Err(e),
        Ok(_) => Ok(ok()),
    }
}

/// CONFIG GET pattern, and CONFIG SET name value, which depends on the memory
/// of the machine.
pub open spec fn config_allowed(
    c: ConfigView,
    a: Seq<Seq<u8>>,
    after: ConfigView,
    reply: Result<RespView, ErrorView>,
) -> bool {
    if a.len() == 0 {
        after == c && reply == Err::<RespView, _>(cmd::wrong_args("CONFIG"@))
    } else if text::is_word(a[0], "GET"@) && a.len() == 2 {
        after == c && reply == Ok::<_, ErrorView>(
            RespView::Array(found(c, a[1], SETTINGS as nat)),
        )
    } else if text::is_word(a[0], "SET"@) && a.len() == 3 {
        exists|total_mem: u64| (after, reply) == #[trigger] set_result(c, a[1], a[2], total_mem)
    } else {
        after == c && reply == Err::<RespView, _>(ErrorView::Command("syntax error"@))
    }
}

/// CONFIG on this machine.
pub fn config(ctx: &mut CommandContext, args: &[Vec<u8>]) -> (r: KvdbResult<RespValue>)
    ensures
        config_allowed(
            old(ctx).config@,
            encoding::byte_seqs(args@),
            final(ctx).config@,
            cmd::reply_view(r),
        ),
        *final(ctx) == (CommandContext { config: final(ctx).config, ..*old(ctx) }),
{
    let ghost a = encoding::byte_seqs(args@);
    proof {
        assert(args.len() == args@.len());
    }
    if args.len() == 0 {
        return Err(KvdbError::WrongArgCount("CONFIG"));
    }
    if text::matches_word(&args[0], "GET") && args.len() == 2 {
        let c = ctx.config.get();
        return Ok(get_settings(&c, &args[1]));
    }
    if text::matches_word(&args[0], "SET") && args.len() == 3 {
        let total_mem: u64 = config::total_memory();
        let r = set_within(ctx, &args[1], &args[2], total_mem);
        proof {
            assert((ctx.config@, cmd::reply_view(r)) == set_result(
                old(ctx).config@,
                a[1],
                a[2],
                total_mem,
            ));
        }
        return r;
    }
    Err(error::command_error("syntax error"))
}

/// A setting has the same value in both configurations.
pub open spec fn keeps(c: ConfigView, after: ConfigView, s: Setting) -> bool {
    value_of(after, s) == value_of(c, s)
}

/// CONFIG SET changes the setting that it names and no other.
pub proof fn law_config_set_changes_one(c: ConfigView, s: Setting, v: Seq<u8>, other: Setting)
    requires
        changed(c, s, v) is Some,
        other != s,
    ensures
        keeps(c, changed(c, s, v)->0, other),
{
    match s {
        Setting::Bind => {
            assert(keeps(c, changed(c, Setting::Bind, v)->0, other));
        },
        Setting::UnixSocket => {
            assert(keeps(c, changed(c, Setting::UnixSocket, v)->0, other));
        },
        Setting::WorkerThreads => {
            assert(keeps(c, changed(c, Setting::WorkerThreads, v)->0, other));
        },
        Setting::Maxclients => {
            assert(keeps(c, changed(c, Setting::Maxclients, v)->0, other));
        },
        Setting::TcpKeepalive => {
            assert(keeps(c, changed(c, Setting::TcpKeepalive, v)->0, other));
        },
        Setting::Timeout => {
            assert(keeps(c, changed(c, Setting::Timeout, v)->0, other));
        },
        Setting::HttpBind => {
            assert(keeps(c, changed(c, Setting::HttpBind, v)->0, other));
        },
        Setting::Namespace => {
            assert(keeps(c, changed(c, Setting::Namespace, v)->0, other));
        },
        Setting::DbPath => {
            assert(keeps(c, changed(c, Setting::DbPath, v)->0, other));
        },
        Setting::WalDir => {
            assert(keeps(c, changed(c, Setting::WalDir, v)->0, other));
        },
        Setting::MaxOpenFiles => {
            assert(keeps(c, changed(c, Setting::MaxOpenFiles, v)->0, other));
        },
        Setting::WriteBufferSize => {
            assert(keeps(c, changed(c, Setting::WriteBufferSize, v)->0, other));
        },
        Setting::MaxWriteBufferNumber => {
            assert(keeps(c, changed(c, Setting::MaxWriteBufferNumber, v)->0, other));
        },
        Setting::MinWriteBufferNumberToMerge => {
            assert(keeps(c, changed(c, Setting::MinWriteBufferNumberToMerge, v)->0, other));
        },
        Setting::TargetFileSizeBase => {
            assert(keeps(c, changed(c, Setting::TargetFileSizeBase, v)->0, other));
        },
        Setting::MaxBytesForLevelBase => {
            assert(keeps(c, changed(c, Setting::MaxBytesForLevelBase, v)->0, other));
        },
        Setting::LevelCompactionDynamicLevelBytes => {
            assert(keeps(c, changed(c, Setting::LevelCompactionDynamicLevelBytes, v)->0, other));
        },
        Setting::CompressionType => {
            assert(keeps(c, changed(c, Setting::CompressionType, v)->0, other));
        },
        Setting::BottommostCompressionType => {
            assert(keeps(c, changed(c, Setting::BottommostCompressionType, v)->0, other));
        },
        Setting::BlockCacheSize => {
            assert(keeps(c, changed(c, Setting::BlockCacheSize, v)->0, other));
        },
        Setting::CacheIndexAndFilterBlocks => {
            assert(keeps(c, changed(c, Setting::CacheIndexAndFilterBlocks, v)->0, other));
        },
        Setting::WalBytesLimit => {
            assert(keeps(c, changed(c, Setting::WalBytesLimit, v)->0, other));
        },
        Setting::MaxBackgroundJobs => {
            assert(keeps(c, changed(c, Setting::MaxBackgroundJobs, v)->0, other));
        },
        Setting::MaxSubcompactions => {
            assert(keeps(c, changed(c, Setting::MaxSubcompactions, v)->0, other));
        },
        Setting::EnablePipelinedWrite => {
            assert(keeps(c, changed(c, Setting::EnablePipelinedWrite, v)->0, other));
        },
        Setting::UseFsync => {
            assert(keeps(c, changed(c, Setting::UseFsync, v)->0, other));
        },
        Setting::LogLevel => {
            assert(keeps(c, changed(c, Setting::LogLevel, v)->0, other));
        },
        Setting::DynamicConfig => {
            assert(keeps(c, changed(c, Setting::DynamicConfig, v)->0, other));
        },
    }
}

/// ASCII text in UTF-8 has one byte for every character.
proof fn lemma_ascii_text(b: Seq<u8>)
    requires
        forall|i: int| 0 <= i < b.len() ==> #[trigger] b[i] < 128,
    ensures
        utf8::encode_utf8(text::chars_of(b)) == b,
{
    let t = text::chars_of(b);
    assert(utf8::is_ascii_chars(t)) by {
        assert forall|i: int| 0 <= i < t.len() implies '\0' <= #[trigger] t[i] <= '\u{7f}' by {
            assert(b[i] < 128);
        }
    }
    utf8::is_ascii_chars_encode_utf8(t);
    assert forall|i: int| 0 <= i < b.len() implies utf8::encode_utf8(t)[i] == b[i] by {
        assert(t[i] as u8 == b[i]);
    }
    assert(utf8::encode_utf8(t) =~= b);
}

proof fn lemma_number_read(n: nat)
    ensures
        ({
            let v = utf8::encode_utf8(shown_number(n as int));
            &&& v.len() > 0
            &&& n <= u64::MAX ==> number_in(v) == Some(n as u64)
            &&& n <= u32::MAX ==> u32_in(v) == Some(n as u32)
            &&& n <= usize::MAX ==> count_in(v) == Some(Some(n as usize))
        }),
{
    reveal(shown_number);
    reveal(number_in);
    reveal(u32_in);
    reveal(count_in);
    let d = text::dec(n);
    text::lemma_dec(n);
    assert forall|i: int| 0 <= i < d.len() implies #[trigger] d[i] < 128 by {
        assert(text::is_digit(d[i]));
    }
    lemma_ascii_text(d);
    text::law_decimal_round_trip(n, 0);
}

proof fn lemma_signed_read(n: int)
    ensures
        ({
            let v = utf8::encode_utf8(shown_signed(n));
            &&& i64::MIN <= n <= i64::MAX ==> signed_in(v) == Some(n as i64)
            &&& i32::MIN <= n <= i32::MAX ==> i32_in(v) == Some(n as i32)
        }),
{
    reveal(shown_signed);
    reveal(signed_in);
    reveal(i32_in);
    let d = text::dec_signed(n);
    let m = if n < 0 {
        (-n) as nat
    } else {
        n as nat
    };
    text::lemma_dec(m);
    assert forall|i: int| 0 <= i < d.len() implies #[trigger] d[i] < 128 by {
        if n < 0 && i > 0 {
            assert(d[i] == text::dec(m)[i - 1]);
            assert(text::is_digit(text::dec(m)[i - 1]));
        } else if n >= 0 {
            assert(text::is_digit(text::dec(m)[i]));
        }
    }
    lemma_ascii_text(d);
    text::law_decimal_round_trip(0, n);
}

proof fn lemma_text_read(t: Seq<char>)
    ensures
        ({
            let v = utf8::encode_utf8(t);
            &&& text::text_in(v) == t
            &&& shown_option(option_in(v)) == t
        }),
{
    reveal(option_in);
    utf8::encode_utf8_valid_utf8(t);
    utf8::encode_utf8_decode_utf8(t);
    if utf8::encode_utf8(t).len() == 0 {
        assert(utf8::encode_utf8(t) =~= utf8::encode_utf8(Seq::<char>::empty()));
        utf8::encode_utf8_decode_utf8(Seq::<char>::empty());
    }
}

proof fn lemma_words_read(b: bool, c: CompressionType)
    ensures
        flag_in(utf8::encode_utf8(shown_flag(b))) == Some(b),
        compression_in(utf8::encode_utf8(shown_compression(c))) == Some(c),
{
    reveal(flag_in);
    reveal(compression_in);
    reveal_strlit("true");
    reveal_strlit("false");
    reveal_strlit("TRUE");
    reveal_strlit("FALSE");
    reveal_strlit("none");
    reveal_strlit("snappy");
    reveal_strlit("lz4");
    reveal_strlit("zstd");
    reveal_strlit("NONE");
    reveal_strlit("SNAPPY");
    reveal_strlit("LZ4");
    reveal_strlit("ZSTD");
    utf8::is_ascii_chars_encode_utf8(shown_flag(b));
    utf8::is_ascii_chars_encode_utf8(shown_compression(c));
    let v = utf8::encode_utf8(shown_compression(c));
    if c == CompressionType::Zstd {
        assert(v[0] == 122u8);
        assert(text::upper(v[0]) != 'N' as u8);
    }
}

proof fn lemma_count_read(o: Option<usize>)
    ensures
        count_in(utf8::encode_utf8(shown_count(o))) == Some(o),
{
    match o {
        Some(n) => lemma_number_read(n as nat),
        None => {
            reveal(count_in);
            assert(utf8::encode_utf8(Seq::<char>::empty()) =~= Seq::<u8>::empty());
        },
    }
}

/// A setting can be set to what CONFIG GET shows of it in any configuration, and
/// CONFIG GET then shows the same.
pub proof fn law_config_get_after_set(c: ConfigView, shown: ConfigView, s: Setting)
    ensures
        ({
            let after = changed(c, s, utf8::encode_utf8(value_of(shown, s)));
            after is Some && keeps(shown, after->0, s)
        }),
{
    match s {

        Setting::Bind => {
            lemma_text_read(shown.server.bind);
        },
        Setting::UnixSocket => {
            lemma_text_read(shown_option(shown.server.unix_socket));
        },
        Setting::WorkerThreads => {
            lemma_count_read(shown.server.worker_threads);
        },
        Setting::Maxclients => {
            lemma_signed_read(shown.server.maxclients as int);
        },
        Setting::TcpKeepalive => {
            lemma_number_read(shown.server.tcp_keepalive as nat);
        },
        Setting::Timeout => {
            lemma_number_read(shown.server.timeout as nat);
        },
        Setting::HttpBind => {
            lemma_text_read(shown.server.http_bind);
        },
        Setting::Namespace => {
            lemma_text_read(shown.server.namespace);
        },
        Setting::DbPath => {
            lemma_text_read(shown.storage.db_path);
        },
        Setting::WalDir => {
            lemma_text_read(shown_option(shown.storage.wal_dir));
        },
        Setting::MaxOpenFiles => {
            lemma_signed_read(shown.storage.max_open_files as int);
        },
        Setting::WriteBufferSize => {
            lemma_number_read(shown.storage.write_buffer_size as nat);
        },
        Setting::MaxWriteBufferNumber => {
            lemma_signed_read(shown.storage.max_write_buffer_number as int);
        },
        Setting::MinWriteBufferNumberToMerge => {
            lemma_signed_read(shown.storage.min_write_buffer_number_to_merge as int);
        },
        Setting::TargetFileSizeBase => {
            lemma_number_read(shown.storage.target_file_size_base as nat);
        },
        Setting::MaxBytesForLevelBase => {
            lemma_number_read(shown.storage.max_bytes_for_level_base as nat);
        },
        Setting::LevelCompactionDynamicLevelBytes => {
            lemma_words_read(shown.storage.level_compaction_dynamic_level_bytes, CompressionType::Lz4);
        },
        Setting::CompressionType => {
            lemma_words_read(true, shown.storage.compression_type);
        },
        Setting::BottommostCompressionType => {
            lemma_words_read(true, shown.storage.bottommost_compression_type);
        },
        Setting::BlockCacheSize => {
            lemma_number_read(shown.storage.block_cache_size as nat);
        },
        Setting::CacheIndexAndFilterBlocks => {
            lemma_words_read(shown.storage.cache_index_and_filter_blocks, CompressionType::Lz4);
        },
        Setting::WalBytesLimit => {
            lemma_number_read(shown.storage.wal_bytes_limit as nat);
        },
        Setting::MaxBackgroundJobs => {
            lemma_signed_read(shown.storage.max_background_jobs as int);
        },
        Setting::MaxSubcompactions => {
            lemma_number_read(shown.storage.max_subcompactions as nat);
        },
        Setting::EnablePipelinedWrite => {
            lemma_words_read(shown.storage.enable_pipelined_write, CompressionType::Lz4);
        },
        Setting::UseFsync => {
            lemma_words_read(shown.storage.use_fsync, CompressionType::Lz4);
        },
        Setting::LogLevel => {
            lemma_text_read(shown.log_level);
        },
        Setting::DynamicConfig => {
            lemma_words_read(shown.dynamic_config, CompressionType::Lz4);
        },
    }
}

/// The place of a setting.
spec fn place_of(s: Setting) -> int {
    match s {
        Setting::Bind => 0,
        Setting::UnixSocket => 1,
        Setting::WorkerThreads => 2,
        Setting::Maxclients => 3,
        Setting::TcpKeepalive => 4,
        Setting::Timeout => 5,
        Setting::HttpBind => 6,
        Setting::Namespace => 7,
        Setting::DbPath => 8,
        Setting::WalDir => 9,
        Setting::MaxOpenFiles => 10,
        Setting::WriteBufferSize => 11,
        Setting::MaxWriteBufferNumber => 12,
        Setting::MinWriteBufferNumberToMerge => 13,
        Setting::TargetFileSizeBase => 14,
        Setting::MaxBytesForLevelBase => 15,
        Setting::LevelCompactionDynamicLevelBytes => 16,
        Setting::CompressionType => 17,
        Setting::BottommostCompressionType => 18,
        Setting::BlockCacheSize => 19,
        Setting::CacheIndexAndFilterBlocks => 20,
        Setting::WalBytesLimit => 21,
        Setting::MaxBackgroundJobs => 22,
        Setting::MaxSubcompactions => 23,
        Setting::EnablePipelinedWrite => 24,
        Setting::UseFsync => 25,
        Setting::LogLevel => 26,
        Setting::DynamicConfig => 27,
    }
}

proof fn lemma_place(s: Setting)
    ensures
        0 <= place_of(s) < 28,
        setting_at(place_of(s)) == s,
{
}

/// CONFIG GET shows every setting whose name the pattern stands for, with its
/// value behind its name, and nothing else, each setting at most once.
pub proof fn law_config_get(c: ConfigView, pattern: Seq<u8>, s: Setting)
    ensures
        ({
            let r = found(c, pattern, SETTINGS as nat);
            let name = utf8::encode_utf8(name_of(s));
            &&& glob::matches(pattern, name) ==> exists|j: int|
                0 <= j && 2 * j + 1 < r.len() && #[trigger] shows(r, j, c, s)
            &&& forall|j: int|
                0 <= j < r.len() / 2 ==> #[trigger] shows_a_match(r, j, c, pattern)
            &&& r.len() % 2 == 0
            &&& r.len() <= 56
        }),
{
    lemma_place(s);
    lemma_found(c, pattern, SETTINGS as nat, place_of(s));
}

/// The pair at a place of what CONFIG GET shows is a setting with its value.
pub open spec fn shows(r: Seq<RespView>, j: int, c: ConfigView, s: Setting) -> bool {
    r[2 * j] == RespView::BulkString(Some(utf8::encode_utf8(name_of(s)))) && r[2 * j + 1]
        == RespView::BulkString(Some(utf8::encode_utf8(value_of(c, s))))
}

/// The pair at a place is a setting, with its value, whose name the pattern stands
/// for.
pub open spec fn shows_a_match(r: Seq<RespView>, j: int, c: ConfigView, pattern: Seq<u8>) -> bool {
    exists|t: Setting| #[trigger]
        shows(r, j, c, t) && glob::matches(pattern, utf8::encode_utf8(name_of(t)))
}

#[verifier::rlimit(60)]
proof fn lemma_found(c: ConfigView, pattern: Seq<u8>, n: nat, i: int)
    ensures
        ({
            let r = found(c, pattern, n);
            &&& r.len() % 2 == 0
            &&& r.len() <= 2 * n
            &&& 0 <= i < n && glob::matches(pattern, utf8::encode_utf8(name_of(setting_at(i))))
                ==> exists|j: int|
                0 <= j && 2 * j + 1 < r.len() && #[trigger] shows(r, j, c, setting_at(i))
            &&& forall|j: int|
                0 <= j < r.len() / 2 ==> #[trigger] shows_a_match(r, j, c, pattern)
        }),
    decreases n,
{
    if n > 0 {
        lemma_found(c, pattern, (n - 1) as nat, i);
        let before = found(c, pattern, (n - 1) as nat);
        let r = found(c, pattern, n);
        let s = setting_at(n - 1);
        let hit = glob::matches(pattern, utf8::encode_utf8(name_of(s)));
        if 0 <= i < n && glob::matches(pattern, utf8::encode_utf8(name_of(setting_at(i)))) {
            if i < n - 1 {
                let j = choose|j: int|
                    0 <= j && 2 * j + 1 < before.len() && #[trigger] shows(
                        before,
                        j,
                        c,
                        setting_at(i),
                    );
                assert(shows(r, j, c, setting_at(i)));
            } else {
                assert(shows(r, before.len() as int / 2, c, s));
            }
        }
        assert forall|j: int| 0 <= j < r.len() / 2 implies #[trigger] shows_a_match(
            r,
            j,
            c,
            pattern,
        ) by {
            if j < before.len() / 2 {
                assert(shows_a_match(before, j, c, pattern));
                let t = choose|t: Setting|
                    #[trigger] shows(before, j, c, t) && glob::matches(
                        pattern,
                        utf8::encode_utf8(name_of(t)),
                    );
                assert(shows(r, j, c, t));
            } else {
                assert(shows(r, j, c, s));
            }
        }
    }
}

proof fn lemma_named(name: Seq<u8>, i: int)
    requires
        0 <= i,
    ensures
        named_from(name, i) is Some ==> utf8::encode_utf8(name_of(named_from(name, i)->0)) == name,
        named_from(name, i) is None ==> forall|k: int|
            i <= k < 28 ==> utf8::encode_utf8(name_of(#[trigger] setting_at(k))) != name,
    decreases 28 - i,
{
    if i < 28 {
        lemma_named(name, i + 1);
    }
}

/// CONFIG SET of a name that no setting has is refused, and so is a value that the
/// setting cannot have, or one with which the configuration has a fault; nothing
/// changes then. Otherwise the setting with the name has the value, and all other
/// settings but the block cache, which is fitted to the machine, are as they were.
#[verifier::rlimit(60)]
pub proof fn law_config_set(
    c: ConfigView,
    name: Seq<u8>,
    v: Seq<u8>,
    total_mem: u64,
    other: Setting,
)
    ensures
        ({
            let (after, r) = set_result(c, name, v, total_mem);
            &&& r is Err ==> after == c
            &&& (forall|s: Setting| utf8::encode_utf8(#[trigger] name_of(s)) != name) ==> r == Err::<
                RespView,
                _,
            >(ErrorView::Command("unknown setting"@))
            &&& r is Ok ==> r == Ok::<_, ErrorView>(RespView::SimpleString("OK"@)) && exists|
                s: Setting,
            |
                {
                    &&& utf8::encode_utf8(#[trigger] name_of(s)) == name
                    &&& changed(c, s, v) is Some
                    &&& after == config::fitted(changed(c, s, v)->0, total_mem)
                    &&& config::fault_in(after, total_mem) is None
                    &&& other != s && other != Setting::BlockCacheSize ==> value_of(after, other)
                        == value_of(c, other)
                }
        }),
{
    let (after, r) = set_result(c, name, v, total_mem);
    lemma_named(name, 0);
    match named_from(name, 0) {
        Some(s) => {
            assert(utf8::encode_utf8(name_of(s)) == name);
            if r is Ok && other != s {
                law_config_set_changes_one(c, s, v, other);
                let new = changed(c, s, v)->0;
                assert(other != Setting::BlockCacheSize ==> value_of(
                    config::fitted(new, total_mem),
                    other,
                ) == value_of(new, other));
            }
        },
        None => {},
    }
}

} // verus!

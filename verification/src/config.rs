//! Configuration: its parts, what it must satisfy and how it is changed while
//! the server runs.

use crate::error::{ErrorView, KvdbError, KvdbResult};
use crate::text;
use vstd::prelude::*;
use vstd::string::*;
use vstd::utf8;

verus! {

/// 256 MiB, the block cache of a machine with little memory.
pub const LOW_MEM_BLOCK_CACHE: u64 = 268435456;

/// 512 MiB, the block cache otherwise.
pub const DEFAULT_BLOCK_CACHE: u64 = 536870912;

/// 8 GiB, below which a machine has little memory.
pub const LOW_MEM_THRESHOLD: u64 = 8589934592;

/// 64 MiB.
pub const DEFAULT_WRITE_BUFFER: u64 = 67108864;

/// How stored blocks are compressed.
#[derive(Debug, Clone, Copy, PartialEq, Eq, Structural)]
pub enum CompressionType {
    Uncompressed,
    Snappy,
    Lz4,
    Zstd,
}

impl Default for CompressionType {
    fn default() -> (c: CompressionType)
        ensures
            c == CompressionType::Lz4,
    {
        CompressionType::Lz4
    }
}

/// An optional text as contracts see it.
pub open spec fn opt_text(t: Option<String>) -> Option<Seq<char>> {
    match t {
        Some(s) => Some(s@),
        None => None,
    }
}

fn copy_text(t: &Option<String>) -> (r: Option<String>)
    ensures
        opt_text(r) == opt_text(*t),
{
    match t {
        Some(s) => Some(s.clone()),
        None => None,
    }
}

/// How the server listens.
#[derive(Debug)]
pub struct ServerConfig {
    pub bind: String,
    pub unix_socket: Option<String>,
    pub worker_threads: Option<usize>,
    pub maxclients: i64,
    pub tcp_keepalive: u64,
    pub timeout: u64,
    pub http_bind: String,
    /// The namespace of all keys; empty for the default one.
    pub namespace: String,
}

/// A server's configuration as contracts see it.
pub struct ServerConfigView {
    pub bind: Seq<char>,
    pub unix_socket: Option<Seq<char>>,
    pub worker_threads: Option<usize>,
    pub maxclients: i64,
    pub tcp_keepalive: u64,
    pub timeout: u64,
    pub http_bind: Seq<char>,
    pub namespace: Seq<char>,
}

impl View for ServerConfig {
    type V = ServerConfigView;

    open spec fn view(&self) -> ServerConfigView {
        ServerConfigView {
            bind: self.bind@,
            unix_socket: opt_text(self.unix_socket),
            worker_threads: self.worker_threads,
            maxclients: self.maxclients,
            tcp_keepalive: self.tcp_keepalive,
            timeout: self.timeout,
            http_bind: self.http_bind@,
            namespace: self.namespace@,
        }
    }
}

/// What a server's configuration is by default.
pub open spec fn default_server() -> ServerConfigView {
    ServerConfigView {
        bind: "127.0.0.1:6379"@,
        unix_socket: None,
        worker_threads: None,
        maxclients: 10000,
        tcp_keepalive: 300,
        timeout: 0,
        http_bind: "127.0.0.1:8080"@,
        namespace: Seq::empty(),
    }
}

impl Default for ServerConfig {
    fn default() -> (c: ServerConfig)
        ensures
            c@ == default_server(),
    {
        let c = ServerConfig {
            bind: "127.0.0.1:6379".to_owned(),
            unix_socket: None,
            worker_threads: None,
            maxclients: 10000,
            tcp_keepalive: 300,
            timeout: 0,
            http_bind: "127.0.0.1:8080".to_owned(),
            namespace: String::new(),
        };
        proof {
            assert(c@.namespace =~= Seq::<char>::empty());
        }
        c
    }
}

impl ServerConfig {
    /// A copy of the configuration.
    pub fn copy(&self) -> (c: ServerConfig)
        ensures
            c@ == self@,
    {
        ServerConfig {
            bind: self.bind.clone(),
            unix_socket: copy_text(&self.unix_socket),
            worker_threads: self.worker_threads,
            maxclients: self.maxclients,
            tcp_keepalive: self.tcp_keepalive,
            timeout: self.timeout,
            http_bind: self.http_bind.clone(),
            namespace: self.namespace.clone(),
        }
    }
}

/// How data is stored.
#[derive(Debug)]
pub struct StorageConfig {
    pub db_path: String,
    pub wal_dir: Option<String>,
    pub max_open_files: i32,
    pub write_buffer_size: u64,
    pub max_write_buffer_number: i32,
    pub min_write_buffer_number_to_merge: i32,
    pub target_file_size_base: u64,
    pub max_bytes_for_level_base: u64,
    pub level_compaction_dynamic_level_bytes: bool,
    pub compression_type: CompressionType,
    pub bottommost_compression_type: CompressionType,
    pub block_cache_size: u64,
    pub cache_index_and_filter_blocks: bool,
    pub wal_bytes_limit: u64,
    pub max_background_jobs: i32,
    pub max_subcompactions: u32,
    pub enable_pipelined_write: bool,
    pub use_fsync: bool,
}

/// A storage configuration as contracts see it.
pub struct StorageConfigView {
    pub db_path: Seq<char>,
    pub wal_dir: Option<Seq<char>>,
    pub max_open_files: i32,
    pub write_buffer_size: u64,
    pub max_write_buffer_number: i32,
    pub min_write_buffer_number_to_merge: i32,
    pub target_file_size_base: u64,
    pub max_bytes_for_level_base: u64,
    pub level_compaction_dynamic_level_bytes: bool,
    pub compression_type: CompressionType,
    pub bottommost_compression_type: CompressionType,
    pub block_cache_size: u64,
    pub cache_index_and_filter_blocks: bool,
    pub wal_bytes_limit: u64,
    pub max_background_jobs: i32,
    pub max_subcompactions: u32,
    pub enable_pipelined_write: bool,
    pub use_fsync: bool,
}

impl View for StorageConfig {
    type V = StorageConfigView;

    open spec fn view(&self) -> StorageConfigView {
        StorageConfigView {
            db_path: self.db_path@,
            wal_dir: opt_text(self.wal_dir),
            max_open_files: self.max_open_files,
            write_buffer_size: self.write_buffer_size,
            max_write_buffer_number: self.max_write_buffer_number,
            min_write_buffer_number_to_merge: self.min_write_buffer_number_to_merge,
            target_file_size_base: self.target_file_size_base,
            max_bytes_for_level_base: self.max_bytes_for_level_base,
            level_compaction_dynamic_level_bytes: self.level_compaction_dynamic_level_bytes,
            compression_type: self.compression_type,
            bottommost_compression_type: self.bottommost_compression_type,
            block_cache_size: self.block_cache_size,
            cache_index_and_filter_blocks: self.cache_index_and_filter_blocks,
            wal_bytes_limit: self.wal_bytes_limit,
            max_background_jobs: self.max_background_jobs,
            max_subcompactions: self.max_subcompactions,
            enable_pipelined_write: self.enable_pipelined_write,
            use_fsync: self.use_fsync,
        }
    }
}

/// What a storage configuration is by default.
pub open spec fn default_storage() -> StorageConfigView {
    StorageConfigView {
        db_path: "./data"@,
        wal_dir: None,
        max_open_files: -1i32,
        write_buffer_size: 67108864,
        max_write_buffer_number: 6,
        min_write_buffer_number_to_merge: 2,
        target_file_size_base: 67108864,
        max_bytes_for_level_base: 268435456,
        level_compaction_dynamic_level_bytes: true,
        compression_type: CompressionType::Lz4,
        bottommost_compression_type: CompressionType::Zstd,
        block_cache_size: 536870912,
        cache_index_and_filter_blocks: true,
        wal_bytes_limit: 67108864,
        max_background_jobs: 4,
        max_subcompactions: 2,
        enable_pipelined_write: true,
        use_fsync: false,
    }
}

impl Default for StorageConfig {
    fn default() -> (c: StorageConfig)
        ensures
            c@ == default_storage(),
    {
        StorageConfig {
            db_path: "./data".to_owned(),
            wal_dir: None,
            max_open_files: -1,
            write_buffer_size: DEFAULT_WRITE_BUFFER,
            max_write_buffer_number: 6,
            min_write_buffer_number_to_merge: 2,
            target_file_size_base: DEFAULT_WRITE_BUFFER,
            max_bytes_for_level_base: LOW_MEM_BLOCK_CACHE,
            level_compaction_dynamic_level_bytes: true,
            compression_type: CompressionType::Lz4,
            bottommost_compression_type: CompressionType::Zstd,
            block_cache_size: DEFAULT_BLOCK_CACHE,
            cache_index_and_filter_blocks: true,
            wal_bytes_limit: DEFAULT_WRITE_BUFFER,
            max_background_jobs: 4,
            max_subcompactions: 2,
            enable_pipelined_write: true,
            use_fsync: false,
        }
    }
}

impl StorageConfig {
    /// A copy of the configuration.
    pub fn copy(&self) -> (c: StorageConfig)
        ensures
            c@ == self@,
    {
        StorageConfig {
            db_path: self.db_path.clone(),
            wal_dir: copy_text(&self.wal_dir),
            max_open_files: self.max_open_files,
            write_buffer_size: self.write_buffer_size,
            max_write_buffer_number: self.max_write_buffer_number,
            min_write_buffer_number_to_merge: self.min_write_buffer_number_to_merge,
            target_file_size_base: self.target_file_size_base,
            max_bytes_for_level_base: self.max_bytes_for_level_base,
            level_compaction_dynamic_level_bytes: self.level_compaction_dynamic_level_bytes,
            compression_type: self.compression_type,
            bottommost_compression_type: self.bottommost_compression_type,
            block_cache_size: self.block_cache_size,
            cache_index_and_filter_blocks: self.cache_index_and_filter_blocks,
            wal_bytes_limit: self.wal_bytes_limit,
            max_background_jobs: self.max_background_jobs,
            max_subcompactions: self.max_subcompactions,
            enable_pipelined_write: self.enable_pipelined_write,
            use_fsync: self.use_fsync,
        }
    }
}

/// The configuration.
#[derive(Debug)]
pub struct Config {
    pub server: ServerConfig,
    pub storage: StorageConfig,
    pub log_level: String,
    pub dynamic_config: bool,
    /// The path of the file that the configuration was read from.
    pub config_file: Option<String>,
}

/// A configuration as contracts see it.
pub struct ConfigView {
    pub server: ServerConfigView,
    pub storage: StorageConfigView,
    pub log_level: Seq<char>,
    pub dynamic_config: bool,
    pub config_file: Option<Seq<char>>,
}

impl View for Config {
    type V = ConfigView;

    open spec fn view(&self) -> ConfigView {
        ConfigView {
            server: self.server@,
            storage: self.storage@,
            log_level: self.log_level@,
            dynamic_config: self.dynamic_config,
            config_file: opt_text(self.config_file),
        }
    }
}

/// What a configuration is by default.
pub open spec fn default_config() -> ConfigView {
    ConfigView {
        server: default_server(),
        storage: default_storage(),
        log_level: "info"@,
        dynamic_config: true,
        config_file: None,
    }
}

impl Default for Config {
    fn default() -> (c: Config)
        ensures
            c@ == default_config(),
    {
        Config {
            server: ServerConfig::default(),
            storage: StorageConfig::default(),
            log_level: "info".to_owned(),
            dynamic_config: true,
            config_file: None,
        }
    }
}

/// The memory that a configuration lets the store use.
pub open spec fn memory_budget(c: StorageConfigView) -> int {
    c.block_cache_size + c.write_buffer_size * c.max_write_buffer_number
}

/// What is wrong with a configuration on a machine with so many bytes of
/// memory.
pub open spec fn fault_in(c: ConfigView, total_mem: u64) -> Option<ErrorView> {
    if c.storage.write_buffer_size == 0 {
        Some(ErrorView::Config("write_buffer_size must be > 0"@))
    } else if c.storage.max_write_buffer_number <= 0 {
        Some(ErrorView::Config("max_write_buffer_number must be > 0"@))
    } else if memory_budget(c.storage) > total_mem / 2 {
        Some(
            ErrorView::Config(
                "memory budget "@ + text::chars_of(text::dec(memory_budget(c.storage) as nat))
                    + " exceeds 50% of physical memory "@ + text::chars_of(
                    text::dec(total_mem as nat),
                ),
            ),
        )
    } else if c.server.maxclients <= 0 {
        Some(ErrorView::Config("maxclients must be > 0"@))
    } else if utf8::encode_utf8(c.server.namespace).len() > 255 {
        Some(ErrorView::Config("namespace must be at most 255 bytes"@))
    } else {
        None
    }
}

/// A configuration fitted to a machine with so many bytes of memory: one with
/// little memory gets a smaller block cache.
pub open spec fn fitted(c: ConfigView, total_mem: u64) -> ConfigView {
    if total_mem < LOW_MEM_THRESHOLD && c.storage.block_cache_size > LOW_MEM_BLOCK_CACHE {
        ConfigView {
            storage: StorageConfigView { block_cache_size: LOW_MEM_BLOCK_CACHE, ..c.storage },
            ..c
        }
    } else {
        c
    }
}

/// A machine's figures, from `sysinfo`.
#[verifier::external_type_specification]
#[verifier::external_body]
pub struct ExSystem(sysinfo::System);

/// Gathers a machine's figures with `sysinfo::System::new_all`. Nothing is
/// stated of them.
#[verifier::external_body]
fn machine() -> (s: sysinfo::System) {
    sysinfo::System::new_all()
}

/// Reads the memory figures again with `sysinfo::System::refresh_memory`.
/// Nothing is stated of them.
#[verifier::external_body]
fn refresh(s: &mut sysinfo::System) {
    s.refresh_memory();
}

/// The bytes of memory, by `sysinfo::System::total_memory`. Nothing is stated
/// of their number.
#[verifier::external_body]
fn memory_of(s: &sysinfo::System) -> (bytes: u64) {
    s.total_memory()
}

/// The bytes of memory that this machine has.
pub(crate) fn total_memory() -> (bytes: u64) {
    let mut s = machine();
    refresh(&mut s);
    memory_of(&s)
}

impl Config {
    /// A copy of the configuration.
    pub fn copy(&self) -> (c: Config)
        ensures
            c@ == self@,
    {
        Config {
            server: self.server.copy(),
            storage: self.storage.copy(),
            log_level: self.log_level.clone(),
            dynamic_config: self.dynamic_config,
            config_file: copy_text(&self.config_file),
        }
    }

    /// Takes all settings over but the path of the file.
    pub fn merge(&mut self, other: Config)
        ensures
            final(self)@ == (ConfigView { config_file: old(self)@.config_file, ..other@ }),
    {
        self.server = other.server;
        self.storage = other.storage;
        self.log_level = other.log_level;
        self.dynamic_config = other.dynamic_config;
    }

    /// Checks the configuration for a machine with so many bytes of memory.
    pub fn validate_within(&self, total_mem: u64) -> (r: KvdbResult<()>)
        ensures
            match r {
                Ok(_) => fault_in(self@, total_mem) is None,
                Err(e) => fault_in(self@, total_mem) == Some(e@),
            },
    {
        if self.storage.write_buffer_size == 0 {
            return Err(KvdbError::Config("write_buffer_size must be > 0".to_owned()));
        }
        if self.storage.max_write_buffer_number <= 0 {
            return Err(KvdbError::Config("max_write_buffer_number must be > 0".to_owned()));
        }
        let size: u128 = self.storage.write_buffer_size as u128;
        let number: u128 = self.storage.max_write_buffer_number as u128;
        proof {
            let (a, b) = (self.storage.write_buffer_size, self.storage.max_write_buffer_number);
            assert(0 <= a * b <= 0xFFFF_FFFF_FFFF_FFFF * 0x7FFF_FFFF) by (nonlinear_arith)
                requires
                    0 <= a <= 0xFFFF_FFFF_FFFF_FFFF,
                    0 < b <= 0x7FFF_FFFF,
            ;
        }
        let buffers: u128 = size * number;
        let budget: u128 = self.storage.block_cache_size as u128 + buffers;
        if budget > (total_mem / 2) as u128 {
            let mut message = "memory budget ".to_owned();
            text::append_wide(&mut message, budget);
            message.append(" exceeds 50% of physical memory ");
            text::append_dec(&mut message, total_mem);
            return Err(KvdbError::Config(message));
        }
        if self.server.maxclients <= 0 {
            return Err(KvdbError::Config("maxclients must be > 0".to_owned()));
        }
        if text::bytes_of(self.server.namespace.as_str()).len() > 255 {
            return Err(KvdbError::Config("namespace must be at most 255 bytes".to_owned()));
        }
        Ok(())
    }

    /// Checks the configuration for this machine.
    pub fn validate(&self) -> (r: KvdbResult<()>)
        ensures
            exists|total_mem: u64|
                match r {
                    Ok(_) => #[trigger] fault_in(self@, total_mem) is None,
                    Err(e) => fault_in(self@, total_mem) == Some(e@),
                },
    {
        let total_mem: u64 = total_memory();
        self.validate_within(total_mem)
    }

    /// Fits the configuration to a machine with so many bytes of memory.
    pub fn adjust_to(&mut self, total_mem: u64)
        ensures
            final(self)@ == fitted(old(self)@, total_mem),
    {
        if total_mem < LOW_MEM_THRESHOLD && self.storage.block_cache_size > LOW_MEM_BLOCK_CACHE {
            self.storage.block_cache_size = LOW_MEM_BLOCK_CACHE;
        }
    }

    /// Fits the configuration to this machine.
    pub fn adjust_for_memory(&mut self)
        ensures
            exists|total_mem: u64| final(self)@ == #[trigger] fitted(old(self)@, total_mem),
    {
        let total_mem: u64 = total_memory();
        self.adjust_to(total_mem);
    }
}

/// The configuration that the defaults and a file make up together, before it
/// is fitted to the machine.
pub open spec fn layered(file: Option<(Seq<char>, ConfigView)>) -> ConfigView {
    match file {
        None => default_config(),
        Some((path, c)) => ConfigView { config_file: Some(path), ..c },
    }
}

/// A file's path and settings as contracts see them.
pub open spec fn file_view(file: Option<(String, Config)>) -> Option<(Seq<char>, ConfigView)> {
    match file {
        Some((path, c)) => Some((path@, c@)),
        None => None,
    }
}

/// The configuration that is in force.
pub struct ConfigManager {
    current: Config,
}

impl View for ConfigManager {
    type V = ConfigView;

    closed spec fn view(&self) -> ConfigView {
        self.current@
    }
}

impl ConfigManager {
    /// Puts a configuration in force.
    pub fn new(config: Config) -> (m: ConfigManager)
        ensures
            m@ == config@,
    {
        ConfigManager { current: config }
    }

    /// Puts the defaults, under the settings of a file with its path, in force
    /// on a machine with so many bytes of memory.
    pub fn load_within(file: Option<(String, Config)>, total_mem: u64) -> (r: KvdbResult<
        ConfigManager,
    >)
        ensures
            ({
                let c = fitted(layered(file_view(file)), total_mem);
                match r {
                    Ok(m) => fault_in(c, total_mem) is None && m@ == c,
                    Err(e) => fault_in(c, total_mem) == Some(e@),
                }
            }),
    {
        let mut config = Config::default();
        match file {
            Some((path, c)) => {
                config.config_file = Some(path);
                config.merge(c);
            },
            None => {},
        }
        config.adjust_to(total_mem);
        match config.validate_within(total_mem) {
            Ok(_) => Ok(ConfigManager::new(config)),
            Err(e) => Err(e),
        }
    }

    /// Puts the defaults, under the settings of a file with its path, in force
    /// on this machine.
    pub fn load(file: Option<(String, Config)>) -> (r: KvdbResult<ConfigManager>)
        ensures
            exists|total_mem: u64| #[trigger]
                loaded(file_view(file), total_mem) == manager_view(r),
    {
        let total_mem: u64 = total_memory();
        let ghost layers = file_view(file);
        let r = ConfigManager::load_within(file, total_mem);
        proof {
            assert(loaded(layers, total_mem) == manager_view(r));
        }
        r
    }

    /// The configuration in force.
    pub fn get(&self) -> (c: Config)
        ensures
            c@ == self@,
    {
        self.current.copy()
    }

    /// Puts another configuration in force on a machine with so many bytes of
    /// memory. One that is not valid changes nothing.
    pub fn update_within(&mut self, config: Config, total_mem: u64) -> (r: KvdbResult<()>)
        ensures
            ({
                let c = fitted(config@, total_mem);
                match r {
                    Ok(_) => fault_in(c, total_mem) is None && final(self)@ == c,
                    Err(e) => fault_in(c, total_mem) == Some(e@) && final(self)@ == old(self)@,
                }
            }),
    {
        let mut config = config;
        config.adjust_to(total_mem);
        match config.validate_within(total_mem) {
            Ok(_) => {
                self.current = config;
                Ok(())
            },
            Err(e) => Err(e),
        }
    }

    /// Puts another configuration in force on this machine. One that is not
    /// valid changes nothing.
    pub fn update(&mut self, config: Config) -> (r: KvdbResult<()>)
        ensures
            exists|total_mem: u64|
                {
                    let c = #[trigger] fitted(config@, total_mem);
                    match r {
                        Ok(_) => fault_in(c, total_mem) is None && final(self)@ == c,
                        Err(e) => fault_in(c, total_mem) == Some(e@) && final(self)@ == old(
                            self,
                        )@,
                    }
                },
    {
        let total_mem: u64 = total_memory();
        self.update_within(config, total_mem)
    }
}

/// The result of loading as contracts see it.
pub open spec fn manager_view(r: KvdbResult<ConfigManager>) -> Result<ConfigView, ErrorView> {
    match r {
        Ok(m) => Ok(m@),
        Err(e) => Err(e@),
    }
}

/// What loading gives on a machine with so many bytes of memory.
pub open spec fn loaded(file: Option<(Seq<char>, ConfigView)>, total_mem: u64) -> Result<
    ConfigView,
    ErrorView,
> {
    let c = fitted(layered(file), total_mem);
    match fault_in(c, total_mem) {
        None => Ok(c),
        Some(e) => Err(e),
    }
}

/// A fitted configuration never asks for more block cache than the one it was
/// made from, and fitting it again changes nothing.
pub proof fn law_fitting_settles(c: ConfigView, total_mem: u64)
    ensures
        fitted(c, total_mem).storage.block_cache_size <= c.storage.block_cache_size,
        fitted(fitted(c, total_mem), total_mem) == fitted(c, total_mem),
{
}

/// A configuration without a fault keeps the memory budget within half of the
/// memory, and its namespace can be written into keys.
pub proof fn law_valid_config(c: ConfigView, total_mem: u64)
    requires
        fault_in(c, total_mem) is None,
    ensures
        2 * memory_budget(c.storage) <= total_mem,
        utf8::encode_utf8(c.server.namespace).len() <= 255,
        c.server.maxclients > 0,
{
}

/// A configuration has no fault exactly if its write buffers have a size and a
/// number, its block cache and its write buffers take at most half of the memory,
/// it lets clients in, and its namespace has at most 255 bytes. A fault is told as
/// one of the configuration.
pub proof fn law_faults(c: ConfigView, total_mem: u64)
    ensures
        fault_in(c, total_mem) is None <==> {
            &&& c.storage.write_buffer_size > 0
            &&& c.storage.max_write_buffer_number > 0
            &&& 2 * (c.storage.block_cache_size + c.storage.write_buffer_size
                * c.storage.max_write_buffer_number) <= total_mem
            &&& c.server.maxclients > 0
            &&& utf8::encode_utf8(c.server.namespace).len() <= 255
        },
        fault_in(c, total_mem) is Some ==> fault_in(c, total_mem)->0 is Config,
{
}

/// Fitting to a machine with at least 8 GiB of memory changes nothing. On one with
/// less a block cache of more than 256 MiB becomes one of 256 MiB, and all other
/// settings stay.
pub proof fn law_fitting(c: ConfigView, total_mem: u64)
    ensures
        ({
            let f = fitted(c, total_mem);
            &&& total_mem >= 8 * 1024 * 1024 * 1024 ==> f == c
            &&& c.storage.block_cache_size <= 256 * 1024 * 1024 ==> f == c
            &&& total_mem < 8 * 1024 * 1024 * 1024 && c.storage.block_cache_size > 256 * 1024 * 1024
                ==> f.storage.block_cache_size == 256 * 1024 * 1024
            &&& f == (ConfigView {
                storage: StorageConfigView {
                    block_cache_size: f.storage.block_cache_size,
                    ..c.storage
                },
                ..c
            })
        }),
{
}

/// Without a file the defaults are loaded, and with one its settings and its path;
/// either way fitted to the machine, and refused where they have a fault there.
pub proof fn law_loading(path: Seq<char>, c: ConfigView, total_mem: u64)
    ensures
        ({
            let plain = loaded(None, total_mem);
            let named = loaded(Some((path, c)), total_mem);
            let file = ConfigView { config_file: Some(path), ..c };
            &&& plain is Ok <==> fault_in(fitted(default_config(), total_mem), total_mem) is None
            &&& plain is Ok ==> plain == Ok::<_, ErrorView>(fitted(default_config(), total_mem))
            &&& named is Ok <==> fault_in(fitted(file, total_mem), total_mem) is None
            &&& named is Ok ==> named == Ok::<_, ErrorView>(fitted(file, total_mem))
            &&& named is Err ==> Some(named->Err_0) == fault_in(fitted(file, total_mem), total_mem)
        }),
{
}

} // verus!

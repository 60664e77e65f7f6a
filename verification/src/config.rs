//! The sections of the configuration file and their defaults.

use vstd::prelude::*;
use crate::addon::{BackgroundServiceAddonConfig, BackupAddonConfig, DatabaseAddonConfig};

verus! {

pub fn default_bind_address() -> (address: String)
    ensures
        address@ == "127.0.0.1:2005"@,
{
    "127.0.0.1:2005".to_string()
}

pub fn default_max_connections() -> (n: usize)
    ensures
        n == 1000,
{
    1000
}

/// The connection timeout in seconds.
pub fn default_timeout() -> (seconds: u64)
    ensures
        seconds == 300,
{
    300
}

/// The commands that a client may send per second.
pub fn default_rate_limit() -> (n: u32)
    ensures
        n == 1000,
{
    1000
}

pub fn default_log_level() -> (level: String)
    ensures
        level@ == "info"@,
{
    "info".to_string()
}

pub fn default_bool_true() -> (flag: bool)
    ensures
        flag,
{
    true
}

/// The interval between two metrics reports in seconds.
pub fn default_metrics_interval() -> (seconds: u64)
    ensures
        seconds == 60,
{
    60
}

pub fn default_audit_log_path() -> (path: String)
    ensures
        path@ == "./velocitydb_audit.log"@,
{
    "./velocitydb_audit.log".to_string()
}

/// How long a client is banned after too many failed logins, in seconds.
pub fn default_ban_duration() -> (seconds: u64)
    ensures
        seconds == 300,
{
    300
}

/// The failed logins after which a client is banned.
pub fn default_auth_failures() -> (n: u32)
    ensures
        n == 5,
{
    5
}

/// The memtable entries at which a flush is due.
pub fn default_memtable() -> (n: usize)
    ensures
        n == 10000,
{
    10000
}

/// The slots of the cache.
pub fn default_cache() -> (n: usize)
    ensures
        n == 5000,
{
    5000
}

/// The sorted runs at which a flush calls for compaction.
pub fn default_compaction() -> (n: usize)
    ensures
        n == 8,
{
    8
}

#[derive(Debug, Clone)]
pub struct ServerConfigSection {
    pub bind_address: String,
    pub max_connections: usize,
    pub connection_timeout_seconds: u64,
    pub rate_limit_per_second: u32,
    pub enable_tls: bool,
}

impl Default for ServerConfigSection {
    fn default() -> (section: Self)
        ensures
            section.bind_address@ == "127.0.0.1:2005"@,
            section.max_connections == 1000,
            section.connection_timeout_seconds == 300,
            section.rate_limit_per_second == 1000,
            !section.enable_tls,
    {
        ServerConfigSection {
            bind_address: default_bind_address(),
            max_connections: default_max_connections(),
            connection_timeout_seconds: default_timeout(),
            rate_limit_per_second: default_rate_limit(),
            enable_tls: false,
        }
    }
}

#[derive(Debug, Clone)]
pub struct LoggingSection {
    pub level: String,
}

impl Default for LoggingSection {
    fn default() -> (section: Self)
        ensures
            section.level@ == "info"@,
    {
        LoggingSection { level: default_log_level() }
    }
}

#[derive(Debug, Clone)]
pub struct SecuritySection {
    pub audit_log_path: String,
    pub audit_logging: bool,
    pub auth_ban_duration: u64,
    pub max_auth_failures: u32,
}

impl Default for SecuritySection {
    fn default() -> (section: Self)
        ensures
            section.audit_log_path@ == "./velocitydb_audit.log"@,
            section.audit_logging,
            section.auth_ban_duration == 300,
            section.max_auth_failures == 5,
    {
        SecuritySection {
            audit_log_path: default_audit_log_path(),
            audit_logging: true,
            auth_ban_duration: default_ban_duration(),
            max_auth_failures: default_auth_failures(),
        }
    }
}

#[derive(Debug, Clone)]
pub struct AddonsSection {
    pub database: Option<DatabaseAddonConfig>,
    pub backup: Option<BackupAddonConfig>,
    pub background_service: Option<BackgroundServiceAddonConfig>,
}

impl Default for AddonsSection {
    fn default() -> (section: Self)
        ensures
            section.database is None,
            section.backup is None,
            section.background_service is Some,
            !section.background_service->Some_0.enabled,
    {
        AddonsSection {
            database: None,
            backup: None,
            background_service: Some(BackgroundServiceAddonConfig::default()),
        }
    }
}

} // verus!

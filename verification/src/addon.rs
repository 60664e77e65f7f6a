//! The options of the add-ons that stand beside the engine.

use vstd::prelude::*;

verus! {

/// The add-on that serves further databases beside the default one.
#[derive(Debug, Clone)]
pub struct DatabaseAddonConfig {
    pub enabled: bool,
    /// The directory under which a database is created if no path is given.
    pub default_path: String,
    /// The databases by name, each with its directory.
    pub databases: Vec<(String, String)>,
}

impl Default for DatabaseAddonConfig {
    fn default() -> (config: Self)
        ensures
            config.enabled,
            config.default_path@ == "./externals_dbs"@,
            config.databases@.len() == 0,
    {
        DatabaseAddonConfig {
            enabled: true,
            default_path: "./externals_dbs".to_string(),
            databases: Vec::new(),
        }
    }
}

/// The add-on that copies databases to a backup directory.
#[derive(Debug, Clone)]
pub struct BackupAddonConfig {
    pub enabled: bool,
    pub backup_path: String,
    pub interval_minutes: u64,
    /// Whether every database is backed up, or `target_databases` only.
    pub backup_all: bool,
    pub target_databases: Vec<String>,
}

impl Default for BackupAddonConfig {
    fn default() -> (config: Self)
        ensures
            !config.enabled,
            config.backup_path@ == "./backups"@,
            config.interval_minutes == 60,
            config.backup_all,
            config.target_databases@.len() == 0,
    {
        BackupAddonConfig {
            enabled: false,
            backup_path: "./backups".to_string(),
            interval_minutes: 60,
            backup_all: true,
            target_databases: Vec::new(),
        }
    }
}

/// The add-on that runs the server as a background service.
#[derive(Debug, Clone)]
pub struct BackgroundServiceAddonConfig {
    pub enabled: bool,
    pub pid_file: String,
    /// Whether the service reloads when the configuration file changes.
    pub watch_config: bool,
}

impl Default for BackgroundServiceAddonConfig {
    fn default() -> (config: Self)
        ensures
            !config.enabled,
            config.pid_file@ == "./velocity.pid"@,
            config.watch_config,
    {
        BackgroundServiceAddonConfig {
            enabled: false,
            pid_file: "./velocity.pid".to_string(),
            watch_config: true,
        }
    }
}

/// The add-ons that can be switched on and off.
#[derive(Debug, Clone, Copy, PartialEq, Eq, Structural)]
pub enum AddonKind {
    Database,
    Backup,
}

impl AddonKind {
    /// The name of the add-on in the configuration file.
    pub fn as_str(&self) -> (name: &'static str)
        ensures
            name@ == match self {
                AddonKind::Database => "database"@,
                AddonKind::Backup => "backup"@,
            },
    {
        match self {
            AddonKind::Database => "database",
            AddonKind::Backup => "backup",
        }
    }
}

} // verus!

//! The preferences that the search and its display read.

use vstd::prelude::*;

verus! {

/// All preferences.
#[derive(Debug, Clone)]
pub struct YamlConfiguration {
    pub logs_configurations: LogsConfigurations,
    pub interface_configurations: UIConfigurations,
    pub general: GeneralConfigs,
}

/// Where log lines go.
#[derive(Debug, Clone)]
pub struct LogsConfigurations {
    pub write_to_stdout: bool,
    pub write_to_file: bool,
}

/// How the interface looks.
#[derive(Debug, Clone)]
pub struct UIConfigurations {
    pub enable_adw: bool,
    pub color_scheme: String,
}

/// How the search behaves.
#[derive(Debug, Clone)]
pub struct GeneralConfigs {
    /// Whether a file whose metadata cannot be read ends the listing quietly
    /// instead of failing it.
    pub skip_metadata_errors: bool,
}

impl Default for LogsConfigurations {
    /// Log lines go to a file and not to the terminal.
    fn default() -> (logs: LogsConfigurations)
        ensures
            !logs.write_to_stdout,
            logs.write_to_file,
    {
        LogsConfigurations { write_to_stdout: false, write_to_file: true }
    }
}

impl Default for UIConfigurations {
    /// The dark scheme, with the adaptive style enabled.
    fn default() -> (ui: UIConfigurations)
        ensures
            ui.enable_adw,
            ui.color_scheme@ == "dark"@,
    {
        UIConfigurations { enable_adw: true, color_scheme: "dark".to_owned() }
    }
}

impl Default for GeneralConfigs {
    /// A file whose metadata cannot be read fails the listing.
    fn default() -> (general: GeneralConfigs)
        ensures
            !general.skip_metadata_errors,
    {
        GeneralConfigs { skip_metadata_errors: false }
    }
}

impl Default for YamlConfiguration {
    /// The preferences of a first start.
    fn default() -> (configs: YamlConfiguration)
        ensures
            !configs.logs_configurations.write_to_stdout,
            configs.logs_configurations.write_to_file,
            configs.interface_configurations.enable_adw,
            configs.interface_configurations.color_scheme@ == "dark"@,
            !configs.general.skip_metadata_errors,
    {
        YamlConfiguration {
            logs_configurations: LogsConfigurations::default(),
            interface_configurations: UIConfigurations::default(),
            general: GeneralConfigs::default(),
        }
    }
}

} // verus!

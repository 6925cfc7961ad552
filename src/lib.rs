//! Declarative shell environments: catalog loading, reuse resolution,
//! variable ordering and rendering for cmd and PowerShell.
pub mod catalog;
pub mod colorize;
pub mod config;
pub mod context;
pub mod environment;
pub mod init;
pub mod pattern;
pub mod resolve;
pub mod settings;
pub mod shell;
pub mod text;
pub mod vars;

pub use colorize::Colorize;
pub use config::{Config, UseError};
pub use context::{Context, OperatingSystem, Shell};
pub use environment::{CommonProperties, Environment, Pattern};
pub use settings::{Settings, SettingsKey};
pub use shell::{CmdPrinter, Command, DebugPrinter, PowershellPrinter, ShellPrinter};

//! System settings applied during bootstrap: clock, temporary files,
//! symbolic links, network, security modules and shutdown.
use vstd::prelude::*;

verus! {

/// The default of switches that are on unless the configuration says
/// otherwise.
pub fn default_true() -> (b: bool)
    ensures
        b,
{
    true
}

/// Whether to set the system clock from the hardware clock.
#[derive(Clone, Copy, Debug, PartialEq, Eq, Structural)]
pub struct ClockConfig {
    pub rtc_sync: bool,
}

impl Default for ClockConfig {
    fn default() -> (c: Self)
        ensures
            !c.rtc_sync,
    {
        ClockConfig { rtc_sync: false }
    }
}

/// A temporary file or directory to create.
#[derive(Clone, Debug, PartialEq, Eq)]
pub struct TmpfileConfig {
    pub path: String,
    pub mode: String,
    /// The kind of entry (`type` in the configuration file).
    pub kind: String,
}

/// A symbolic link to create: `target` pointing at `source`.
#[derive(Clone, Debug, PartialEq, Eq)]
pub struct SymlinkConfig {
    pub source: String,
    pub target: String,
}

/// How network addresses are obtained.
#[derive(Clone, Copy, Debug, PartialEq, Eq, Structural)]
pub enum NetworkMode {
    Dhcp,
    Static,
}

impl Default for NetworkMode {
    fn default() -> (m: Self)
        ensures
            m == NetworkMode::Dhcp,
    {
        NetworkMode::Dhcp
    }
}

/// The settings of one network interface.
#[derive(Clone, Debug, PartialEq, Eq)]
pub struct InterfaceConfig {
    pub name: String,
    pub address: Option<String>,
    pub netmask: Option<String>,
    pub gateway: Option<String>,
}

/// The network configuration.
#[derive(Clone, Debug, PartialEq, Eq)]
pub struct NetworkConfig {
    pub mode: NetworkMode,
    pub interfaces: Vec<InterfaceConfig>,
}

/// SELinux settings.
#[derive(Clone, Debug, PartialEq, Eq)]
pub struct SelinuxConfig {
    pub enabled: bool,
    pub policy: Option<String>,
}

/// AppArmor settings.
#[derive(Clone, Debug, PartialEq, Eq)]
pub struct ApparmorConfig {
    pub enabled: bool,
    pub profile: Option<String>,
}

/// Security module settings.
#[derive(Clone, Debug, PartialEq, Eq)]
pub struct SecurityConfig {
    pub selinux: Option<SelinuxConfig>,
    pub apparmor: Option<ApparmorConfig>,
}

/// How the system shuts down.
#[derive(Clone, Copy, Debug, PartialEq, Eq, Structural)]
pub struct ShutdownConfig {
    pub timeout_secs: u64,
    pub sync: bool,
    pub umount_all: bool,
}

impl Default for ShutdownConfig {
    fn default() -> (c: Self)
        ensures
            c.timeout_secs == 0 && !c.sync && !c.umount_all,
    {
        ShutdownConfig { timeout_secs: 0, sync: false, umount_all: false }
    }
}

/// The root file system to switch to.
#[derive(Clone, Debug, PartialEq, Eq)]
pub enum RootConfig {
    Virtiofs { tag: String, overlay: Option<bool>, options: Option<String> },
    Block { device: String, fstype: String, overlay: Option<bool>, options: Option<String> },
    NineP { tag: String, fstype: Option<String>, overlay: Option<bool>, options: Option<String> },
}

impl RootConfig {
    /// Whether the root file system gets a writable overlay: only when the
    /// configuration asks for one.
    pub fn overlay(&self) -> (b: bool)
        ensures
            b == match *self {
                RootConfig::Virtiofs { overlay, .. } => overlay == Some(true),
                RootConfig::Block { overlay, .. } => overlay == Some(true),
                RootConfig::NineP { overlay, .. } => overlay == Some(true),
            },
    {
        let overlay = match self {
            RootConfig::Virtiofs { overlay, .. } => overlay,
            RootConfig::Block { overlay, .. } => overlay,
            RootConfig::NineP { overlay, .. } => overlay,
        };
        match overlay {
            Some(b) => *b,
            None => false,
        }
    }
}

} // verus!

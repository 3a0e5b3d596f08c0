//! Mounts: what the configuration says, and the mount it asks for.
use vstd::prelude::*;

verus! {

/// How access times are recorded on a mounted file system.
#[derive(Clone, Copy, Debug, PartialEq, Eq, Structural)]
pub enum AtimeMode {
    /// The kernel's choice.
    Default,
    NoAtime,
    RelAtime,
    StrictAtime,
    LazyTime,
}

impl Default for AtimeMode {
    fn default() -> (a: Self)
        ensures
            a == AtimeMode::Default,
    {
        AtimeMode::Default
    }
}

/// What happens when a mount fails.
#[derive(Clone, Copy, Debug, PartialEq, Eq, Structural)]
pub enum MountFailurePolicy {
    Warn,
    Abort,
    Retry,
}

impl Default for MountFailurePolicy {
    fn default() -> (p: Self)
        ensures
            p == MountFailurePolicy::Warn,
    {
        MountFailurePolicy::Warn
    }
}

/// nix's `MsFlags::MS_RDONLY` (libc: 0x01).
#[verifier::external_body]
fn ms_rdonly() -> (b: u64)
    ensures
        b == 0x01,
{
    nix::mount::MsFlags::MS_RDONLY.bits() as u64
}

/// nix's `MsFlags::MS_NOSUID` (libc: 0x02).
#[verifier::external_body]
fn ms_nosuid() -> (b: u64)
    ensures
        b == 0x02,
{
    nix::mount::MsFlags::MS_NOSUID.bits() as u64
}

/// nix's `MsFlags::MS_NODEV` (libc: 0x04).
#[verifier::external_body]
fn ms_nodev() -> (b: u64)
    ensures
        b == 0x04,
{
    nix::mount::MsFlags::MS_NODEV.bits() as u64
}

/// nix's `MsFlags::MS_NOEXEC` (libc: 0x08).
#[verifier::external_body]
fn ms_noexec() -> (b: u64)
    ensures
        b == 0x08,
{
    nix::mount::MsFlags::MS_NOEXEC.bits() as u64
}

/// nix's `MsFlags::MS_SYNCHRONOUS` (libc: 0x10).
#[verifier::external_body]
fn ms_synchronous() -> (b: u64)
    ensures
        b == 0x10,
{
    nix::mount::MsFlags::MS_SYNCHRONOUS.bits() as u64
}

/// nix's `MsFlags::MS_MANDLOCK` (libc: 0x40).
#[verifier::external_body]
fn ms_mandlock() -> (b: u64)
    ensures
        b == 0x40,
{
    nix::mount::MsFlags::MS_MANDLOCK.bits() as u64
}

/// nix's `MsFlags::MS_DIRSYNC` (libc: 0x80).
#[verifier::external_body]
fn ms_dirsync() -> (b: u64)
    ensures
        b == 0x80,
{
    nix::mount::MsFlags::MS_DIRSYNC.bits() as u64
}

/// nix's `MsFlags::MS_NOATIME` (libc: 0x0400).
#[verifier::external_body]
fn ms_noatime() -> (b: u64)
    ensures
        b == 0x0400,
{
    nix::mount::MsFlags::MS_NOATIME.bits() as u64
}

/// nix's `MsFlags::MS_POSIXACL` (libc: 0x010000).
#[verifier::external_body]
fn ms_posixacl() -> (b: u64)
    ensures
        b == 0x010000,
{
    nix::mount::MsFlags::MS_POSIXACL.bits() as u64
}

/// nix's `MsFlags::MS_RELATIME` (libc: 0x200000).
#[verifier::external_body]
fn ms_relatime() -> (b: u64)
    ensures
        b == 0x200000,
{
    nix::mount::MsFlags::MS_RELATIME.bits() as u64
}

/// nix's `MsFlags::MS_STRICTATIME` (libc: 0x1000000).
#[verifier::external_body]
fn ms_strictatime() -> (b: u64)
    ensures
        b == 0x1000000,
{
    nix::mount::MsFlags::MS_STRICTATIME.bits() as u64
}

/// nix's `MsFlags::MS_LAZYTIME` (libc: 0x2000000).
#[verifier::external_body]
fn ms_lazytime() -> (b: u64)
    ensures
        b == 0x2000000,
{
    nix::mount::MsFlags::MS_LAZYTIME.bits() as u64
}

/// The mount options given as switches.
#[derive(Clone, Copy, Debug, PartialEq, Eq, Structural)]
pub struct MountFlags {
    pub read_only: bool,
    pub no_exec: bool,
    pub no_suid: bool,
    pub no_dev: bool,
    pub sync: bool,
    pub dir_sync: bool,
    pub mandatory_locks: bool,
    pub posix_acl: bool,
    pub atime: AtimeMode,
}

impl Default for MountFlags {
    fn default() -> (f: Self)
        ensures
            !f.read_only && !f.no_exec && !f.no_suid && !f.no_dev && !f.sync && !f.dir_sync
                && !f.mandatory_locks && !f.posix_acl,
            f.atime == AtimeMode::Default,
    {
        MountFlags {
            read_only: false,
            no_exec: false,
            no_suid: false,
            no_dev: false,
            sync: false,
            dir_sync: false,
            mandatory_locks: false,
            posix_acl: false,
            atime: AtimeMode::Default,
        }
    }
}

/// `bits` with `bit` added when `on`.
pub open spec fn with_bit(bits: u64, on: bool, bit: u64) -> u64 {
    if on {
        bits | bit
    } else {
        bits
    }
}

/// The access-time bit of the mount flags, if any.
pub open spec fn atime_bits(a: AtimeMode) -> u64 {
    match a {
        AtimeMode::Default => 0,
        AtimeMode::NoAtime => 0x0400,
        AtimeMode::RelAtime => 0x200000,
        AtimeMode::StrictAtime => 0x1000000,
        AtimeMode::LazyTime => 0x2000000,
    }
}

impl MountFlags {
    /// The `mount(2)` flags of the switches: each switch that is on adds
    /// its bit, and the access-time mode adds its own.
    pub open spec fn bits(self) -> u64 {
        let b = with_bit(0, self.read_only, 0x01);
        let b = with_bit(b, self.no_exec, 0x08);
        let b = with_bit(b, self.no_suid, 0x02);
        let b = with_bit(b, self.no_dev, 0x04);
        let b = with_bit(b, self.sync, 0x10);
        let b = with_bit(b, self.dir_sync, 0x80);
        let b = with_bit(b, self.mandatory_locks, 0x40);
        let b = with_bit(b, self.posix_acl, 0x010000);
        b | atime_bits(self.atime)
    }

    /// The `mount(2)` flags of the switches, as nix's `MsFlags` bits.
    pub fn derive(self) -> (flags: u64)
        ensures
            flags == self.bits(),
    {
        let mut flags: u64 = 0;
        if self.read_only {
            flags = flags | ms_rdonly();
        }
        if self.no_exec {
            flags = flags | ms_noexec();
        }
        if self.no_suid {
            flags = flags | ms_nosuid();
        }
        if self.no_dev {
            flags = flags | ms_nodev();
        }
        if self.sync {
            flags = flags | ms_synchronous();
        }
        if self.dir_sync {
            flags = flags | ms_dirsync();
        }
        if self.mandatory_locks {
            flags = flags | ms_mandlock();
        }
        if self.posix_acl {
            flags = flags | ms_posixacl();
        }
        match self.atime {
            AtimeMode::Default => {},
            AtimeMode::NoAtime => {
                flags = flags | ms_noatime();
            },
            AtimeMode::RelAtime => {
                flags = flags | ms_relatime();
            },
            AtimeMode::StrictAtime => {
                flags = flags | ms_strictatime();
            },
            AtimeMode::LazyTime => {
                flags = flags | ms_lazytime();
            },
        }
        proof {
            assert(flags | 0 == flags) by (bit_vector);
        }
        flags
    }
}

/// A mount as the configuration gives it.
#[derive(Clone, Debug, PartialEq, Eq)]
pub enum MountSpecConfig {
    Virtiofs { target: String, tag: String, overlay: bool, options: Option<String>, flags: MountFlags },
    Block {
        target: String,
        device: String,
        fstype: String,
        overlay: bool,
        options: Option<String>,
        flags: MountFlags,
    },
    NineP {
        target: String,
        tag: String,
        fstype: Option<String>,
        overlay: bool,
        options: Option<String>,
        flags: MountFlags,
    },
    Virtual { target: String, fstype: String, options: Option<String>, flags: MountFlags },
    Nfs {
        target: String,
        server: String,
        export: String,
        fstype: Option<String>,
        options: Option<String>,
        flags: MountFlags,
    },
    Overlay { target: String, lower: String, upper: String, work: String, flags: MountFlags },
}

/// Where a mount's file system comes from.
#[derive(Clone, Debug, PartialEq, Eq)]
pub enum MountSource {
    VirtiofsTag(String),
    Device(String),
    NinePTag(String),
    Virtual,
    Nfs { server: String, export: String },
    Overlay { lower: String, upper: String, work: String },
}

/// A mount to perform.
#[derive(Clone, Debug, PartialEq, Eq)]
pub struct MountSpec {
    pub source: MountSource,
    pub target: String,
    pub fstype: String,
    pub flags: u64,
    pub options: Option<String>,
    pub overlay: bool,
    pub on_failure: MountFailurePolicy,
}

impl MountSpecConfig {
    /// The mount the configuration asks for: the source of its kind, its
    /// target, its file-system type (`virtiofs`, `overlay`, or `9p` and
    /// `nfs` when none is given), its flags and options, an overlay only
    /// where the kind has one, and a failure that only warns.
    pub fn to_mount_spec(&self) -> (m: MountSpec)
        ensures
            m.on_failure == MountFailurePolicy::Warn,
            match *self {
                MountSpecConfig::Virtiofs { target, tag, overlay, options, flags } => {
                    &&& m.source == MountSource::VirtiofsTag(tag)
                    &&& m.target == target
                    &&& m.fstype@ == "virtiofs"@
                    &&& m.flags == flags.bits()
                    &&& m.options == options
                    &&& m.overlay == overlay
                },
                MountSpecConfig::Block { target, device, fstype, overlay, options, flags } => {
                    &&& m.source == MountSource::Device(device)
                    &&& m.target == target
                    &&& m.fstype == fstype
                    &&& m.flags == flags.bits()
                    &&& m.options == options
                    &&& m.overlay == overlay
                },
                MountSpecConfig::NineP { target, tag, fstype, overlay, options, flags } => {
                    &&& m.source == MountSource::NinePTag(tag)
                    &&& m.target == target
                    &&& m.fstype@ == match fstype {
                        Some(f) => f@,
                        None => "9p"@,
                    }
                    &&& m.flags == flags.bits()
                    &&& m.options == options
                    &&& m.overlay == overlay
                },
                MountSpecConfig::Virtual { target, fstype, options, flags } => {
                    &&& m.source == MountSource::Virtual
                    &&& m.target == target
                    &&& m.fstype == fstype
                    &&& m.flags == flags.bits()
                    &&& m.options == options
                    &&& !m.overlay
                },
                MountSpecConfig::Nfs { target, server, export, fstype, options, flags } => {
                    &&& m.source == (MountSource::Nfs { server, export })
                    &&& m.target == target
                    &&& m.fstype@ == match fstype {
                        Some(f) => f@,
                        None => "nfs"@,
                    }
                    &&& m.flags == flags.bits()
                    &&& m.options == options
                    &&& !m.overlay
                },
                MountSpecConfig::Overlay { target, lower, upper, work, flags } => {
                    &&& m.source == (MountSource::Overlay { lower, upper, work })
                    &&& m.target == target
                    &&& m.fstype@ == "overlay"@
                    &&& m.flags == flags.bits()
                    &&& m.options is None
                    &&& !m.overlay
                },
            },
    {
        match self {
            MountSpecConfig::Virtiofs { target, tag, overlay, options, flags } => MountSpec {
                source: MountSource::VirtiofsTag(tag.clone()),
                target: target.clone(),
                fstype: String::from_str("virtiofs"),
                flags: flags.derive(),
                options: options.clone(),
                overlay: *overlay,
                on_failure: MountFailurePolicy::Warn,
            },
            MountSpecConfig::Block { target, device, fstype, overlay, options, flags } => MountSpec {
                source: MountSource::Device(device.clone()),
                target: target.clone(),
                fstype: fstype.clone(),
                flags: flags.derive(),
                options: options.clone(),
                overlay: *overlay,
                on_failure: MountFailurePolicy::Warn,
            },
            MountSpecConfig::NineP { target, tag, fstype, overlay, options, flags } => MountSpec {
                source: MountSource::NinePTag(tag.clone()),
                target: target.clone(),
                fstype: match fstype {
                    Some(f) => f.clone(),
                    None => String::from_str("9p"),
                },
                flags: flags.derive(),
                options: options.clone(),
                overlay: *overlay,
                on_failure: MountFailurePolicy::Warn,
            },
            MountSpecConfig::Virtual { target, fstype, options, flags } => MountSpec {
                source: MountSource::Virtual,
                target: target.clone(),
                fstype: fstype.clone(),
                flags: flags.derive(),
                options: options.clone(),
                overlay: false,
                on_failure: MountFailurePolicy::Warn,
            },
            MountSpecConfig::Nfs { target, server, export, fstype, options, flags } => MountSpec {
                source: MountSource::Nfs { server: server.clone(), export: export.clone() },
                target: target.clone(),
                fstype: match fstype {
                    Some(f) => f.clone(),
                    None => String::from_str("nfs"),
                },
                flags: flags.derive(),
                options: options.clone(),
                overlay: false,
                on_failure: MountFailurePolicy::Warn,
            },
            MountSpecConfig::Overlay { target, lower, upper, work, flags } => MountSpec {
                source: MountSource::Overlay {
                    lower: lower.clone(),
                    upper: upper.clone(),
                    work: work.clone(),
                },
                target: target.clone(),
                fstype: String::from_str("overlay"),
                flags: flags.derive(),
                options: None,
                overlay: false,
                on_failure: MountFailurePolicy::Warn,
            },
        }
    }
}

/// A virtiofs share to mount.
#[derive(Clone, Debug, PartialEq, Eq)]
pub struct VirtiofsMountConfig {
    pub tag: String,
    pub path: String,
    pub with_overlay: Option<bool>,
    pub options: Option<String>,
}

/// `b` with `bit` added when `on` is `b` joined with `bit` or with nothing.
proof fn lemma_with_bit(b: u64, on: bool, bit: u64)
    ensures
        with_bit(b, on, bit) == b | (if on {
            bit
        } else {
            0u64
        }),
{
    assert(b | 0u64 == b) by (bit_vector);
}

/// The bits of the eight switches and of the access time, joined, keep each
/// bit to itself and set no other.
proof fn lemma_switch_bits(
    vr: u64,
    ve: u64,
    vs: u64,
    vd: u64,
    vy: u64,
    vds: u64,
    vm: u64,
    vp: u64,
    t: u64,
    b: u64,
)
    by (bit_vector)
    requires
        vr == 0 || vr == 0x01,
        ve == 0 || ve == 0x08,
        vs == 0 || vs == 0x02,
        vd == 0 || vd == 0x04,
        vy == 0 || vy == 0x10,
        vds == 0 || vds == 0x80,
        vm == 0 || vm == 0x40,
        vp == 0 || vp == 0x010000,
        t == 0 || t == 0x0400 || t == 0x200000 || t == 0x1000000 || t == 0x2000000,
        b == ((((((((0u64 | vr) | ve) | vs) | vd) | vy) | vds) | vm) | vp) | t,
    ensures
        (b & 0x01 != 0) == (vr != 0),
        (b & 0x08 != 0) == (ve != 0),
        (b & 0x02 != 0) == (vs != 0),
        (b & 0x04 != 0) == (vd != 0),
        (b & 0x10 != 0) == (vy != 0),
        (b & 0x80 != 0) == (vds != 0),
        (b & 0x40 != 0) == (vm != 0),
        (b & 0x010000 != 0) == (vp != 0),
        (b & 0x0400 != 0) == (t == 0x0400),
        (b & 0x200000 != 0) == (t == 0x200000),
        (b & 0x1000000 != 0) == (t == 0x1000000),
        (b & 0x2000000 != 0) == (t == 0x2000000),
        b & !0x32104dfu64 == 0,
{
}

/// Each switch of the mount options controls its own `mount(2)` bit,
/// whatever the other switches are: read-only `MS_RDONLY` (0x01), no-suid
/// `MS_NOSUID` (0x02), no-dev `MS_NODEV` (0x04), no-exec `MS_NOEXEC` (0x08),
/// sync `MS_SYNCHRONOUS` (0x10), mandatory locks `MS_MANDLOCK` (0x40),
/// dir-sync `MS_DIRSYNC` (0x80) and POSIX ACLs `MS_POSIXACL` (0x10000); each
/// access-time mode sets its own bit (`MS_NOATIME`, `MS_RELATIME`,
/// `MS_STRICTATIME`, `MS_LAZYTIME`) and the default none; and no other bit
/// is ever set.
pub proof fn law_each_switch_sets_its_own_bit(f: MountFlags)
    ensures
        (f.bits() & 0x01 != 0) == f.read_only,
        (f.bits() & 0x02 != 0) == f.no_suid,
        (f.bits() & 0x04 != 0) == f.no_dev,
        (f.bits() & 0x08 != 0) == f.no_exec,
        (f.bits() & 0x10 != 0) == f.sync,
        (f.bits() & 0x40 != 0) == f.mandatory_locks,
        (f.bits() & 0x80 != 0) == f.dir_sync,
        (f.bits() & 0x010000 != 0) == f.posix_acl,
        (f.bits() & 0x0400 != 0) == (f.atime == AtimeMode::NoAtime),
        (f.bits() & 0x200000 != 0) == (f.atime == AtimeMode::RelAtime),
        (f.bits() & 0x1000000 != 0) == (f.atime == AtimeMode::StrictAtime),
        (f.bits() & 0x2000000 != 0) == (f.atime == AtimeMode::LazyTime),
        f.bits() & !0x32104dfu64 == 0,
{
    let vr: u64 = if f.read_only { 0x01 } else { 0 };
    let ve: u64 = if f.no_exec { 0x08 } else { 0 };
    let vs: u64 = if f.no_suid { 0x02 } else { 0 };
    let vd: u64 = if f.no_dev { 0x04 } else { 0 };
    let vy: u64 = if f.sync { 0x10 } else { 0 };
    let vds: u64 = if f.dir_sync { 0x80 } else { 0 };
    let vm: u64 = if f.mandatory_locks { 0x40 } else { 0 };
    let vp: u64 = if f.posix_acl { 0x010000 } else { 0 };
    let t = atime_bits(f.atime);
    let b1 = with_bit(0, f.read_only, 0x01);
    let b2 = with_bit(b1, f.no_exec, 0x08);
    let b3 = with_bit(b2, f.no_suid, 0x02);
    let b4 = with_bit(b3, f.no_dev, 0x04);
    let b5 = with_bit(b4, f.sync, 0x10);
    let b6 = with_bit(b5, f.dir_sync, 0x80);
    let b7 = with_bit(b6, f.mandatory_locks, 0x40);
    let b8 = with_bit(b7, f.posix_acl, 0x010000);
    lemma_with_bit(0, f.read_only, 0x01);
    lemma_with_bit(b1, f.no_exec, 0x08);
    lemma_with_bit(b2, f.no_suid, 0x02);
    lemma_with_bit(b3, f.no_dev, 0x04);
    lemma_with_bit(b4, f.sync, 0x10);
    lemma_with_bit(b5, f.dir_sync, 0x80);
    lemma_with_bit(b6, f.mandatory_locks, 0x40);
    lemma_with_bit(b7, f.posix_acl, 0x010000);
    assert(f.bits() == b8 | t);
    lemma_switch_bits(vr, ve, vs, vd, vy, vds, vm, vp, t, f.bits());
}

} // verus!

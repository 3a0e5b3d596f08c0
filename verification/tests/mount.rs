use nix::mount::MsFlags;
use ocelot::config::bootstrap::mount::{
    AtimeMode, MountFailurePolicy, MountFlags, MountSource, MountSpecConfig,
};

fn bits(flags: MsFlags) -> u64 {
    flags.bits() as u64
}

#[test]
fn test_mount_flags_builder() {
    // Test all flags set
    let builder = MountFlags {
        read_only: true,
        no_exec: true,
        no_suid: true,
        no_dev: true,
        sync: true,
        dir_sync: true,
        mandatory_locks: true,
        posix_acl: true,
        atime: AtimeMode::NoAtime,
    };
    let flags = builder.derive();
    let expected = MsFlags::MS_RDONLY
        | MsFlags::MS_NOEXEC
        | MsFlags::MS_NOSUID
        | MsFlags::MS_NODEV
        | MsFlags::MS_SYNCHRONOUS
        | MsFlags::MS_DIRSYNC
        | MsFlags::MS_MANDLOCK
        | MsFlags::MS_POSIXACL
        | MsFlags::MS_NOATIME;
    assert_eq!(flags, bits(expected));

    // Test no flags (all false, atime Default)
    let builder = MountFlags {
        read_only: false,
        no_exec: false,
        no_suid: false,
        no_dev: false,
        sync: false,
        dir_sync: false,
        mandatory_locks: false,
        posix_acl: false,
        atime: AtimeMode::Default,
    };
    let flags = builder.derive();
    assert_eq!(flags, bits(MsFlags::empty()));

    // Test each atime variant individually with no other flags
    for (atime, flag) in [
        (AtimeMode::NoAtime, MsFlags::MS_NOATIME),
        (AtimeMode::RelAtime, MsFlags::MS_RELATIME),
        (AtimeMode::StrictAtime, MsFlags::MS_STRICTATIME),
        (AtimeMode::LazyTime, MsFlags::MS_LAZYTIME),
    ] {
        let builder = MountFlags {
            read_only: false,
            no_exec: false,
            no_suid: false,
            no_dev: false,
            sync: false,
            dir_sync: false,
            mandatory_locks: false,
            posix_acl: false,
            atime,
        };
        let flags = builder.derive();
        assert_eq!(flags, bits(flag));
    }

    // Test partial flags: read-only + no-suid + relatime
    let builder = MountFlags {
        read_only: true,
        no_exec: false,
        no_suid: true,
        no_dev: false,
        sync: false,
        dir_sync: false,
        mandatory_locks: false,
        posix_acl: false,
        atime: AtimeMode::RelAtime,
    };
    let flags = builder.derive();
    let expected = MsFlags::MS_RDONLY | MsFlags::MS_NOSUID | MsFlags::MS_RELATIME;
    assert_eq!(flags, bits(expected));
}

#[test]
fn test_boolean_flags_to_msflags() {
    // Test all flags set
    let config = MountSpecConfig::Virtual {
        target: "/mnt".to_string(),
        fstype: "ext4".to_string(),
        options: None,
        flags: MountFlags {
            read_only: true,
            no_exec: true,
            no_suid: true,
            no_dev: true,
            sync: true,
            dir_sync: true,
            mandatory_locks: true,
            posix_acl: true,
            atime: AtimeMode::NoAtime,
        },
    };
    let mount_spec = config.to_mount_spec();
    let expected = MsFlags::MS_RDONLY
        | MsFlags::MS_NOEXEC
        | MsFlags::MS_NOSUID
        | MsFlags::MS_NODEV
        | MsFlags::MS_SYNCHRONOUS
        | MsFlags::MS_DIRSYNC
        | MsFlags::MS_MANDLOCK
        | MsFlags::MS_POSIXACL
        | MsFlags::MS_NOATIME;
    assert_eq!(mount_spec.flags, bits(expected));

    // Test no flags (default)
    let config = MountSpecConfig::Virtual {
        target: "/mnt".to_string(),
        fstype: "ext4".to_string(),
        options: None,
        flags: MountFlags {
            read_only: false,
            no_exec: false,
            no_suid: false,
            no_dev: false,
            sync: false,
            dir_sync: false,
            mandatory_locks: false,
            posix_acl: false,
            atime: AtimeMode::Default,
        },
    };
    let mount_spec = config.to_mount_spec();
    assert_eq!(mount_spec.flags, bits(MsFlags::empty()));

    // Test atime variants
    for (atime, flag) in [
        (AtimeMode::NoAtime, MsFlags::MS_NOATIME),
        (AtimeMode::RelAtime, MsFlags::MS_RELATIME),
        (AtimeMode::StrictAtime, MsFlags::MS_STRICTATIME),
        (AtimeMode::LazyTime, MsFlags::MS_LAZYTIME),
    ] {
        let config = MountSpecConfig::Virtual {
            target: "/mnt".to_string(),
            fstype: "ext4".to_string(),
            options: None,
            flags: MountFlags {
                read_only: false,
                no_exec: false,
                no_suid: false,
                no_dev: false,
                sync: false,
                dir_sync: false,
                mandatory_locks: false,
                posix_acl: false,
                atime,
            },
        };
        let mount_spec = config.to_mount_spec();
        assert_eq!(mount_spec.flags, bits(flag));
    }
}

#[test]
fn test_virtiofs_flags_conversion() {
    let config = MountSpecConfig::Virtiofs {
        target: "/mnt".to_string(),
        tag: "rootfs".to_string(),
        overlay: true,
        options: Some("rw".to_string()),
        flags: MountFlags {
            read_only: true,
            no_exec: false,
            no_suid: true,
            no_dev: false,
            sync: false,
            dir_sync: false,
            mandatory_locks: false,
            posix_acl: true,
            atime: AtimeMode::RelAtime,
        },
    };
    let mount_spec = config.to_mount_spec();
    assert!(
        matches!(mount_spec.source, MountSource::VirtiofsTag(tag) if tag == "rootfs")
    );
    assert_eq!(mount_spec.target, "/mnt".to_string());
    assert_eq!(mount_spec.fstype, "virtiofs");
    assert!(mount_spec.overlay);
    assert_eq!(mount_spec.options, Some("rw".to_string()));
    let expected =
        MsFlags::MS_RDONLY | MsFlags::MS_NOSUID | MsFlags::MS_POSIXACL | MsFlags::MS_RELATIME;
    assert_eq!(mount_spec.flags, bits(expected));
    assert!(matches!(mount_spec.on_failure, MountFailurePolicy::Warn));
}

#[test]
fn test_block_flags_conversion() {
    let config = MountSpecConfig::Block {
        target: "/boot".to_string(),
        device: "/dev/vda1".to_string(),
        fstype: "vfat".to_string(),
        overlay: false,
        options: None,
        flags: MountFlags {
            read_only: true,
            no_exec: false,
            no_suid: false,
            no_dev: true,
            sync: false,
            dir_sync: false,
            mandatory_locks: false,
            posix_acl: false,
            atime: AtimeMode::Default,
        },
    };
    let mount_spec = config.to_mount_spec();
    assert!(
        matches!(mount_spec.source, MountSource::Device(dev) if dev == "/dev/vda1")
    );
    assert_eq!(mount_spec.fstype, "vfat");
    let expected = MsFlags::MS_RDONLY | MsFlags::MS_NODEV;
    assert_eq!(mount_spec.flags, bits(expected));
}

#[test]
fn test_ninep_flags_conversion() {
    let config = MountSpecConfig::NineP {
        target: "/dev".to_string(),
        tag: "dev".to_string(),
        fstype: None,
        overlay: false,
        options: None,
        flags: MountFlags {
            read_only: false,
            no_exec: false,
            no_suid: false,
            no_dev: false,
            sync: false,
            dir_sync: false,
            mandatory_locks: false,
            posix_acl: false,
            atime: AtimeMode::StrictAtime,
        },
    };
    let mount_spec = config.to_mount_spec();
    assert!(
        matches!(mount_spec.source, MountSource::NinePTag(tag) if tag == "dev")
    );
    assert_eq!(mount_spec.fstype, "9p");
    assert_eq!(mount_spec.flags, bits(MsFlags::MS_STRICTATIME));
}

#[test]
fn test_overlay_flags_conversion() {
    let config = MountSpecConfig::Overlay {
        target: "/overlay".to_string(),
        lower: "/lower".to_string(),
        upper: "/upper".to_string(),
        work: "/work".to_string(),
        flags: MountFlags {
            read_only: false,
            no_exec: false,
            no_suid: false,
            no_dev: false,
            sync: false,
            dir_sync: false,
            mandatory_locks: false,
            posix_acl: false,
            atime: AtimeMode::LazyTime,
        },
    };
    let mount_spec = config.to_mount_spec();
    assert!(matches!(mount_spec.source, MountSource::Overlay { .. }));
    assert_eq!(mount_spec.fstype, "overlay");
    assert_eq!(mount_spec.flags, bits(MsFlags::MS_LAZYTIME));
    assert_eq!(mount_spec.options, None);
}

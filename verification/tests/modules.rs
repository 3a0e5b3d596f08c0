use ocelot::modules::depfile::parse_dep_file;
use ocelot::modules::resolve::resolve_module_order;

#[test]
fn mod_test_parse_empty_depfile() {
    let map = parse_dep_file(&[]);
    assert!(map.is_empty());
}

#[test]
fn mod_test_parse_depfile_no_deps() {
    let data = b"kernel/foo.ko.xz:";
    let map = parse_dep_file(data);
    let empty: Vec<String> = vec![];
    assert_eq!(map.get("foo.ko.xz"), Some(&empty));
}

#[test]
fn mod_test_parse_depfile_with_deps() {
    let data = b"kernel/bar.ko.xz: kernel/foo.ko.xz";
    let map = parse_dep_file(data);
    assert_eq!(map.get("bar.ko.xz"), Some(&vec!["foo.ko.xz".to_string()]));
}

#[test]
fn mod_test_parse_depfile_mixed() {
    let data = br"
kernel/a.ko.xz:
kernel/b.ko.xz: kernel/a.ko.xz
kernel/c.ko.xz: kernel/a.ko.xz kernel/b.ko.xz
";
    let map = parse_dep_file(data);
    let empty: Vec<String> = vec![];
    assert_eq!(map.get("a.ko.xz"), Some(&empty));
    assert_eq!(map.get("b.ko.xz"), Some(&vec!["a.ko.xz".to_string()]));
    assert_eq!(map.get("c.ko.xz"), Some(&vec!["a.ko.xz".to_string(), "b.ko.xz".to_string()]));
}

#[test]
fn mod_test_resolve_linear_deps() {
    let data = br"
kernel/c.ko.xz:
kernel/b.ko.xz: kernel/c.ko.xz
kernel/a.ko.xz: kernel/b.ko.xz
";
    let map = parse_dep_file(data);
    let order = resolve_module_order(&map, &["a.ko.xz".to_string()]).unwrap();
    assert_eq!(order, vec!["c.ko.xz", "b.ko.xz", "a.ko.xz"]);
}

#[test]
fn mod_test_resolve_shared_deps() {
    let data = br"
kernel/c.ko.xz:
kernel/a.ko.xz: kernel/c.ko.xz
kernel/b.ko.xz: kernel/c.ko.xz
";
    let map = parse_dep_file(data);
    let order =
        resolve_module_order(&map, &["a.ko.xz".to_string(), "b.ko.xz".to_string()]).unwrap();
    let c_pos = order.iter().position(|m| m == "c.ko.xz").unwrap();
    let a_pos = order.iter().position(|m| m == "a.ko.xz").unwrap();
    let b_pos = order.iter().position(|m| m == "b.ko.xz").unwrap();
    assert!(c_pos < a_pos);
    assert!(c_pos < b_pos);
}

#[test]
fn mod_test_resolve_extra_depfile_entries_ignored() {
    let data = br"
kernel/drivers/virtio/virtio_ring.ko.xz:
kernel/drivers/virtio/virtio.ko.xz: kernel/drivers/virtio/virtio_ring.ko.xz
kernel/drivers/net/net_failover.ko.xz: kernel/net/core/failover.ko.xz
kernel/net/core/failover.ko.xz:
kernel/drivers/virtio/virtio_mmio.ko.xz: kernel/drivers/virtio/virtio.ko.xz kernel/drivers/virtio/virtio_ring.ko.xz
kernel/drivers/virtio/virtio_pci.ko.xz: kernel/drivers/virtio/virtio_pci_legacy_dev.ko.xz kernel/drivers/virtio/virtio_pci_modern_dev.ko.xz kernel/drivers/virtio/virtio.ko.xz kernel/drivers/virtio/virtio_ring.ko.xz
kernel/drivers/virtio/virtio_pci_legacy_dev.ko.xz:
kernel/drivers/virtio/virtio_pci_modern_dev.ko.xz:
kernel/drivers/net/virtio_net.ko.xz: kernel/drivers/net/net_failover.ko.xz kernel/net/core/failover.ko.xz kernel/drivers/virtio/virtio.ko.xz kernel/drivers/virtio/virtio_ring.ko.xz
kernel/drivers/block/virtio_blk.ko.xz: kernel/drivers/virtio/virtio.ko.xz kernel/drivers/virtio/virtio_ring.ko.xz
kernel/fs/fuse/fuse.ko.xz:
kernel/fs/fuse/virtiofs.ko.xz: kernel/drivers/virtio/virtio.ko.xz kernel/drivers/virtio/virtio_ring.ko.xz kernel/fs/fuse/fuse.ko.xz
";
    let map = parse_dep_file(data);
    let order = resolve_module_order(&map, &["virtio_ring.ko.xz".to_string()]).unwrap();
    assert_eq!(order, vec!["virtio_ring.ko.xz"]);
}

#[test]
fn mod_test_resolve_virtio_net_full() {
    let data = br"
kernel/drivers/virtio/virtio_ring.ko.xz:
kernel/drivers/virtio/virtio.ko.xz: kernel/drivers/virtio/virtio_ring.ko.xz
kernel/drivers/net/net_failover.ko.xz: kernel/net/core/failover.ko.xz
kernel/net/core/failover.ko.xz:
kernel/drivers/virtio/virtio_mmio.ko.xz: kernel/drivers/virtio/virtio.ko.xz kernel/drivers/virtio/virtio_ring.ko.xz
kernel/drivers/virtio/virtio_pci.ko.xz: kernel/drivers/virtio/virtio_pci_legacy_dev.ko.xz kernel/drivers/virtio/virtio_pci_modern_dev.ko.xz kernel/drivers/virtio/virtio.ko.xz kernel/drivers/virtio/virtio_ring.ko.xz
kernel/drivers/virtio/virtio_pci_legacy_dev.ko.xz:
kernel/drivers/virtio/virtio_pci_modern_dev.ko.xz:
kernel/drivers/net/virtio_net.ko.xz: kernel/drivers/net/net_failover.ko.xz kernel/net/core/failover.ko.xz kernel/drivers/virtio/virtio.ko.xz kernel/drivers/virtio/virtio_ring.ko.xz
kernel/drivers/block/virtio_blk.ko.xz: kernel/drivers/virtio/virtio.ko.xz kernel/drivers/virtio/virtio_ring.ko.xz
kernel/fs/fuse/fuse.ko.xz:
kernel/fs/fuse/virtiofs.ko.xz: kernel/drivers/virtio/virtio.ko.xz kernel/drivers/virtio/virtio_ring.ko.xz kernel/fs/fuse/fuse.ko.xz
";
    let map = parse_dep_file(data);
    let order = resolve_module_order(&map, &["virtio_net.ko.xz".to_string()]).unwrap();
    let net_pos = order.iter().position(|m| m == "virtio_net.ko.xz").unwrap();
    let ring_pos = order.iter().position(|m| m == "virtio_ring.ko.xz").unwrap();
    let virtio_pos = order.iter().position(|m| m == "virtio.ko.xz").unwrap();
    let nf_pos = order.iter().position(|m| m == "net_failover.ko.xz").unwrap();
    let failover_pos = order.iter().position(|m| m == "failover.ko.xz").unwrap();
    assert!(ring_pos < net_pos);
    assert!(virtio_pos < net_pos);
    assert!(nf_pos < net_pos);
    assert!(failover_pos < nf_pos);
    assert!(failover_pos < nf_pos);
    assert!(ring_pos < virtio_pos);
}

#[test]
fn mod_test_cycle_two_modules() {
    let data = br"
kernel/drivers/net/virtio_net.ko.xz: kernel/drivers/virtio/virtio.ko.xz
kernel/drivers/virtio/virtio.ko.xz: kernel/drivers/net/virtio_net.ko.xz
";
    let map = parse_dep_file(data);
    let result = resolve_module_order(&map, &["virtio_net.ko.xz".to_string()]);
    assert!(result.is_err());
    let err = result.unwrap_err();
    let msg = err.message();
    assert!(msg.contains("→"));
}

#[test]
fn mod_test_cycle_three_modules() {
    let data = br"
kernel/a.ko.xz: kernel/b.ko.xz
kernel/b.ko.xz: kernel/c.ko.xz
kernel/c.ko.xz: kernel/a.ko.xz
";
    let map = parse_dep_file(data);
    let result = resolve_module_order(&map, &["a.ko.xz".to_string()]);
    assert!(result.is_err());
    let err = result.unwrap_err();
    let msg = err.message();
    assert!(msg.contains("a.ko.xz"));
    assert!(msg.contains("b.ko.xz"));
    assert!(msg.contains("c.ko.xz"));
}

#[test]
fn mod_test_module_not_found() {
    let map = parse_dep_file(&[]);
    let result = resolve_module_order(&map, &["nonexistent.ko.xz".to_string()]);
    assert!(result.is_err());
}

const VIRTIO_DEP: &[u8] = br"
kernel/drivers/virtio/virtio_ring.ko.xz:
kernel/drivers/virtio/virtio.ko.xz: kernel/drivers/virtio/virtio_ring.ko.xz
kernel/drivers/net/net_failover.ko.xz: kernel/net/core/failover.ko.xz
kernel/net/core/failover.ko.xz:
kernel/drivers/virtio/virtio_mmio.ko.xz: kernel/drivers/virtio/virtio.ko.xz kernel/drivers/virtio/virtio_ring.ko.xz
kernel/drivers/virtio/virtio_pci.ko.xz: kernel/drivers/virtio/virtio_pci_legacy_dev.ko.xz kernel/drivers/virtio/virtio_pci_modern_dev.ko.xz kernel/drivers/virtio/virtio.ko.xz kernel/drivers/virtio/virtio_ring.ko.xz
kernel/drivers/virtio/virtio_pci_legacy_dev.ko.xz:
kernel/drivers/virtio/virtio_pci_modern_dev.ko.xz:
kernel/drivers/net/virtio_net.ko.xz: kernel/drivers/net/net_failover.ko.xz kernel/net/core/failover.ko.xz kernel/drivers/virtio/virtio.ko.xz kernel/drivers/virtio/virtio_ring.ko.xz
kernel/drivers/block/virtio_blk.ko.xz: kernel/drivers/virtio/virtio.ko.xz kernel/drivers/virtio/virtio_ring.ko.xz
kernel/fs/fuse/fuse.ko.xz:
kernel/fs/fuse/virtiofs.ko.xz: kernel/drivers/virtio/virtio.ko.xz kernel/drivers/virtio/virtio_ring.ko.xz kernel/fs/fuse/fuse.ko.xz
";
const CYCLE_DEP: &[u8] = br"
kernel/drivers/net/virtio_net.ko.xz: kernel/drivers/virtio/virtio.ko.xz
kernel/drivers/virtio/virtio.ko.xz: kernel/drivers/net/virtio_net.ko.xz
";
const CYCLE3_DEP: &[u8] = br"
kernel/a.ko.xz: kernel/b.ko.xz
kernel/b.ko.xz: kernel/c.ko.xz
kernel/c.ko.xz: kernel/a.ko.xz
";
const SELFLOOP_DEP: &[u8] = br"kernel/a.ko.xz: kernel/a.ko.xz";

#[test]
fn modules_dep_test_parse_empty_depfile() {
    let map = parse_dep_file(&[]);
    assert!(map.is_empty());
}

#[test]
fn modules_dep_test_parse_depfile_no_deps() {
    let data = b"kernel/foo.ko.xz:\n";
    let map = parse_dep_file(data);
    let empty: Vec<String> = vec![];
    assert_eq!(map.get("foo.ko.xz"), Some(&empty));
}

#[test]
fn modules_dep_test_parse_depfile_with_deps() {
    let data = b"kernel/bar.ko.xz: kernel/foo.ko.xz\n";
    let map = parse_dep_file(data);
    assert_eq!(map.get("bar.ko.xz"), Some(&vec!["foo.ko.xz".to_string()]));
}

#[test]
fn modules_dep_test_parse_depfile_mixed() {
    let data =
        b"kernel/a.ko.xz:\nkernel/b.ko.xz: kernel/a.ko.xz\nkernel/c.ko.xz: kernel/a.ko.xz kernel/b.ko.xz\n";
    let map = parse_dep_file(data);
    let empty: Vec<String> = vec![];
    assert_eq!(map.get("a.ko.xz"), Some(&empty));
    assert_eq!(map.get("b.ko.xz"), Some(&vec!["a.ko.xz".to_string()]));
    assert_eq!(map.get("c.ko.xz"), Some(&vec!["a.ko.xz".to_string(), "b.ko.xz".to_string()]));
}

#[test]
fn modules_dep_test_resolve_linear_deps() {
    let data =
        b"kernel/c.ko.xz:\nkernel/b.ko.xz: kernel/c.ko.xz\nkernel/a.ko.xz: kernel/b.ko.xz\n";
    let map = parse_dep_file(data);
    let order = resolve_module_order(&map, &["a.ko.xz".to_string()]).unwrap();
    assert_eq!(order, vec!["c.ko.xz", "b.ko.xz", "a.ko.xz"]);
}

#[test]
fn modules_dep_test_resolve_shared_deps() {
    let data =
        b"kernel/c.ko.xz:\nkernel/a.ko.xz: kernel/c.ko.xz\nkernel/b.ko.xz: kernel/c.ko.xz\n";
    let map = parse_dep_file(data);
    let order =
        resolve_module_order(&map, &["a.ko.xz".to_string(), "b.ko.xz".to_string()]).unwrap();
    let c_pos = order.iter().position(|m| m == "c.ko.xz").unwrap();
    let a_pos = order.iter().position(|m| m == "a.ko.xz").unwrap();
    let b_pos = order.iter().position(|m| m == "b.ko.xz").unwrap();
    assert!(c_pos < a_pos);
    assert!(c_pos < b_pos);
}

#[test]
fn modules_dep_test_resolve_extra_depfile_entries_ignored() {
    let map = parse_dep_file(VIRTIO_DEP);
    let order = resolve_module_order(&map, &["virtio_ring.ko.xz".to_string()]).unwrap();
    assert_eq!(order, vec!["virtio_ring.ko.xz"]);
}

#[test]
fn modules_dep_test_resolve_virtio_net_full() {
    let map = parse_dep_file(VIRTIO_DEP);
    let order = resolve_module_order(&map, &["virtio_net.ko.xz".to_string()]).unwrap();
    let net_pos = order.iter().position(|m| m == "virtio_net.ko.xz").unwrap();
    let ring_pos = order.iter().position(|m| m == "virtio_ring.ko.xz").unwrap();
    let virtio_pos = order.iter().position(|m| m == "virtio.ko.xz").unwrap();
    let nf_pos = order.iter().position(|m| m == "net_failover.ko.xz").unwrap();
    let failover_pos = order.iter().position(|m| m == "failover.ko.xz").unwrap();
    assert!(ring_pos < net_pos);
    assert!(virtio_pos < net_pos);
    assert!(nf_pos < net_pos);
    assert!(failover_pos < net_pos);
    assert!(failover_pos < nf_pos);
    assert!(ring_pos < virtio_pos);
}

#[test]
fn modules_dep_test_cycle_two_modules() {
    let map = parse_dep_file(CYCLE_DEP);
    let result = resolve_module_order(&map, &["virtio_net.ko.xz".to_string()]);
    assert!(result.is_err());
    let err = result.unwrap_err();
    let msg = err.message();
    assert!(msg.contains("→"));
}

#[test]
fn modules_dep_test_cycle_three_modules() {
    let map = parse_dep_file(CYCLE3_DEP);
    let result = resolve_module_order(&map, &["a.ko.xz".to_string()]);
    assert!(result.is_err());
    let err = result.unwrap_err();
    let msg = err.message();
    assert!(msg.contains("a.ko.xz"));
    assert!(msg.contains("b.ko.xz"));
    assert!(msg.contains("c.ko.xz"));
}

#[test]
fn modules_dep_test_self_loop() {
    let map = parse_dep_file(SELFLOOP_DEP);
    let result = resolve_module_order(&map, &["a.ko.xz".to_string()]);
    assert!(result.is_err());
    let err = result.unwrap_err();
    let msg = err.message();
    assert!(msg.contains("a.ko.xz"));
}

#[test]
fn modules_dep_test_module_not_found() {
    let map = parse_dep_file(&[]);
    let result = resolve_module_order(&map, &["nonexistent.ko.xz".to_string()]);
    assert!(result.is_err());
}

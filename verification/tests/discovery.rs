use limine_entries::entry::{classify, discover_entries, try_to_entry, Item, ItemKind};

fn paths(names: &[&str]) -> Vec<String> {
    names.iter().map(|n| n.to_string()).collect()
}

#[test]
fn single_pair_discovered() {
    let entries = discover_entries(&paths(&[
        "/boot/vmlinuz-6.10.5-arch1",
        "/boot/initramfs-6.10.5-arch1.img",
    ]));
    assert_eq!(entries.len(), 1);
    assert_eq!(entries[0].title, "Linux - 6.10.5-arch1");
    assert_eq!(entries[0].kernel, "/vmlinuz-6.10.5-arch1");
    assert_eq!(entries[0].initrd, "/initramfs-6.10.5-arch1.img");
    assert_eq!(entries[0].version, Some("6.10.5-arch1".to_string()));
}

#[test]
fn kernel_without_initrd_yields_nothing() {
    let entries = discover_entries(&paths(&["/boot/vmlinuz-6.10.5-arch1"]));
    assert_eq!(entries.len(), 0);
}

#[test]
fn two_pairs_sorted_descending() {
    let entries = discover_entries(&paths(&[
        "/boot/vmlinuz-6.9.8-arch1",
        "/boot/initramfs-6.9.8-arch1.img",
        "/boot/vmlinuz-6.10.5-arch1",
        "/boot/initramfs-6.10.5-arch1.img",
    ]));
    assert_eq!(entries.len(), 2);
    assert_eq!(entries[0].version, Some("6.10.5-arch1".to_string()));
    assert_eq!(entries[1].version, Some("6.9.8-arch1".to_string()));
}

#[test]
fn linux_segment_forces_absent_version() {
    let entries = discover_entries(&paths(&[
        "/boot/vmlinuz-linux",
        "/boot/initramfs-linux.img",
    ]));
    assert_eq!(entries.len(), 1);
    assert_eq!(entries[0].title, "Linux");
    assert_eq!(entries[0].version, None);
    assert_eq!(entries[0].kernel, "/vmlinuz-linux");
    assert_eq!(entries[0].initrd, "/initramfs-linux.img");
}

#[test]
fn lts_and_plain_versions_form_two_buckets() {
    let entries = discover_entries(&paths(&[
        "/boot/vmlinuz-6.10.5",
        "/boot/vmlinuz-6.10.5-lts",
        "/boot/initramfs-6.10.5.img",
        "/boot/initramfs-6.10.5-lts.img",
    ]));
    assert_eq!(entries.len(), 2);
    assert_eq!(entries[0].title, "Linux - 6.10.5");
    assert_eq!(entries[1].title, "Linux - 6.10.5-lts");
}

#[test]
fn three_files_at_one_version_are_discarded() {
    let entries = discover_entries(&paths(&[
        "/boot/vmlinuz-1.0",
        "/boot/vmlinux-1.0",
        "/boot/initramfs-1.0.img",
    ]));
    assert_eq!(entries.len(), 0);
}

#[test]
fn absent_version_sorts_after_present() {
    let entries = discover_entries(&paths(&[
        "/boot/vmlinuz-linux",
        "/boot/initramfs-linux.img",
        "/boot/vmlinuz-6.10.5",
        "/boot/initramfs-6.10.5.img",
    ]));
    assert_eq!(entries.len(), 2);
    assert_eq!(entries[0].version, Some("6.10.5".to_string()));
    assert_eq!(entries[1].version, None);
}

#[test]
fn unparseable_version_sorts_after_parseable() {
    let entries = discover_entries(&paths(&[
        "/boot/vmlinuz-abc",
        "/boot/initramfs-abc.img",
        "/boot/vmlinuz-1.0",
        "/boot/initramfs-1.0.img",
    ]));
    assert_eq!(entries.len(), 2);
    assert_eq!(entries[0].version, Some("1.0".to_string()));
    assert_eq!(entries[1].version, Some("abc".to_string()));
}

#[test]
fn directory_components_do_not_leak() {
    let entries = discover_entries(&paths(&[
        "/some/deep/dir/vmlinuz-2.1",
        "/another/place/initramfs-2.1.img",
    ]));
    assert_eq!(entries.len(), 1);
    assert_eq!(entries[0].kernel, "/vmlinuz-2.1");
    assert_eq!(entries[0].initrd, "/initramfs-2.1.img");
}

#[test]
fn classify_strips_only_img_suffix() {
    let with_img = classify("/boot/vmlinuz-9.9.img").unwrap();
    let without = classify("/boot/vmlinuz-9.9").unwrap();
    assert_eq!(with_img.kind, without.kind);
    assert_eq!(with_img.version, without.version);
    assert_eq!(with_img.path, "/vmlinuz-9.9.img");
    assert_eq!(without.path, "/vmlinuz-9.9");

    let gz = classify("/boot/vmlinuz-9.9.gz").unwrap();
    assert_eq!(gz.version, Some("9.9.gz".to_string()));
}

#[test]
fn classify_version_is_all_after_first_hyphen() {
    let item = classify("vmlinuz-6.10.5-arch1").unwrap();
    assert_eq!(item.version, Some("6.10.5-arch1".to_string()));
    let item = classify("vmlinuz").unwrap();
    assert_eq!(item.version, None);
}

#[test]
fn classify_linux_in_version_segment() {
    let item = classify("initramfs-linux-lts.img").unwrap();
    assert_eq!(item.kind, ItemKind::Initrd);
    assert_eq!(item.version, None);
    let item = classify("vmlinuz-linux").unwrap();
    assert_eq!(item.version, None);
}

#[test]
fn classify_rejects_unmatched_names() {
    assert!(classify("/boot/grub.cfg").is_none());
    assert!(classify("").is_none());
    assert!(classify("/boot/").is_none());
    assert!(classify("kernel-1.2").is_none());
}

#[test]
fn classify_initrd_patterns_win() {
    let item = classify("initrd-vmlinuz").unwrap();
    assert_eq!(item.kind, ItemKind::Initrd);
}

#[test]
fn classify_handles_non_ascii_names() {
    let item = classify("/boot/vmlinuz\u{e9}-1.0").unwrap();
    assert_eq!(item.kind, ItemKind::Kernel);
    assert_eq!(item.version, Some("1.0".to_string()));
    assert_eq!(item.path, "/vmlinuz\u{e9}-1.0");
}

fn item(kind: ItemKind, version: Option<&str>, path: &str) -> Item {
    Item { kind, version: version.map(|v| v.to_string()), path: path.to_string() }
}

#[test]
fn try_to_entry_accepts_one_pair() {
    let items = vec![
        item(ItemKind::Initrd, Some("1.0"), "/initramfs-1.0.img"),
        item(ItemKind::Kernel, Some("1.0"), "/vmlinuz-1.0"),
    ];
    let e = try_to_entry(items, Some("1.0".to_string())).unwrap();
    assert_eq!(e.title, "Linux - 1.0");
    assert_eq!(e.kernel, "/vmlinuz-1.0");
    assert_eq!(e.initrd, "/initramfs-1.0.img");
    assert_eq!(e.version, Some("1.0".to_string()));
}

#[test]
fn try_to_entry_refuses_wrong_sizes_and_kinds() {
    assert!(try_to_entry(vec![], None).is_none());
    assert!(
        try_to_entry(vec![item(ItemKind::Kernel, None, "/vmlinuz")], None).is_none()
    );
    let two_kernels = vec![
        item(ItemKind::Kernel, Some("1"), "/vmlinuz-1"),
        item(ItemKind::Kernel, Some("1"), "/vmlinux-1"),
    ];
    assert!(try_to_entry(two_kernels, Some("1".to_string())).is_none());
    let two_initrds = vec![
        item(ItemKind::Initrd, Some("1"), "/initrd-1"),
        item(ItemKind::Initrd, Some("1"), "/initramfs-1"),
    ];
    assert!(try_to_entry(two_initrds, Some("1".to_string())).is_none());
    let three = vec![
        item(ItemKind::Kernel, Some("1"), "/vmlinuz-1"),
        item(ItemKind::Kernel, Some("1"), "/vmlinux-1"),
        item(ItemKind::Initrd, Some("1"), "/initramfs-1"),
    ];
    assert!(try_to_entry(three, Some("1".to_string())).is_none());
}

#[test]
fn try_to_entry_without_version_uses_plain_title() {
    let items = vec![
        item(ItemKind::Kernel, None, "/vmlinuz"),
        item(ItemKind::Initrd, None, "/initramfs.img"),
    ];
    let e = try_to_entry(items, None).unwrap();
    assert_eq!(e.title, "Linux");
    assert_eq!(e.version, None);
}

use limine_entries::entry::{discover_entries, Entry};
use limine_entries::format::{format_entry, limine};
use limine_entries::Cli;

fn config(cmdline: &str, timeout: u32) -> Cli {
    Cli {
        title: "Linux".to_string(),
        scan_path: "/boot".to_string(),
        cmdline: cmdline.to_string(),
        timeout,
    }
}

#[test]
fn full_output_for_one_pair() {
    let entries = discover_entries(&vec![
        "/boot/vmlinuz-6.10.5-arch1".to_string(),
        "/boot/initramfs-6.10.5-arch1.img".to_string(),
    ]);
    let out = limine(entries, &config("root=/dev/sda1", 5));
    let expected = "timeout: 5\n\n/Linux - 6.10.5-arch1\n    protocol: linux\n    kernel_path: boot():/vmlinuz-6.10.5-arch1\n    kernel_cmdline: root=/dev/sda1\n    module_path: boot():/initramfs-6.10.5-arch1.img\n";
    assert_eq!(out, expected);
}

#[test]
fn empty_entry_list_yields_header_only() {
    let out = limine(Vec::new(), &config("root=/dev/sda1", 5));
    assert_eq!(out, "timeout: 5\n\n");
}

#[test]
fn header_carries_the_timeout_value() {
    assert_eq!(limine(Vec::new(), &config("x", 0)), "timeout: 0\n\n");
    assert_eq!(limine(Vec::new(), &config("x", 123)), "timeout: 123\n\n");
    assert_eq!(limine(Vec::new(), &config("x", 4294967295)), "timeout: 4294967295\n\n");
}

#[test]
fn entry_block_has_exactly_five_lines() {
    let entry = Entry {
        title: "Linux - 1.0".to_string(),
        initrd: "/initramfs-1.0.img".to_string(),
        kernel: "/vmlinuz-1.0".to_string(),
        version: Some("1.0".to_string()),
    };
    let block = format_entry(entry, &config("quiet", 5));
    let expected = "/Linux - 1.0\n    protocol: linux\n    kernel_path: boot():/vmlinuz-1.0\n    kernel_cmdline: quiet\n    module_path: boot():/initramfs-1.0.img\n";
    assert_eq!(block, expected);
    assert_eq!(block.lines().count(), 5);
}

#[test]
fn blocks_concatenate_without_separator() {
    let entries = discover_entries(&vec![
        "/boot/vmlinuz-2.0".to_string(),
        "/boot/initramfs-2.0.img".to_string(),
        "/boot/vmlinuz-1.0".to_string(),
        "/boot/initramfs-1.0.img".to_string(),
    ]);
    let out = limine(entries, &config("quiet", 7));
    let expected = "timeout: 7\n\n\
/Linux - 2.0\n    protocol: linux\n    kernel_path: boot():/vmlinuz-2.0\n    kernel_cmdline: quiet\n    module_path: boot():/initramfs-2.0.img\n\
/Linux - 1.0\n    protocol: linux\n    kernel_path: boot():/vmlinuz-1.0\n    kernel_cmdline: quiet\n    module_path: boot():/initramfs-1.0.img\n";
    assert_eq!(out, expected);
}

#[test]
fn same_files_give_identical_output_whatever_the_scan_order() {
    let a = vec![
        "/boot/vmlinuz-6.10.5".to_string(),
        "/boot/initramfs-6.10.5.img".to_string(),
        "/boot/vmlinuz-6.9.8".to_string(),
        "/boot/initramfs-6.9.8.img".to_string(),
    ];
    let mut b = a.clone();
    b.reverse();
    let out_a = limine(discover_entries(&a), &config("quiet", 5));
    let out_b = limine(discover_entries(&b), &config("quiet", 5));
    assert_eq!(out_a, out_b);
}

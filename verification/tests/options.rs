use proxmox_tui_installer::AdvancedBootdiskOptions;
use proxmox_tui_installer::BootdiskOptions;
use proxmox_tui_installer::Disk;
use proxmox_tui_installer::FsType;
use proxmox_tui_installer::InstallerOptions;
use proxmox_tui_installer::LvmBootdiskOptions;
use proxmox_tui_installer::NetworkOptions;
use proxmox_tui_installer::PasswordOptions;
use proxmox_tui_installer::TimezoneOptions;

fn test_disk() -> Disk {
    Disk {
        path: String::from("/dev/sda"),
        size: 64 * 1024 * 1024,
    }
}

fn defaulted_options() -> InstallerOptions {
    let disk = test_disk();
    InstallerOptions {
        bootdisk: BootdiskOptions {
            disks: vec![disk.clone()],
            fstype: FsType::default(),
            advanced: AdvancedBootdiskOptions::Lvm(LvmBootdiskOptions::defaults_from(&disk)),
        },
        timezone: TimezoneOptions::default(),
        password: PasswordOptions::default(),
        network: NetworkOptions::default(),
    }
}

#[test]
fn sizing_small_disk_reserves_an_eighth() {
    let disk = Disk {
        path: String::from("/dev/sda"),
        size: 64 * 1024 * 1024,
    };
    let opts = LvmBootdiskOptions::defaults_from(&disk);
    assert_eq!(opts.total_size, 64 * 1024 * 1024);
    assert_eq!(opts.min_lvm_free, 8 * 1024 * 1024);
}

#[test]
fn sizing_large_disk_reserves_the_fixed_amount() {
    let disk = Disk {
        path: String::from("/dev/sda"),
        size: 256 * 1024 * 1024,
    };
    let opts = LvmBootdiskOptions::defaults_from(&disk);
    assert_eq!(opts.total_size, 256 * 1024 * 1024);
    assert_eq!(opts.min_lvm_free, 16 * 1024 * 1024);
}

#[test]
fn sizing_boundary_disk_lands_on_the_same_reservation() {
    // At exactly the threshold the disk is not "greater", so the
    // an-eighth tier applies; the two tiers coincide there.
    let disk = Disk {
        path: String::from("/dev/sda"),
        size: 128 * 1024 * 1024,
    };
    let opts = LvmBootdiskOptions::defaults_from(&disk);
    assert_eq!(opts.min_lvm_free, 16 * 1024 * 1024);
    assert_eq!(opts.min_lvm_free, 128 * 1024 * 1024 / 8);
}

#[test]
fn sizing_defaults_leave_root_and_data_uncapped() {
    let disk = test_disk();
    let opts = LvmBootdiskOptions::defaults_from(&disk);
    assert_eq!(opts.swap_size, 4 * 1024 * 1024);
    assert_eq!(opts.max_root_size, 0);
    assert_eq!(opts.max_data_size, 0);
    assert_eq!(opts.disk.path, "/dev/sda");
    assert_eq!(opts.disk.size, disk.size);
}

#[test]
fn fstype_display_strings() {
    assert_eq!(FsType::Ext4.to_text(), "ext4");
    assert_eq!(FsType::Xfs.to_text(), "XFS");
    assert_eq!(FsType::default(), FsType::Ext4);
}

#[test]
fn disk_display_string() {
    let disk = Disk {
        path: String::from("/dev/sda"),
        size: 1024,
    };
    assert_eq!(disk.to_text(), "/dev/sda (1024 B)");
}

#[test]
fn selected_disks_of_the_lvm_layout_is_its_one_disk() {
    let disk = test_disk();
    let advanced = AdvancedBootdiskOptions::Lvm(LvmBootdiskOptions::defaults_from(&disk));
    let selected = advanced.selected_disks();
    assert_eq!(selected.len(), 1);
    assert_eq!(selected[0].path, "/dev/sda");
    assert_eq!(selected[0].size, disk.size);
}

#[test]
fn timezone_defaults() {
    let tz = TimezoneOptions::default();
    assert_eq!(tz.timezone, "Europe/Vienna");
    assert_eq!(tz.kb_layout, "en_US");
}

#[test]
fn password_defaults() {
    let pw = PasswordOptions::default();
    assert_eq!(pw.email, "mail@example.invalid");
    assert_eq!(pw.root_password, "");
}

#[test]
fn network_defaults() {
    let net = NetworkOptions::default();
    assert_eq!(net.ifname, "");
    assert_eq!(net.fqdn, "pve.example.invalid");
    assert_eq!(net.address.to_text(), "0.0.0.0/0");
    assert_eq!(net.address.mask(), 0);
    assert_eq!(net.gateway.to_text(), "0.0.0.0");
    assert_eq!(net.dns_server.to_text(), "0.0.0.0");
}

#[test]
fn summary_has_the_ten_rows_in_order() {
    let rows = defaulted_options().to_summary();
    assert_eq!(rows.len(), 10);
    let labels: Vec<&str> = rows.iter().map(|r| r.label.as_str()).collect();
    assert_eq!(
        labels,
        vec![
            "Bootdisk filesystem",
            "Bootdisks",
            "Timezone",
            "Keyboard layout",
            "Administator email:",
            "Management interface:",
            "Hostname:",
            "Host IP (CIDR):",
            "Gateway",
            "DNS:",
        ]
    );
}

#[test]
fn summary_values_come_from_each_entity() {
    let rows = defaulted_options().to_summary();
    assert_eq!(rows[0].value, "ext4");
    assert_eq!(rows[1].value, "/dev/sda");
    assert_eq!(rows[2].value, "Europe/Vienna");
    assert_eq!(rows[3].value, "en_US");
    assert_eq!(rows[4].value, "mail@example.invalid");
    assert_eq!(rows[5].value, "");
    assert_eq!(rows[6].value, "pve.example.invalid");
    assert_eq!(rows[7].value, "0.0.0.0/0");
    assert_eq!(rows[8].value, "0.0.0.0");
    assert_eq!(rows[9].value, "0.0.0.0");
}

#[test]
fn summary_joins_several_selected_disk_paths() {
    // A second layout disk would be joined by a comma and a space;
    // with the single LVM disk the joined value is just its path, and
    // the candidate pool does not influence the row.
    let disk_a = Disk {
        path: String::from("/dev/sda"),
        size: 256 * 1024 * 1024,
    };
    let disk_b = Disk {
        path: String::from("/dev/sdb"),
        size: 512 * 1024 * 1024,
    };
    let mut opts = defaulted_options();
    opts.bootdisk.disks = vec![disk_a, disk_b.clone()];
    opts.bootdisk.advanced = AdvancedBootdiskOptions::Lvm(LvmBootdiskOptions::defaults_from(&disk_b));
    let rows = opts.to_summary();
    assert_eq!(rows[1].value, "/dev/sdb");
}

#[test]
fn cloned_options_are_an_independent_equal_copy() {
    let opts = defaulted_options();
    let copy = opts.clone();
    assert_eq!(copy.timezone.timezone, opts.timezone.timezone);
    assert_eq!(copy.password.email, opts.password.email);
    assert_eq!(copy.network.fqdn, opts.network.fqdn);
    assert_eq!(copy.bootdisk.fstype, opts.bootdisk.fstype);
    assert_eq!(copy.bootdisk.disks.len(), 1);
    assert_eq!(copy.bootdisk.disks[0].path, opts.bootdisk.disks[0].path);
    let rows_a = opts.to_summary();
    let rows_b = copy.to_summary();
    for (a, b) in rows_a.iter().zip(rows_b.iter()) {
        assert_eq!(a.label, b.label);
        assert_eq!(a.value, b.value);
    }
}

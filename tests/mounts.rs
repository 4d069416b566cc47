use proc_mounts::{MountInfo, MountList};

const SAMPLE: &str = r#"sysfs /sys sysfs rw,nosuid,nodev,noexec,relatime 0 0
proc /proc proc rw,nosuid,nodev,noexec,relatime 0 0
udev /dev devtmpfs rw,nosuid,relatime,size=16420480k,nr_inodes=4105120,mode=755 0 0
tmpfs /run tmpfs rw,nosuid,noexec,relatime,size=3291052k,mode=755 0 0
/dev/sda2 / ext4 rw,noatime,errors=remount-ro,data=ordered 0 0
fusectl /sys/fs/fuse/connections fusectl rw,relatime 0 0
/dev/sda1 /boot/efi vfat rw,relatime,fmask=0077,dmask=0077,codepage=437,iocharset=iso8859-1,shortname=mixed,errors=remount-ro 0 0
/dev/sda6 /mnt/data ext4 rw,noatime,data=ordered 0 0"#;

const SAMPLE_SHORT_ROOT: &str = r#"sysfs /sys sysfs rw,nosuid,nodev,noexec,relatime 0 0
proc /proc proc rw,nosuid,nodev,noexec,relatime 0 0
udev /dev devtmpfs rw,nosuid,relatime,size=16420480k,nr_inodes=4105120,mode=755 0 0
tmpfs /run tmpfs rw,nosuid,noexec,relatime,size=3291052k,mode=755 0 0
/dev/sda2 / ext4 rw,noatime,errors=remount-ro,data=ordered
fusectl /sys/fs/fuse/connections fusectl rw,relatime 0 0
/dev/sda1 /boot/efi vfat rw,relatime,fmask=0077,dmask=0077,codepage=437,iocharset=iso8859-1,shortname=mixed,errors=remount-ro 0 0
/dev/sda6 /mnt/data ext4 rw,noatime,data=ordered 0 0"#;

fn parse(sample: &str) -> MountList {
    let lines: Vec<&str> = sample.lines().collect();
    MountList::parse_from(&lines).unwrap()
}

fn efi() -> MountInfo {
    MountInfo {
        source: "/dev/sda1".into(),
        dest: "/boot/efi".into(),
        fstype: "vfat".into(),
        options: vec![
            "rw".into(),
            "relatime".into(),
            "fmask=0077".into(),
            "dmask=0077".into(),
            "codepage=437".into(),
            "iocharset=iso8859-1".into(),
            "shortname=mixed".into(),
            "errors=remount-ro".into(),
        ],
        dump: 0,
        pass: 0,
    }
}

fn all_dests() -> Vec<String> {
    vec![
        "/sys".to_string(),
        "/proc".to_string(),
        "/dev".to_string(),
        "/run".to_string(),
        "/".to_string(),
        "/sys/fs/fuse/connections".to_string(),
        "/boot/efi".to_string(),
        "/mnt/data".to_string(),
    ]
}

#[test]
fn mounts_source_mounted_at() {
    let mounts = parse(SAMPLE);
    assert!(mounts.source_mounted_at("/dev/sda2", "/"));
    assert!(mounts.source_mounted_at("/dev/sda1", "/boot/efi"));
}

#[test]
fn mounts_mounts() {
    let mounts = parse(SAMPLE);
    assert_eq!(mounts.get_mount_by_source("/dev/sda1").unwrap(), &efi());
    let dests: Vec<String> =
        mounts.destination_starts_with("/").iter().map(|m| m.dest.clone()).collect();
    assert_eq!(dests, all_dests());
}

#[test]
fn mod_source_mounted_at() {
    let mounts = parse(SAMPLE_SHORT_ROOT);
    assert!(mounts.source_mounted_at("/dev/sda2", "/"));
    assert!(mounts.source_mounted_at("/dev/sda1", "/boot/efi"));
}

#[test]
fn mod_mounts() {
    let mounts = parse(SAMPLE_SHORT_ROOT);
    assert_eq!(mounts.get_mount_by_source("/dev/sda1").unwrap(), &efi());
    let dests: Vec<String> =
        mounts.destination_starts_with("/").iter().map(|m| m.dest.clone()).collect();
    assert_eq!(dests, all_dests());
}

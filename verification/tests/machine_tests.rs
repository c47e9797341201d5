use zen_engine::machine::{
    best_mount, cpu_brand, device_numbers, path_hints_hdd, replace_chars, rotational_flag, storage_label,
    DiskFacts, MountFacts,
};

#[test]
fn device_numbers_split_major_and_minor() {
    assert_eq!(device_numbers(0x0803), (8, 3));
    // major 259, minor 300 as glibc's makedev lays them out
    assert_eq!(device_numbers(1114924), (259, 300));
    assert_eq!(device_numbers(0), (0, 0));
}

#[test]
fn rotational_flag_reads_a_trimmed_one() {
    assert!(rotational_flag("1\n"));
    assert!(rotational_flag(" 1 "));
    assert!(!rotational_flag("0\n"));
    assert!(!rotational_flag("11"));
    assert!(!rotational_flag(""));
}

#[test]
fn best_mount_takes_the_longest_covering_name() {
    let m = |covers: bool, name_len: usize, hdd: bool| MountFacts { covers, name_len, hdd };
    let mounts = vec![m(true, 1, false), m(true, 5, true), m(false, 9, false), m(true, 5, false)];
    assert_eq!(best_mount(&mounts), Some(1));
    assert_eq!(best_mount(&vec![m(false, 1, true)]), None);
    assert_eq!(best_mount(&Vec::new()), None);
}

#[test]
fn path_hints_match_case_insensitively() {
    assert!(path_hints_hdd("/MNT/HDD/data.csv"));
    assert!(path_hints_hdd("/home/u/Descargas/x"));
    assert!(path_hints_hdd("/run/Ext-Drive"));
    assert!(path_hints_hdd("/media/hdd"));
    assert!(!path_hints_hdd("/home/user/data.csv"));
}

#[test]
fn replace_chars_replaces_left_to_right_without_overlap() {
    let v = |s: &str| s.chars().collect::<Vec<char>>();
    assert_eq!(replace_chars(&v("a   b"), &v("  "), &v(" ")), v("a  b"));
    assert_eq!(replace_chars(&v("aaa"), &v("aa"), &v("b")), v("ba"));
    assert_eq!(replace_chars(&v("xyz"), &v("q"), &v("")), v("xyz"));
}

#[test]
fn cpu_brand_is_cleaned() {
    assert_eq!(cpu_brand(Some("  Intel(R) Core(TM)  i7  ")), "Intel Core i7");
    assert_eq!(cpu_brand(None), "General Purpose Processor");
    assert_eq!(cpu_brand(Some("Unknown")), "Zen-Compatible Processor");
    assert_eq!(cpu_brand(Some("   ")), "Zen-Compatible Processor");
    assert_eq!(cpu_brand(Some("A   B")), "A  B");
}

#[test]
fn storage_label_names_spinning_fixed_disks() {
    let d = |removable: bool, hdd: bool, rotational: bool| DiskFacts { removable, hdd, rotational };
    assert_eq!(storage_label(&Vec::new()), "SSD/M.2");
    assert_eq!(storage_label(&vec![d(true, true, true)]), "SSD/M.2");
    assert_eq!(storage_label(&vec![d(false, false, false), d(false, false, true)]), "HDD");
    assert_eq!(storage_label(&vec![d(false, true, false)]), "HDD");
}

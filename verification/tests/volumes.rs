use spacetree::dto::VolumeDto;
use spacetree::mounts::{mount_entries, sorted_by_path, volume_row};
use spacetree::volume::VolumeInfo;
use spacetree::volumes::{
    drive_entry, drive_label, extended_path, listable_drive_type, names_ntfs, relaunch_outcome, search_pattern,
    whole_volume_letter, Relaunch,
};

fn wide(s: &str) -> Vec<u16> {
    s.encode_utf16().collect()
}

#[test]
fn only_a_bare_drive_is_a_whole_volume() {
    assert_eq!(whole_volume_letter("C:"), Some('C'));
    assert_eq!(whole_volume_letter("d:\\"), Some('d'));
    assert_eq!(whole_volume_letter("E:/"), Some('E'));
    assert_eq!(whole_volume_letter("C:\\Users"), None);
    assert_eq!(whole_volume_letter("1:"), None);
    assert_eq!(whole_volume_letter("C"), None);
    assert_eq!(whole_volume_letter("C;\\"), None);
}

#[test]
fn ntfs_is_recognised_in_any_case() {
    assert!(names_ntfs("NTFS"));
    assert!(names_ntfs("ntfs"));
    assert!(names_ntfs("NtFs"));
    assert!(!names_ntfs("FAT32"));
    assert!(!names_ntfs("NTFS "));
    assert!(!names_ntfs(""));
}

#[test]
fn a_drive_label_always_shows_the_letter() {
    assert_eq!(drive_label("", 'C'), "C:");
    assert_eq!(drive_label("Data", 'D'), "Data (D:)");
}

#[test]
fn plain_drive_paths_get_the_long_path_prefix() {
    assert_eq!(extended_path(&wide("C:\\Users\\a")), wide("\\\\?\\C:\\Users\\a"));
    assert_eq!(extended_path(&wide("z:\\")), wide("\\\\?\\z:\\"));
}

#[test]
fn other_paths_are_left_alone() {
    assert_eq!(extended_path(&wide("\\\\?\\C:\\x")), wide("\\\\?\\C:\\x"));
    assert_eq!(extended_path(&wide("\\\\server\\share")), wide("\\\\server\\share"));
    assert_eq!(extended_path(&wide("relative\\dir")), wide("relative\\dir"));
    assert_eq!(extended_path(&wide("C:")), wide("C:"));
    assert_eq!(extended_path(&wide("C:/forward")), wide("C:/forward"));
    assert_eq!(extended_path(&[]), Vec::<u16>::new());
}

#[test]
fn the_first_unit_is_read_by_its_low_byte() {
    // U+0141 has low byte 0x41, the letter A.
    let mut w = vec![0x0141u16];
    w.extend(wide(":\\x"));
    let mut expected = wide("\\\\?\\");
    expected.extend(&w);
    assert_eq!(extended_path(&w), expected);
}

#[test]
fn the_shell_code_decides_the_relaunch() {
    assert_eq!(relaunch_outcome(42), Relaunch::Started);
    assert_eq!(relaunch_outcome(33), Relaunch::Started);
    assert_eq!(relaunch_outcome(5), Relaunch::Declined);
    assert_eq!(relaunch_outcome(32), Relaunch::Failed);
    assert_eq!(relaunch_outcome(2), Relaunch::Failed);
}

#[test]
fn the_mount_table_leaves_out_virtual_filesystems() {
    let table = "/dev/sda1 / ext4 rw,relatime 0 0\n\
                 proc /proc proc rw 0 0\n\
                 tmpfs /run tmpfs rw 0 0\n\
                 /dev/sdb1 /data xfs rw 0 0\n\
                 short line\n";
    let entries = mount_entries(table);
    let points: Vec<&str> = entries.iter().map(|e| e.mount_point.as_str()).collect();
    assert_eq!(points, vec!["/", "/data"]);
    assert_eq!(entries[0].device, "/dev/sda1");
    assert_eq!(entries[1].fstype, "xfs");
}

fn info(total: u64, free: u64) -> VolumeInfo {
    VolumeInfo {
        label: String::new(),
        filesystem: String::new(),
        total_bytes: total,
        free_bytes: free,
        cluster_bytes: 4096,
    }
}

#[test]
fn the_root_mount_is_labelled_by_its_device() {
    let entries = mount_entries("/dev/sda1 / ext4 rw 0 0\n/dev/sdb1 /data xfs rw 0 0\n");
    let root = volume_row(&entries[0], &info(100, 40)).unwrap();
    assert_eq!(root.label, "/dev/sda1");
    assert_eq!(root.path, "/");
    assert_eq!(root.filesystem, "ext4");
    assert_eq!(root.used_bytes, 60);
    let data = volume_row(&entries[1], &info(100, 40)).unwrap();
    assert_eq!(data.label, "/data");
    assert!(volume_row(&entries[1], &info(0, 0)).is_none());
}

fn row(path: &str, total: u64) -> VolumeDto {
    VolumeDto {
        path: path.to_string(),
        label: path.to_string(),
        filesystem: "ext4".to_string(),
        total_bytes: total,
        used_bytes: 0,
        free_bytes: total,
    }
}

#[test]
fn volume_rows_sort_by_path_and_repeat_paths_collapse() {
    let rows = vec![row("/data", 1), row("/", 2), row("/data", 3), row("/boot", 4)];
    let out = sorted_by_path(rows);
    let summary: Vec<(String, u64)> = out.into_iter().map(|d| (d.path, d.total_bytes)).collect();
    assert_eq!(
        summary,
        vec![("/".to_string(), 2), ("/boot".to_string(), 4), ("/data".to_string(), 1)]
    );
}

#[test]
fn a_search_pattern_lists_everything_in_the_folder() {
    let mut expected = wide("\\\\?\\C:\\Users\\*");
    expected.push(0);
    assert_eq!(search_pattern(&wide("C:\\Users")), expected);
    let mut expected = wide("\\\\?\\C:\\*");
    expected.push(0);
    assert_eq!(search_pattern(&wide("C:\\")), expected);
    let mut expected = wide("rel\\*");
    expected.push(0);
    assert_eq!(search_pattern(&wide("rel")), expected);
}

#[test]
fn network_drives_are_not_listed_but_optical_ones_are() {
    assert!(!listable_drive_type(4));
    assert!(listable_drive_type(5), "an optical drive with media has a capacity and is listed");
    assert!(listable_drive_type(3), "a fixed disk");
    assert!(listable_drive_type(2), "a removable disk");
}

#[test]
fn a_drive_entry_is_rooted_at_its_letter_and_labelled_with_it() {
    let e = drive_entry('D', "Data", "NTFS".to_string(), 1000, 400, Some((8, 512))).unwrap();
    assert_eq!(e.path, "D:\\");
    assert_eq!(e.info.label, "Data (D:)");
    assert_eq!(e.info.filesystem, "NTFS");
    assert_eq!(e.info.cluster_bytes, 4096);
    let row = e.to_dto();
    assert_eq!(row.path, "D:\\");
    assert_eq!(row.label, "Data (D:)");
    assert_eq!(row.used_bytes, 600);
    assert_eq!(row.free_bytes, 400);
}

#[test]
fn a_drive_without_media_or_geometry_is_handled() {
    assert!(drive_entry('E', "", "FAT32".to_string(), 0, 0, None).is_none());
    let e = drive_entry('C', "", "NTFS".to_string(), 10, 1, None).unwrap();
    assert_eq!(e.info.label, "C:");
    assert_eq!(e.info.cluster_bytes, 0);
    let big = drive_entry('C', "", "NTFS".to_string(), 10, 1, Some((u32::MAX, 2))).unwrap();
    assert_eq!(big.info.cluster_bytes, u32::MAX, "saturates");
}

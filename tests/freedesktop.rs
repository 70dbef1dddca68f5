use trash::freedesktop::{
    descriptor_fields, encoded_field, item_from_parts,
    check_twins, content_path_of, decimal_string, decode_path, descriptor_text, encode_path,
    find_twin, folder_validity, move_step, plan_mount_trash, MoveAction, MoveEvent, MountTrashPlan, format_deletion_date, home_trash, in_trash_name, info_file_name,
    item_from_descriptor, join_path, restore_collision, select_topdir, shared_trash_dir,
    shared_user_trash_dir, user_trash_dir, TrashValidity,
};
use trash::{Error, TrashContext, TrashItem, TrashItemMetadata, TrashItemSize};

fn item(id: &str, name: &str, parent: &str) -> TrashItem {
    TrashItem { id: id.to_string(), name: name.to_string(), original_parent: parent.to_string(), time_deleted: 0 }
}

#[test]
fn candidate_names_count_up_from_two() {
    assert_eq!(in_trash_name("a.txt", 1), "a.txt");
    assert_eq!(in_trash_name("a.txt", 2), "a.txt.2");
    assert_eq!(in_trash_name("a.txt", 10), "a.txt.10");
    assert_eq!(info_file_name("a.txt.2"), "a.txt.2.trashinfo");
    assert_eq!(decimal_string(0), "0");
    assert_eq!(decimal_string(18446744073709551615), "18446744073709551615");
}

#[test]
fn names_for_many_attempts_are_distinct() {
    let names: Vec<String> = (1..=50).map(|n| in_trash_name("f", n)).collect();
    for i in 0..names.len() {
        for j in 0..i {
            assert_ne!(names[i], names[j]);
        }
    }
}

#[test]
fn joins_paths() {
    assert_eq!(join_path("/home/u", "x"), "/home/u/x");
    assert_eq!(join_path("/", "x"), "/x");
    assert_eq!(join_path("/home/u/", "x"), "/home/u/x");
}

#[test]
fn home_trash_location() {
    assert_eq!(home_trash(Some("/data"), Some("/home/u")).unwrap(), "/data/Trash");
    assert_eq!(home_trash(Some(""), Some("/home/u")).unwrap(), "/home/u/.local/share/Trash");
    assert_eq!(home_trash(None, Some("/home/u")).unwrap(), "/home/u/.local/share/Trash");
    assert!(matches!(home_trash(None, Some("")), Err(Error::EnvironmentMissing)));
    assert!(matches!(home_trash(None, None), Err(Error::EnvironmentMissing)));
}

#[test]
fn mount_trash_locations() {
    assert_eq!(shared_trash_dir("/mnt"), "/mnt/.Trash");
    assert_eq!(shared_user_trash_dir("/mnt", 1000), "/mnt/.Trash/1000");
    assert_eq!(user_trash_dir("/mnt", 1000), "/mnt/.Trash-1000");
}

#[test]
fn shared_trash_validity() {
    assert_eq!(folder_validity(true, 0o1777), TrashValidity::InvalidSymlink);
    assert_eq!(folder_validity(false, 0o755), TrashValidity::InvalidNotSticky);
    assert_eq!(folder_validity(false, 0o1777), TrashValidity::Valid);
}

#[test]
fn picks_longest_mount() {
    let mounts: Vec<String> = vec!["/".into(), "/mnt".into(), "/mnt/data".into(), "/mn".into()];
    assert_eq!(select_topdir("/mnt/data/f", &mounts), Some(2));
    assert_eq!(select_topdir("/mnt/other", &mounts), Some(1));
    assert_eq!(select_topdir("/home/f", &mounts), None);
    let only_root: Vec<String> = vec!["/".into()];
    assert_eq!(select_topdir("/mnt/f", &only_root), None);
    let mntx: Vec<String> = vec!["/mnt".into()];
    assert_eq!(select_topdir("/mntx/f", &mntx), None);
}

#[test]
fn encodes_path_fields() {
    assert_eq!(encode_path("/home/u/a b.txt", "/"), "/home/u/a%20b.txt");
    assert_eq!(encode_path("/mnt/data/dir/x y", "/mnt/data"), "dir/x%20y");
}

#[test]
fn decodes_path_fields() {
    assert_eq!(decode_path("/home/u/a%20b.txt", "/").unwrap(), "/home/u/a b.txt");
    assert_eq!(decode_path("dir/x%20y", "/mnt/data").unwrap(), "/mnt/data/dir/x y");
}

#[test]
fn path_fields_round_trip() {
    for (path, topdir) in [
        ("/home/u/a b.txt", "/"),
        ("/home/u/100%.txt", "/"),
        ("/mnt/data/dir/x y", "/mnt/data"),
        ("/mnt/data/é", "/mnt/data"),
        ("/mnt/my disk/f g", "/mnt/my disk"),
        ("/mnt/a%b#c?d/x%y", "/mnt/a%b#c?d"),
        ("/x/note:", "/"),
        ("/mnt/data/C|", "/mnt/data"),
    ] {
        let field = encode_path(path, topdir);
        assert_eq!(decode_path(&field, topdir).unwrap(), path);
    }
}

#[test]
fn writes_descriptor_and_date() {
    assert_eq!(
        descriptor_text("/a", "2024-01-02T03:04:05"),
        "[Trash Info]\nPath=/a\nDeletionDate=2024-01-02T03:04:05\n"
    );
    assert_eq!(format_deletion_date(2024, 1, 2, 3, 4, 5), "2024-01-02T03:04:05");
    assert_eq!(format_deletion_date(987, 12, 31, 23, 59, 0), "0987-12-31T23:59:00");
}

#[test]
fn reads_descriptor() {
    let text = descriptor_text("/home/u/a%20b.txt", "2024-01-02T03:04:05");
    let it = item_from_descriptor("/h/Trash/info/a b.txt.trashinfo", &text, "/").unwrap();
    assert_eq!(it.id, "/h/Trash/info/a b.txt.trashinfo");
    assert_eq!(it.name, "a b.txt");
    assert_eq!(it.original_parent, "/home/u");
    assert_eq!(it.time_deleted, 1704164645);
    assert_eq!(it.original_path(), "/home/u/a b.txt");
}

#[test]
fn reads_relative_descriptor_with_crlf_and_spaces() {
    let text = "[Trash Info]\r\nPath = dir/x%20y \r\nDeletionDate=2023-12-31T23:00:00\r\n";
    let it = item_from_descriptor("/mnt/data/.Trash-1000/info/x y.trashinfo", text, "/mnt/data").unwrap();
    assert_eq!(it.name, "x y");
    assert_eq!(it.original_parent, "/mnt/data/dir");
    assert_eq!(it.time_deleted, 1704063600);
}

#[test]
fn skips_incomplete_descriptors() {
    assert!(item_from_descriptor("/t/info/a.trashinfo", "[Trash Info]\nPath=/a\n", "/").is_none());
    assert!(item_from_descriptor("/t/info/a.trashinfo", "[Trash Info]\nDeletionDate=2024-01-02T03:04:05\n", "/").is_none());
    assert!(item_from_descriptor("/t/info/a.trashinfo", "", "/").is_none());
    assert!(item_from_descriptor("/t/info/a.trashinfo", "[Trash Info]\nPath=/a\nDeletionDate=yesterday\n", "/").is_none());
    // The header line is skipped, not read.
    assert!(item_from_descriptor("/t/info/a.trashinfo", "Path=/a\nDeletionDate=2024-01-02T03:04:05\n", "/").is_none());
}

#[test]
fn recreated_file_gets_second_descriptor() {
    let first = descriptor_text(&encode_path("/w/a.txt", "/"), "2024-01-02T03:04:05");
    let second = descriptor_text(&encode_path("/w/a.txt", "/"), "2024-01-02T03:04:06");
    let id1 = format!("/h/Trash/info/{}", info_file_name(&in_trash_name("a.txt", 1)));
    let id2 = format!("/h/Trash/info/{}", info_file_name(&in_trash_name("a.txt", 2)));
    assert_eq!(id1, "/h/Trash/info/a.txt.trashinfo");
    assert_eq!(id2, "/h/Trash/info/a.txt.2.trashinfo");
    let a = item_from_descriptor(&id1, &first, "/").unwrap();
    let b = item_from_descriptor(&id2, &second, "/").unwrap();
    assert_eq!(a.name, "a.txt");
    assert_eq!(b.name, "a.txt");
    assert_ne!(a, b);
    assert_ne!(a.time_deleted, b.time_deleted);
    assert_eq!(content_path_of(&id2).unwrap(), "/h/Trash/files/a.txt.2");
}

#[test]
fn content_paths() {
    assert_eq!(content_path_of("/h/Trash/info/dir.trashinfo").unwrap(), "/h/Trash/files/dir");
    assert_eq!(content_path_of("/h/Trash/info/.hidden").unwrap(), "/h/Trash/files/.hidden");
    assert!(content_path_of("x.trashinfo").is_none());
    assert_eq!(content_path_of("/x.trashinfo").unwrap(), "/files/x");
}

#[test]
fn twins_refuse_restore_untouched() {
    let items = vec![item("/t/info/1", "a", "/w"), item("/t/info/2", "b", "/w"), item("/t/info/3", "a", "/w/")];
    assert_eq!(find_twin(&items), Some(2));
    match check_twins(items.clone()) {
        Err(Error::RestoreTwins { path, items: all }) => {
            assert_eq!(path, "/w/a");
            assert_eq!(all.len(), 3);
            assert_eq!(all[0].id, "/t/info/1");
            assert_eq!(all[2].id, "/t/info/3");
        }
        _ => panic!("twins not found"),
    }
    let distinct = vec![item("/t/info/1", "a", "/w"), item("/t/info/2", "b", "/w")];
    assert_eq!(find_twin(&distinct), None);
    assert_eq!(check_twins(distinct).unwrap().len(), 2);
}

#[test]
fn collision_keeps_the_rest() {
    let items = vec![item("/t/info/1", "a", "/w"), item("/t/info/2", "b", "/w"), item("/t/info/3", "c", "/w")];
    match restore_collision(items, 1) {
        Error::RestoreCollision { path, remaining_items } => {
            assert_eq!(path, "/w/b");
            assert_eq!(remaining_items.len(), 2);
            assert_eq!(remaining_items[0].id, "/t/info/2");
            assert_eq!(remaining_items[1].id, "/t/info/3");
        }
        _ => panic!("wrong error"),
    }
}

#[test]
fn item_sizes() {
    assert_eq!(TrashItemSize::Bytes(7).size(), Some(7));
    assert_eq!(TrashItemSize::Bytes(7).entries(), None);
    assert_eq!(TrashItemSize::Entries(3).entries(), Some(3));
    assert_eq!(TrashItemSize::Entries(3).size(), None);
    let m = TrashItemMetadata { size: TrashItemSize::Entries(2) };
    assert_eq!(m.size.entries(), Some(2));
    let _ = TrashContext::new();
}

#[test]
fn relative_fields_keep_the_mount_directory() {
    assert_eq!(encode_path("/mnt/my disk/f g", "/mnt/my disk"), "f%20g");
    assert_eq!(decode_path("x%20y", "/mnt/a%41b#c?d").unwrap(), "/mnt/a%41b#c?d/x y");
    let text = "[Trash Info]\nPath=x%20y\nDeletionDate=2024-01-02T03:04:05\n";
    let it = item_from_descriptor("/mnt/a%41b/.Trash-1/info/x y.trashinfo", text, "/mnt/a%41b").unwrap();
    assert_eq!(it.original_parent, "/mnt/a%41b");
    assert_eq!(it.name, "x y");
}

#[test]
fn mount_trash_plans() {
    let valid = Some(TrashValidity::Valid);
    assert_eq!(
        plan_mount_trash(valid, true, true, true, true),
        MountTrashPlan { use_shared: true, use_own: false, create_own: false }
    );
    assert_eq!(
        plan_mount_trash(valid, true, true, false, false),
        MountTrashPlan { use_shared: true, use_own: true, create_own: false }
    );
    assert_eq!(
        plan_mount_trash(Some(TrashValidity::InvalidNotSticky), true, false, true, true),
        MountTrashPlan { use_shared: false, use_own: true, create_own: true }
    );
    assert_eq!(
        plan_mount_trash(None, false, false, false, false),
        MountTrashPlan { use_shared: false, use_own: false, create_own: false }
    );
}

#[test]
fn move_steps() {
    assert_eq!(move_step(1, MoveEvent::DescriptorTaken), MoveAction::TryName(2));
    assert_eq!(move_step(2, MoveEvent::PlaceholderTaken), MoveAction::RemoveDescriptorThenTry(3));
    assert_eq!(
        move_step(1, MoveEvent::DescriptorFailed),
        MoveAction::Fail { remove_descriptor: false, at_descriptor: true }
    );
    assert_eq!(
        move_step(1, MoveEvent::ContentFailed),
        MoveAction::Fail { remove_descriptor: true, at_descriptor: false }
    );
    assert_eq!(move_step(5, MoveEvent::Moved), MoveAction::Done);
}

#[test]
fn names_ending_in_colon_are_listed() {
    let field = encode_path("/x/note:", "/");
    let text = descriptor_text(&field, "2024-01-02T03:04:05");
    let it = item_from_descriptor("/h/Trash/info/note:.trashinfo", &text, "/").unwrap();
    assert_eq!(it.name, "note:");
    assert_eq!(it.original_parent, "/x");
    assert_eq!(it.original_path(), "/x/note:");
    let bar = descriptor_text(&encode_path("/x/a|", "/"), "2024-01-02T03:04:05");
    assert_eq!(item_from_descriptor("/h/Trash/info/a|.trashinfo", &bar, "/").unwrap().name, "a|");
}

#[test]
fn encoded_fields_from_url_paths() {
    assert_eq!(encoded_field("/home/u/a%20b", "/", true), "/home/u/a%20b");
    assert_eq!(encoded_field("/mnt/data/dir/x", "/mnt/data", false), "dir/x");
    assert_eq!(encoded_field("/mnt/data//x", "/mnt/data", false), "x");
    assert_eq!(encoded_field("/a", "/mnt/data", false), "");
}

#[test]
fn fields_of_descriptor_text() {
    let (p, d) = descriptor_fields("[Trash Info]\nPath=/a\nDeletionDate=2024\nPath=/b=c\n");
    assert_eq!(p.unwrap(), "/b=c");
    assert_eq!(d.unwrap(), "2024");
    let (p, d) = descriptor_fields("Path=/a\n");
    assert!(p.is_none() && d.is_none());
    let (p, d) = descriptor_fields("");
    assert!(p.is_none() && d.is_none());
}

#[test]
fn items_from_decoded_paths() {
    let it = item_from_parts("/t/info/x.trashinfo", "/w/x/", 7).unwrap();
    assert_eq!(it.name, "x");
    assert_eq!(it.original_parent, "/w");
    assert_eq!(it.time_deleted, 7);
    let top = item_from_parts("/t/info/y.trashinfo", "/y", 1).unwrap();
    assert_eq!(top.original_parent, "/");
    assert!(item_from_parts("/t/info/r.trashinfo", "/", 1).is_none());
    assert!(item_from_parts("/t/info/r.trashinfo", "rel", 1).is_none());
}

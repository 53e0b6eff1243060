use deix::fileman::{on_key, FileManager, FmAction};
use deix::fs::{self, FileMeta, FsState, Permissions, PERM_R, PERM_RW, PERM_RWX};
use deix::ext2;
use deix::ramdisk::{RamDisk, RAMDISK_SIZE};

const DB: &str = "# name|type|size|owner|group|perms|flags|created\n\
readme.txt|f|120|root|root|4|sys|1700000000\n\
Music|d|0|alice|users|7|-|1700000500\n\
notes.md|f|2048|alice|users|6|-|1700000900\n\
broken|line\n\
\n\
apps|d|0|root|root|5|sys\n\
notes.md|f|4096|alice|users|6|-|1700001000\n";

fn names(metas: &[FileMeta]) -> Vec<&str> {
    metas.iter().map(|m| m.name.as_str()).collect()
}

fn loaded_state() -> FsState {
    let mut st = FsState { db: Vec::new(), cur_user: "alice".to_string() };
    fs::load_meta_db_from(&mut st, DB.as_bytes());
    st
}

#[test]
fn permission_bits() {
    let p = Permissions(PERM_RW);
    assert_eq!(p.as_octal(), 6);
    assert!(p.can_read(true) && p.can_write(false));
    let r = Permissions(PERM_R);
    assert!(r.can_read(false) && !r.can_write(true));
    assert_eq!(Permissions(PERM_RWX).as_octal(), 7);
    assert!(!Permissions(1).can_read(true));
}

#[test]
fn new_file_and_directory_records() {
    let f = FileMeta::new_file("a.txt", "bob", 1234);
    assert_eq!((f.name.as_str(), f.is_dir, f.size, f.owner.as_str(), f.group.as_str()), ("a.txt", false, 0, "bob", "users"));
    assert_eq!((f.perms, f.system, f.created_at), (Permissions(6), false, 1234));
    let d = FileMeta::new_dir("docs", "bob", 99);
    assert!(d.is_dir);
    assert_eq!(d.perms, Permissions(7));
    assert_eq!(d.created_at, 99);
}

#[test]
fn meta_table_parsing_sorts_and_replaces() {
    let st = loaded_state();
    assert_eq!(names(&st.db), vec!["Music", "apps", "notes.md", "readme.txt"]);
    let notes = &st.db[2];
    assert_eq!(notes.size, 4096);
    assert_eq!(notes.created_at, 1700001000);
    let apps = &st.db[1];
    assert!(apps.is_dir && apps.system);
    assert_eq!(apps.perms, Permissions(5));
    assert_eq!(apps.created_at, 0);
    let readme = &st.db[3];
    assert_eq!((readme.owner.as_str(), readme.group.as_str(), readme.size), ("root", "root", 120));
    assert!(readme.system && !readme.is_dir);
    assert_eq!(st.cur_user, "alice");
    assert_eq!(names(&fs::list_dir(&st)), names(&st.db));
}

#[test]
fn meta_table_bad_numbers_and_invalid_utf8() {
    let mut st = loaded_state();
    fs::load_meta_db_from(&mut st, &[0xFF, 0xFE, 0x00]);
    assert_eq!(st.db.len(), 4);
    fs::load_meta_db_from(&mut st, b"x|f|lots|u|g|999|-\n");
    assert_eq!(st.db.len(), 1);
    assert_eq!(st.db[0].size, 0);
    assert_eq!(st.db[0].perms, Permissions(0));
    fs::reset_fs_state(&mut st);
    assert!(st.db.is_empty());
    assert!(st.cur_user.is_empty());
}

#[test]
fn meta_table_from_ext2_volume() {
    let mut disk = RamDisk::new(vec![0u8; RAMDISK_SIZE]);
    let mut st = FsState { db: Vec::new(), cur_user: String::new() };
    fs::load_meta_db(&mut st, &disk);
    assert!(st.db.is_empty());
    ext2::format(&mut disk, 0).unwrap();
    ext2::write_file(&mut disk, "FILES.DB", DB.as_bytes(), 0).unwrap();
    fs::load_meta_db(&mut st, &disk);
    assert_eq!(names(&st.db), vec!["Music", "apps", "notes.md", "readme.txt"]);
}

#[test]
fn file_manager_sort_orders() {
    let st = loaded_state();
    let mut fm = FileManager::new();
    assert_eq!(fm.current_path, "/");
    assert!(fm.dirty);
    fm.refresh(&st);
    assert!(!fm.dirty);
    let by_name: Vec<&str> = fm.entries.iter().map(|e| e.meta.name.as_str()).collect();
    assert_eq!(by_name, vec!["apps", "Music", "notes.md", "readme.txt"]);
    assert!(fm.entries.iter().all(|e| !e.selected));
    fm.sort_by = 1;
    fm.refresh(&st);
    let by_size: Vec<&str> = fm.entries.iter().map(|e| e.meta.name.as_str()).collect();
    assert_eq!(by_size, vec!["notes.md", "readme.txt", "Music", "apps"]);
    fm.sort_by = 2;
    fm.refresh(&st);
    let by_date: Vec<&str> = fm.entries.iter().map(|e| e.meta.name.as_str()).collect();
    assert_eq!(by_date, vec!["notes.md", "Music", "readme.txt", "apps"]);
    fm.sort_by = 9;
    fm.refresh(&st);
    let kept: Vec<&str> = fm.entries.iter().map(|e| e.meta.name.as_str()).collect();
    assert_eq!(kept, vec!["Music", "apps", "notes.md", "readme.txt"]);
}

#[test]
fn file_manager_navigation() {
    let mut fm = FileManager::new();
    fm.current_idx = 3;
    fm.dirty = false;
    fm.enter_directory("home");
    assert_eq!(fm.current_path, "/home/");
    assert_eq!(fm.current_idx, 0);
    assert!(fm.dirty);
    fm.enter_directory("alice");
    assert_eq!(fm.current_path, "/home/alice/");
    fm.go_up();
    assert_eq!(fm.current_path, "/home/");
    fm.go_up();
    assert_eq!(fm.current_path, "/");
    fm.current_idx = 5;
    fm.dirty = false;
    fm.go_up();
    assert_eq!(fm.current_path, "/");
    assert_eq!(fm.current_idx, 5);
    assert!(!fm.dirty);
    fm.current_path = "/a/b/c".to_string();
    fm.go_up();
    assert_eq!(fm.current_path, "/a/b/");
    assert_eq!(fm.current_idx, 0);
    fm.go_up();
    assert_eq!(fm.current_path, "/a/");
    fm.current_path = "//x//y//".to_string();
    fm.go_up();
    assert_eq!(fm.current_path, "/x//");
}

#[test]
fn file_manager_keys() {
    let st = loaded_state();
    let mut fm = FileManager::new();
    fm.refresh(&st);
    assert!(matches!(on_key(&mut fm, &st, deix::keyboard::ARROW_UP), FmAction::Stay));
    assert_eq!(fm.current_idx, 0);
    assert!(matches!(on_key(&mut fm, &st, deix::keyboard::ARROW_DOWN), FmAction::Stay));
    assert_eq!(fm.current_idx, 1);
    let name = fm.entries[1].meta.name.clone();
    let is_dir = fm.entries[1].meta.is_dir;
    match on_key(&mut fm, &st, 0x38) {
        FmAction::ConfirmDelete(n) => assert_eq!(n, name),
        _ => panic!("expected a delete confirmation"),
    }
    match on_key(&mut fm, &st, b'\r') {
        FmAction::OpenFile(n) => {
            assert!(!is_dir);
            assert_eq!(n, name);
        }
        FmAction::Refreshed => {
            assert!(is_dir);
            assert_eq!(fm.current_path, format!("/{}/", name));
            assert_eq!(fm.current_idx, 0);
        }
        _ => panic!("unexpected action"),
    }
    assert!(matches!(on_key(&mut fm, &st, b's'), FmAction::Refreshed));
    assert!(matches!(on_key(&mut fm, &st, b'7'), FmAction::PromptMkdir));
    assert!(matches!(on_key(&mut fm, &st, b't'), FmAction::PromptCreate));
    assert!(matches!(on_key(&mut fm, &st, b'x'), FmAction::Stay));
    assert!(matches!(on_key(&mut fm, &st, b'q'), FmAction::Quit));
}

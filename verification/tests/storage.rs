use deix::ramdisk::{RamDisk, RAMDISK_SIZE};
use deix::ext2;
use deix::fat16;
use deix::ota_store;
use deix::luks;

fn blank_disk() -> RamDisk {
    RamDisk::new(vec![0u8; RAMDISK_SIZE])
}

#[test]
fn ramdisk_init_checks_mbr_signature() {
    let mut img = vec![0u8; RAMDISK_SIZE];
    let mut d = RamDisk::new(img.clone());
    assert!(!d.init());
    assert!(!d.is_active());
    img[510] = 0x55;
    img[511] = 0xAA;
    let mut d2 = RamDisk::new(img);
    assert!(d2.init());
    assert!(d2.is_active());
}

#[test]
fn ramdisk_sector_roundtrip_and_bounds() {
    let mut d = blank_disk();
    let data: Vec<u8> = (0..512u32).map(|i| (i % 251) as u8).collect();
    assert_eq!(d.write_sector(7, &data), Ok(()));
    let mut buf = vec![0u8; 512];
    assert_eq!(d.read_sector(7, &mut buf), Ok(()));
    assert_eq!(buf, data);
    assert_eq!(d.read_sector(20480, &mut buf), Err(()));
    assert_eq!(d.write_sector(20480, &data), Err(()));
    let short = vec![0u8; 100];
    assert_eq!(d.write_sector(1, &short), Err(()));
}

#[test]
fn ramdisk_multi_sector_roundtrip() {
    let mut d = blank_disk();
    let data: Vec<u8> = (0..1536u32).map(|i| (i % 7) as u8).collect();
    assert_eq!(d.write_sectors(100, 3, &data), Ok(()));
    let mut buf = vec![0u8; 1536];
    assert_eq!(d.read_sectors(100, 3, &mut buf), Ok(()));
    assert_eq!(buf, data);
    assert_eq!(d.read_sectors(20479, 2, &mut buf), Err(()));
}

#[test]
fn ext2_requires_format() {
    let mut d = blank_disk();
    assert!(!ext2::is_formatted(&d));
    assert!(matches!(ext2::list_root(&d), Err(ext2::Ext2Error::NotFormatted)));
    assert!(matches!(ext2::read_file(&d, "A.TXT"), Err(ext2::Ext2Error::NotFormatted)));
    assert!(matches!(ext2::write_file(&mut d, "A.TXT", b"x", 0), Err(ext2::Ext2Error::NotFormatted)));
}

#[test]
fn ext2_format_gives_empty_root() {
    let mut d = blank_disk();
    assert!(ext2::format(&mut d, 1234).is_ok());
    assert!(ext2::is_formatted(&d));
    let entries = ext2::list_root(&d).unwrap();
    assert!(entries.is_empty());
}

#[test]
fn ext2_write_then_read_small_file() {
    let mut d = blank_disk();
    ext2::format(&mut d, 1).unwrap();
    ext2::write_file(&mut d, "notes.txt", b"hello ext2", 5).unwrap();
    assert_eq!(ext2::read_file(&d, "notes.txt").unwrap(), b"hello ext2".to_vec());
    let entries = ext2::list_root(&d).unwrap();
    assert_eq!(entries.len(), 1);
    assert_eq!(entries[0].name, "notes.txt");
    assert_eq!(entries[0].size, 10);
    assert!(!entries[0].is_directory);
}

#[test]
fn ext2_write_then_read_file_with_indirect_block() {
    let mut d = blank_disk();
    ext2::format(&mut d, 1).unwrap();
    let data: Vec<u8> = (0..20000u32).map(|i| (i * 7 % 256) as u8).collect();
    ext2::write_file(&mut d, "big.bin", &data, 5).unwrap();
    assert_eq!(ext2::read_file(&d, "big.bin").unwrap(), data);
}

#[test]
fn ext2_overwrite_and_delete() {
    let mut d = blank_disk();
    ext2::format(&mut d, 1).unwrap();
    ext2::write_file(&mut d, "a.txt", b"first", 1).unwrap();
    ext2::write_file(&mut d, "a.txt", b"second version", 2).unwrap();
    assert_eq!(ext2::read_file(&d, "a.txt").unwrap(), b"second version".to_vec());
    ext2::delete_file(&mut d, "a.txt", 3).unwrap();
    assert!(matches!(ext2::read_file(&d, "a.txt"), Err(ext2::Ext2Error::FileNotFound)));
    assert!(matches!(ext2::delete_file(&mut d, "a.txt", 4), Err(ext2::Ext2Error::FileNotFound)));
}

#[test]
fn ext2_rejects_bad_names() {
    let mut d = blank_disk();
    ext2::format(&mut d, 1).unwrap();
    assert!(matches!(ext2::write_file(&mut d, "a/b", b"x", 1), Err(ext2::Ext2Error::InvalidName)));
    assert!(matches!(ext2::write_file(&mut d, "", b"x", 1), Err(ext2::Ext2Error::InvalidName)));
    let long = "n".repeat(56);
    assert!(matches!(ext2::write_file(&mut d, &long, b"x", 1), Err(ext2::Ext2Error::InvalidName)));
}

#[test]
fn ext2_too_large_file_is_refused() {
    let mut d = blank_disk();
    ext2::format(&mut d, 1).unwrap();
    let data = vec![1u8; 268 * 1024 + 1];
    assert!(matches!(ext2::write_file(&mut d, "huge", &data, 1), Err(ext2::Ext2Error::FileTooLarge)));
}

#[test]
fn ext2_paths_and_directories() {
    let mut d = blank_disk();
    ext2::format(&mut d, 1).unwrap();
    ext2::write_file_path(&mut d, "/users/ivan/notes.txt", b"path data", 1).unwrap();
    assert_eq!(ext2::read_file_path(&d, "/users/ivan/notes.txt").unwrap(), b"path data".to_vec());
    let root = ext2::list_root(&d).unwrap();
    assert_eq!(root.len(), 1);
    assert_eq!(root[0].name, "users");
    assert!(root[0].is_directory);
    let listing = ext2::list_dir_path(&d, "/users/ivan").unwrap();
    assert_eq!(listing.len(), 1);
    assert_eq!(listing[0].name, "notes.txt");
    assert_eq!(listing[0].size, 9);
    let ino = ext2::mkdir_p(&mut d, "/users/ivan").unwrap();
    assert_eq!(ext2::mkdir(&mut d, "/users/ivan").unwrap(), ino);
    ext2::delete_file_path(&mut d, "/users/ivan/notes.txt", 2).unwrap();
    assert!(matches!(ext2::read_file_path(&d, "/users/ivan/notes.txt"), Err(ext2::Ext2Error::FileNotFound)));
    assert!(matches!(ext2::read_file_path(&d, "/nope/x"), Err(ext2::Ext2Error::FileNotFound)));
    assert!(matches!(ext2::read_file_path(&d, "///"), Err(ext2::Ext2Error::InvalidName)));
}

#[test]
fn ext2_path_depth_limit() {
    let mut d = blank_disk();
    ext2::format(&mut d, 1).unwrap();
    let deep = "/a".repeat(17);
    assert!(matches!(ext2::write_file_path(&mut d, &deep, b"x", 1), Err(ext2::Ext2Error::InvalidName)));
    let (dir, last) = ext2::resolve_parent(&mut d, "/x/y/z.txt", true).unwrap();
    assert_eq!(last, "z.txt");
    assert!(dir != ext2::ROOT_INO);
}

#[test]
fn fat16_format_and_empty_listing() {
    let mut d = blank_disk();
    assert!(!fat16::is_formatted(&d));
    assert!(matches!(fat16::list_root(&d), Err(fat16::FatError::NotFormatted)));
    assert_eq!(fat16::format(&mut d), Ok(()));
    assert!(fat16::is_formatted(&d));
    assert!(fat16::list_root(&d).unwrap().is_empty());
}

#[test]
fn fat16_write_read_list() {
    let mut d = blank_disk();
    fat16::format(&mut d).unwrap();
    let data: Vec<u8> = (0..1300u32).map(|i| (i % 256) as u8).collect();
    fat16::write_file(&mut d, "hello.txt", &data).unwrap();
    assert_eq!(fat16::read_file(&d, "HELLO.TXT").unwrap(), data);
    let list = fat16::list_root(&d).unwrap();
    assert_eq!(list.len(), 1);
    assert_eq!(list[0].name, "HELLO.TXT");
    assert_eq!(list[0].size, 1300);
    assert!(!list[0].is_directory);
}

#[test]
fn fat16_short_names() {
    let mut d = blank_disk();
    fat16::format(&mut d).unwrap();
    assert_eq!(fat16::write_file(&mut d, "toolongname.txt", b"x"), Err(fat16::FatError::InvalidName));
    assert_eq!(fat16::write_file(&mut d, "a.text", b"x"), Err(fat16::FatError::InvalidName));
    assert_eq!(fat16::write_file(&mut d, ".txt", b"x"), Err(fat16::FatError::InvalidName));
    fat16::write_file(&mut d, "readme", b"plain").unwrap();
    assert_eq!(fat16::list_root(&d).unwrap()[0].name, "README");
}

#[test]
fn fat16_overwrite_and_delete() {
    let mut d = blank_disk();
    fat16::format(&mut d).unwrap();
    fat16::write_file(&mut d, "a.bin", b"one").unwrap();
    fat16::write_file(&mut d, "a.bin", b"two two").unwrap();
    assert_eq!(fat16::read_file(&d, "a.bin").unwrap(), b"two two".to_vec());
    assert_eq!(fat16::list_root(&d).unwrap().len(), 1);
    fat16::delete_file(&mut d, "a.bin").unwrap();
    assert_eq!(fat16::read_file(&d, "a.bin"), Err(fat16::FatError::FileNotFound));
    assert_eq!(fat16::delete_file(&mut d, "a.bin"), Err(fat16::FatError::FileNotFound));
    assert!(fat16::list_root(&d).unwrap().is_empty());
}

#[test]
fn fat16_empty_file() {
    let mut d = blank_disk();
    fat16::format(&mut d).unwrap();
    fat16::write_file(&mut d, "empty.dat", b"").unwrap();
    assert_eq!(fat16::read_file(&d, "empty.dat").unwrap(), Vec::<u8>::new());
}

#[test]
fn ota_store_roundtrip() {
    let mut d = blank_disk();
    assert!(!ota_store::has_file(&d, "TEST.OTA"));
    let payload: Vec<u8> = (0..3000u32).map(|i| (i % 13) as u8).collect();
    ota_store::store_file(&mut d, "TEST.OTA", &payload).unwrap();
    assert!(ota_store::has_file(&d, "TEST.OTA"));
    assert_eq!(ota_store::load_file(&d, "TEST.OTA").unwrap(), payload);
    assert!(!ota_store::has_file(&d, "OTHER.OTA"));
    assert!(ota_store::load_file(&d, "OTHER.OTA").is_err());
}

#[test]
fn luks_create_then_unlock() {
    let mut d = blank_disk();
    assert!(!luks::header_exists(&d));
    let mk = [7u8; 32];
    let salt = [3u8; 16];
    assert_eq!(luks::create(&mut d, "secret", 1000, mk, salt), Ok(mk));
    assert!(luks::header_exists(&d));
    let h = luks::read_header(&d).unwrap();
    assert_eq!(h.iterations, 1000);
    assert!(h.slot_used(0));
    assert!(!h.slot_used(1));
    assert!(!h.slot_used(8));
    assert_eq!(h.used_slots(), 1);
    assert_eq!(luks::unlock(&d, "secret"), Some((mk, 0)));
    assert_eq!(luks::unlock(&d, "wrong"), None);
}

#[test]
fn luks_add_and_remove_passwords() {
    let mut d = blank_disk();
    let mk = [0x5Au8; 32];
    luks::create(&mut d, "admin", 1000, mk, [1u8; 16]).unwrap();
    assert_eq!(luks::add_password(&mut d, "bad", "user", [2u8; 16]), Err("неверный текущий пароль"));
    assert_eq!(luks::add_password(&mut d, "admin", "user", [2u8; 16]), Ok(1));
    assert_eq!(luks::unlock(&d, "user"), Some((mk, 1)));
    assert_eq!(luks::remove_slot(&mut d, "user", 1), Err("нельзя удалить слот, которым вы вошли"));
    assert_eq!(luks::remove_slot(&mut d, "admin", 5), Err("слот пуст"));
    assert_eq!(luks::remove_slot(&mut d, "admin", 1), Ok(()));
    assert_eq!(luks::unlock(&d, "user"), None);
    assert_eq!(luks::unlock(&d, "admin"), Some((mk, 0)));
    assert_eq!(
        luks::remove_slot(&mut d, "admin", 0),
        Err("это последний пароль — удаление сделает том недоступным")
    );
}

#[test]
fn luks_iterations_and_master_key_path() {
    let mut d = blank_disk();
    let mk = [9u8; 32];
    luks::create(&mut d, "pw", 1000, mk, [4u8; 16]).unwrap();
    assert_eq!(luks::set_iterations(&mut d, "pw", 10, [6u8; 16]), Err("допустимо от 1 000 до 50 000 000 итераций"));
    assert_eq!(luks::set_iterations(&mut d, "nope", 2000, [6u8; 16]), Err("неверный пароль"));
    assert_eq!(luks::set_iterations(&mut d, "pw", 2000, [6u8; 16]), Ok(()));
    assert_eq!(luks::read_header(&d).unwrap().iterations, 2000);
    assert_eq!(luks::unlock(&d, "pw"), Some((mk, 0)));
    assert_eq!(luks::add_password_with_master(&mut d, "x", None, [5u8; 16]), Err("том не разблокирован"));
    assert_eq!(luks::add_password_with_master(&mut d, "x", Some(mk), [5u8; 16]), Ok(1));
    assert_eq!(luks::unlock(&d, "x"), Some((mk, 1)));
}

#[test]
fn ext2_fresh_volume_shows_lost_found() {
    let mut d = blank_disk();
    ext2::format(&mut d, 1).unwrap();
    assert!(ext2::list_root(&d).unwrap().is_empty());
    let all = ext2::list_dir_path(&d, "/").unwrap();
    assert_eq!(all.len(), 1);
    assert_eq!(all[0].name, "lost+found");
    assert_eq!(all[0].size, 1024);
    assert!(all[0].is_directory);
}

#[test]
fn ext2_overwrite_large_file() {
    let mut d = blank_disk();
    ext2::format(&mut d, 1).unwrap();
    let first: Vec<u8> = (0..20000u32).map(|i| (i % 251) as u8).collect();
    let second: Vec<u8> = (0..30000u32).map(|i| (i % 13) as u8).collect();
    ext2::write_file(&mut d, "big.bin", &first, 1).unwrap();
    ext2::write_file(&mut d, "big.bin", &second, 2).unwrap();
    assert_eq!(ext2::read_file(&d, "big.bin").unwrap(), second);
    let root = ext2::list_root(&d).unwrap();
    assert_eq!(root.len(), 1);
    assert_eq!(root[0].size, 30000);
}

use deix::ext2;
use deix::install;
use deix::ramdisk::{RamDisk, RAMDISK_SIZE};
use sha2::Digest;

fn blank_disk() -> RamDisk {
    RamDisk::new(vec![0u8; RAMDISK_SIZE])
}

fn sector(disk: &RamDisk, lba: u32) -> Vec<u8> {
    let mut buf = vec![0u8; 512];
    disk.read_sector(lba, &mut buf).unwrap();
    buf
}

fn system_block(disk: &RamDisk, b: u32) -> Vec<u8> {
    let lba = install::FS_START_LBA + 2 * b;
    let mut v = sector(disk, lba);
    v.extend(sector(disk, lba + 1));
    v
}

fn find_in_block(buf: &[u8], name: &str) -> Option<u32> {
    let mut off = 0usize;
    while off + 8 <= 1024 {
        let ino = u32::from_le_bytes([buf[off], buf[off + 1], buf[off + 2], buf[off + 3]]);
        let rec = u16::from_le_bytes([buf[off + 4], buf[off + 5]]) as usize;
        if rec == 0 {
            return None;
        }
        let nl = buf[off + 6] as usize;
        if ino != 0 && off + 8 + nl <= 1024 && &buf[off + 8..off + 8 + nl] == name.as_bytes() {
            return Some(ino);
        }
        off += rec;
    }
    None
}

#[test]
fn install_geometry() {
    assert_eq!(install::inodes_count(), 1024);
    assert_eq!(install::inode_table_blocks(), 128);
    assert_eq!(install::data_start_block(), 133);
    assert_eq!(install::block_lba(3), 4102);
    assert_eq!(install::kernel_start_lba(1000, 512), 1 + 2 + 1);
}

#[test]
fn install_chs_addresses() {
    assert_eq!(install::chs(0), [0, 1, 0]);
    assert_eq!(install::chs(4096), [65, 2, 0]);
    assert_eq!(install::chs(20_000_000), [254, 63 | 0xC0, 0xFF]);
}

#[test]
fn install_mbr_layout() {
    let boot = vec![0xEBu8; 600];
    let mbr = install::build_mbr(&boot);
    assert_eq!(mbr.len(), 512);
    assert!(mbr[..446].iter().all(|&b| b == 0xEB));
    assert_eq!(mbr[446], 0x80);
    assert_eq!(mbr[450], 0x83);
    assert_eq!(u32::from_le_bytes([mbr[454], mbr[455], mbr[456], mbr[457]]), 4096);
    assert_eq!(u32::from_le_bytes([mbr[458], mbr[459], mbr[460], mbr[461]]), 8704);
    assert_eq!(mbr[462], 0x00);
    assert_eq!(mbr[466], 0x83);
    assert_eq!(u32::from_le_bytes([mbr[470], mbr[471], mbr[472], mbr[473]]), 12800);
    assert_eq!(u32::from_le_bytes([mbr[474], mbr[475], mbr[476], mbr[477]]), 5632);
    assert_eq!(mbr[510], 0x55);
    assert_eq!(mbr[511], 0xAA);
    let short = install::build_mbr(&[1, 2, 3]);
    assert_eq!(&short[..4], &[1, 2, 3, 0]);
}

#[test]
fn install_users_db_record() {
    let text = install::users_db_text("alice", "pw");
    let salt: Vec<u8> = (0u8..16).map(|i| i.wrapping_mul(31).wrapping_add(7)).collect();
    let mut salted = salt.clone();
    salted.extend_from_slice(b"pw");
    let hash = sha2::Sha256::digest(&salted);
    let mut expected = String::from("alice:");
    for b in &salt {
        expected.push_str(&format!("{:02x}", b));
    }
    expected.push(':');
    for b in hash.iter() {
        expected.push_str(&format!("{:02x}", b));
    }
    expected.push('\n');
    assert_eq!(text, expected);
    assert!(text.starts_with("alice:0726456483a2c1e0ff1e3d5c7b9ab9d8:"));
}

#[test]
fn install_username_rules() {
    assert_eq!(install::accept_username("  bob_1-x \r"), Some(String::from("bob_1-x")));
    assert_eq!(install::accept_username("bad name"), None);
    assert_eq!(install::accept_username("   "), None);
    assert_eq!(install::accept_username(&"a".repeat(32)), Some("a".repeat(32)));
    assert_eq!(install::accept_username(&"a".repeat(33)), None);
    assert_eq!(install::accept_username("юзер"), None);
}

#[test]
fn install_system_volume_layout() {
    let mut disk = blank_disk();
    install::build_ext2_volume(&mut disk);
    let sb = system_block(&disk, 1);
    assert_eq!(&sb[56..58], &[0x53, 0xEF]);
    assert_eq!(u32::from_le_bytes([sb[0], sb[1], sb[2], sb[3]]), 1024);
    assert_eq!(u32::from_le_bytes([sb[4], sb[5], sb[6], sb[7]]), 4096);
    assert_eq!(u32::from_le_bytes([sb[12], sb[13], sb[14], sb[15]]), 3961);
    let root = system_block(&disk, 133);
    assert_eq!(find_in_block(&root, "."), Some(2));
    assert_eq!(find_in_block(&root, "lost+found"), Some(11));
    let names = ["system", "userdata", "home", "config", "apps", "packages", "downloads", "update"];
    for (k, n) in names.iter().enumerate() {
        assert_eq!(find_in_block(&root, n), Some(12 + k as u32));
    }
    let bm = system_block(&disk, 3);
    assert_eq!(bm[0], 0xFF);
    assert_eq!(bm[16], 0xFF);
    assert_eq!(bm[17] & 0x3F, 0x3F);
    assert_eq!(bm[17] & 0x40, 0);
    for k in 0..8u32 {
        let d = system_block(&disk, 135 + k);
        assert_eq!(find_in_block(&d, "."), Some(12 + k));
        assert_eq!(find_in_block(&d, ".."), Some(2));
    }
    assert_ne!(system_block(&disk, 135), system_block(&disk, 136));
}

#[test]
fn install_file_onto_system_volume() {
    let mut disk = blank_disk();
    install::build_ext2_volume(&mut disk);
    let data: Vec<u8> = (0..3000u32).map(|i| (i % 251) as u8).collect();
    assert!(install::write_file_to(&mut disk, "USERS.DB", &data));
    let root = system_block(&disk, 133);
    let ino = find_in_block(&root, "USERS.DB").unwrap();
    assert_eq!(ino, 20);
    let first = system_block(&disk, 143);
    assert_eq!(&first[..], &data[..1024]);
}

#[test]
fn install_userdata_volume_is_ext2() {
    let mut disk = blank_disk();
    assert!(!ext2::is_formatted(&disk));
    install::write_userdata_ext2(&mut disk);
    assert!(ext2::is_formatted(&disk));
}

#[test]
fn install_image_writes_boot_area_and_volumes() {
    let mut source = blank_disk();
    source.write_sector(5, &[7u8; 512]).unwrap();
    source.write_sector(4096 + 10, &[9u8; 512]).unwrap();
    let mut target = blank_disk();
    let stage2 = vec![0x11u8; 700];
    let ramboot = vec![0x22u8; 100];
    assert_eq!(install::write_image_to(&mut target, &source, &[0xFA; 446], &stage2, &ramboot, 3), Ok(()));
    let s0 = sector(&target, 0);
    assert_eq!(s0[510], 0x55);
    assert_eq!(s0[511], 0xAA);
    assert_eq!(sector(&target, 1), vec![0x11u8; 512]);
    let s2 = sector(&target, 2);
    assert!(s2[..188].iter().all(|&b| b == 0x11) && s2[188..].iter().all(|&b| b == 0));
    assert_eq!(sector(&target, 3)[..100], vec![0x22u8; 100][..]);
    assert_eq!(sector(&target, 5), vec![7u8; 512]);
    assert_eq!(sector(&target, 4096 + 10), vec![9u8; 512]);
    assert!(ext2::is_formatted(&target));
}

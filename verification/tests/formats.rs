use deix::inflate::{inflate, gunzip, InflateError};
use deix::kernel_loader::{build_tar_archive, KernelLoadError, TarArchive};
use deix::ota::{
    build_fresh_kernel_targz, build_gzip_stored, clear_ota_pending, extract_kernel_bin, flash_kernel_to_lba2,
    mark_ota_pending, ota_pending, switch_slot, OtaError, OtaPackage, FIRMWARE_VERSION,
};
use deix::kexec::{load_kernel_image, validate, KexecError};
use deix::linux::elf;
use deix::ramdisk::{RamDisk, RAMDISK_SIZE};

fn unhex(s: &str) -> Vec<u8> {
    (0..s.len() / 2).map(|i| u8::from_str_radix(&s[2 * i..2 * i + 2], 16).unwrap()).collect()
}

fn fox_lines() -> Vec<u8> {
    let mut v = Vec::new();
    for i in 0..30 {
        v.extend_from_slice(format!("line {}: the quick brown fox jumps over the lazy dog\n", i).as_bytes());
    }
    v
}

#[test]
fn inflate_fixed_huffman_block() {
    let data = [0xcb, 0x48, 0xcd, 0xc9, 0xc9, 0x07, 0x00];
    assert_eq!(inflate(&data, 1024).unwrap(), b"hello".to_vec());
}

#[test]
fn inflate_dynamic_huffman_block() {
    let hex = String::new()
        + "9dd45b16c1501044d17fa3e821a8423c6643dc10ae5c42bc466f3103e7bbd7f9eabd2ab75d8af12a6efb1497a1ad8fb1e9"
        + "cba38ba63ce3309cced728f7d4ffce79fd7ec5b6ec46f9db083406cd043453d0cc405381660e9a056896e4a7080291204241"
        + "c4820806110d221c443c888010116122c2681b8808131126224c44988830116122c27f8af800";
    let data = unhex(&hex);
    let out = inflate(&data, 4096).unwrap();
    assert_eq!(out.len(), 1580);
    assert_eq!(out, fox_lines());
}

#[test]
fn inflate_back_references() {
    let data = unhex("7349cd8c50c84e2dca4bcd51c8c94f4c492d5228492d2ed15370199518951895182e1200");
    let out = inflate(&data, 4096).unwrap();
    assert_eq!(out, b"DeiX kernel loader test. ".repeat(40));
}

#[test]
fn inflate_stored_block_and_limits() {
    let data = [0x01, 0x03, 0x00, 0xFC, 0xFF, b'a', b'b', b'c'];
    assert_eq!(inflate(&data, 10).unwrap(), b"abc".to_vec());
    assert!(matches!(inflate(&data, 2), Err(InflateError::OutputTooLarge { limit: 2 })));
    assert_eq!(inflate(&[], 10), Err(InflateError::Corrupt("bitstream end")));
    let unchecked_nlen = [0x01, 0x03, 0x00, 0x00, 0x00, b'a', b'b', b'c'];
    assert_eq!(inflate(&unchecked_nlen, 10).unwrap(), b"abc".to_vec());
    let truncated = [0x01, 0x05, 0x00, 0xFA, 0xFF, b'a'];
    assert!(matches!(inflate(&truncated, 10), Err(InflateError::Corrupt(_))));
    let reserved = [0x07];
    assert!(matches!(inflate(&reserved, 10), Err(InflateError::Corrupt(_))));
}

#[test]
fn gunzip_real_member_with_header() {
    let g = unhex("1f8b0800000000000203cb48cdc9c95748afca2c0000196ad2df0a000000");
    assert_eq!(gunzip(&g, 100).unwrap(), b"hello gzip".to_vec());
}

#[test]
fn gunzip_rejects_bad_headers() {
    assert_eq!(gunzip(b"PK\x03\x04 not a gzip file", 100), Err(InflateError::Corrupt("not gzip/deflate")));
    let xlen_cut = [0x1f, 0x8b, 8, 4, 0, 0, 0, 0, 0, 3, 0];
    assert_eq!(gunzip(&xlen_cut, 100), Err(InflateError::Corrupt("gzip xlen")));
    let only_header = [0x1f, 0x8b, 8, 0, 0, 0, 0, 0, 0, 3];
    assert_eq!(gunzip(&only_header, 100), Err(InflateError::Corrupt("gzip header overflow")));
}

#[test]
fn gzip_stored_roundtrip() {
    let payload: Vec<u8> = (0..3000u32).map(|i| (i * 7 % 256) as u8).collect();
    let g = build_gzip_stored(&payload);
    assert_eq!(&g[..10], &[0x1F, 0x8B, 8, 0, 0, 0, 0, 0, 0, 3]);
    assert_eq!(g.len(), 10 + 5 + 3000 + 8);
    assert_eq!(gunzip(&g, 1 << 20).unwrap(), payload);
}

#[test]
fn tar_build_parse_extract() {
    let a: &[u8] = b"first member";
    let b: Vec<u8> = vec![0xAB; 700];
    let raw = build_tar_archive(&[("a.txt", a), ("dir/b.bin", &b)]);
    assert_eq!(raw.len(), 512 + 512 + 512 + 1024 + 1024);
    assert_eq!(&raw[257..262], b"ustar");
    let ar = TarArchive::parse(raw).unwrap();
    assert_eq!(ar.members.len(), 2);
    assert_eq!(ar.members[0].name, "a.txt");
    assert_eq!(ar.members[0].size, 12);
    assert_eq!(ar.members[0].offset, 512);
    assert_eq!(ar.members[1].name, "dir/b.bin");
    assert_eq!(ar.members[1].offset, 1536);
    assert_eq!(ar.extract("a.txt").unwrap(), a.to_vec());
    assert_eq!(ar.extract("dir/b.bin").unwrap(), b);
    assert_eq!(ar.extract("kernel.img"), Err(KernelLoadError::KernelImageNotFound));
}

#[test]
fn tar_numeric_fields() {
    assert_eq!(TarArchive::parse_numeric_field(b"0000644\0"), 0o644);
    assert_eq!(TarArchive::parse_numeric_field(b"00000001750\0"), 1000);
    assert_eq!(TarArchive::parse_numeric_field(&[0x80, 0, 0, 1, 0]), 256);
    assert_eq!(TarArchive::parse_numeric_field(b"  "), 0);
}

#[test]
fn tar_rejects_corrupt_header() {
    let a: &[u8] = b"x";
    let mut raw = build_tar_archive(&[("a.txt", a)]);
    raw[0] = b'b';
    match TarArchive::parse(raw) {
        Err(KernelLoadError::TarHeaderCorrupt { detail }) => assert!(detail.starts_with("запись по смещению 0: контрольная сумма")),
        other => panic!("unexpected {:?}", other.map(|a| a.members.len())),
    }
    let mut raw2 = build_tar_archive(&[("a.txt", a)]);
    raw2[257] = b'X';
    match TarArchive::parse(raw2) {
        Err(KernelLoadError::TarHeaderCorrupt { detail }) => assert_eq!(detail, "запись по смещению 0 не имеет магии ustar"),
        other => panic!("unexpected {:?}", other.map(|a| a.members.len())),
    }
}

#[test]
fn kernel_load_error_messages() {
    assert_eq!(KernelLoadError::ImageTooSmall { size: 12 }.message(), "образ kernel.img слишком мал: 12 байт");
    assert_eq!(
        KernelLoadError::ErofsMagicMismatch { found: 0xdead, expected: 0xE0F5E1E2 }.message(),
        "несовпадение магии EROFS: найдено 0x0000dead, ожидалось 0xe0f5e1e2"
    );
    assert_eq!(
        KernelLoadError::KernelImageTooLarge { size: 5, limit: 4 }.message(),
        "образ ядра 5 байт превышает лимит 4 байт"
    );
}

#[test]
fn ota_package_roundtrip() {
    let payload = b"new firmware image".to_vec();
    let pkg = OtaPackage::build(7, payload.clone());
    assert_eq!(&pkg[..8], b"DEIXOTA1");
    assert_eq!(&pkg[8..12], &7u32.to_le_bytes());
    assert_eq!(&pkg[12..16], &(payload.len() as u32).to_le_bytes());
    assert_eq!(pkg.len(), 80 + payload.len());
    let parsed = OtaPackage::parse(&pkg).unwrap();
    assert_eq!(parsed.version, 7);
    assert_eq!(parsed.payload, payload);
    assert_eq!(parsed.verify(), Ok(()));
}

#[test]
fn ota_digest_is_sha256() {
    let pkg = OtaPackage::build(5, b"abc".to_vec());
    assert_eq!(
        pkg[16..48].to_vec(),
        unhex("ba7816bf8f01cfea414140de5dae2223b00361a396177a9cb410ff61f20015ad")
    );
    assert_ne!(pkg[48..80].to_vec(), pkg[16..48].to_vec());
}

#[test]
fn ota_rejects_tampering() {
    let pkg = OtaPackage::build(6, b"payload bytes".to_vec());
    let mut tampered = pkg.clone();
    let last = tampered.len() - 1;
    tampered[last] ^= 1;
    assert!(matches!(OtaPackage::parse(&tampered), Err(OtaError::BadSignature)));
    let mut bad_digest = pkg.clone();
    bad_digest[20] ^= 1;
    assert!(matches!(OtaPackage::parse(&bad_digest), Err(OtaError::BadSignature)));
    let mut bad_magic = pkg.clone();
    bad_magic[0] = b'X';
    assert!(matches!(OtaPackage::parse(&bad_magic), Err(OtaError::BadMagic)));
    assert!(matches!(OtaPackage::parse(&pkg[..79]), Err(OtaError::BadMagic)));
    assert!(matches!(OtaPackage::parse(&pkg[..pkg.len() - 1]), Err(OtaError::BadMagic)));
}

#[test]
fn ota_refuses_downgrade() {
    let pkg = OtaPackage::parse(&OtaPackage::build(3, vec![1, 2, 3])).unwrap();
    let e = pkg.verify().unwrap_err();
    assert_eq!(e, OtaError::VersionDowngrade { current: FIRMWARE_VERSION, pkg: 3 });
    assert_eq!(e.message(), "попытка отката: текущая версия 5 >= версии пакета 3");
    let same = OtaPackage::parse(&OtaPackage::build(FIRMWARE_VERSION, vec![])).unwrap();
    assert_eq!(same.verify(), Ok(()));
}

#[test]
fn ota_error_messages() {
    assert_eq!(OtaError::BadMagic.message(), "некорректная магия OTA-пакета");
    assert_eq!(OtaError::BadSignature.message(), "неверная подпись OTA-пакета (доверие не подтверждено)");
    assert_eq!(OtaError::PayloadTooLarge.message(), "payload превышает допустимый размер");
    assert_eq!(OtaError::WriteFailed.message(), "не удалось записать обновление на диск");
}

#[test]
fn fresh_kernel_archive_unpacks_to_kernel() {
    let kernel: Vec<u8> = (0..5000u32).map(|i| (i % 253) as u8).collect();
    let targz = build_fresh_kernel_targz(&kernel);
    assert_eq!(extract_kernel_bin(&targz).unwrap(), kernel);
    let tar = gunzip(&targz, 1 << 24).unwrap();
    let ar = TarArchive::parse(tar).unwrap();
    let names: Vec<&str> = ar.members.iter().map(|m| m.name.as_str()).collect();
    assert_eq!(names, vec!["kernel.bin", "libdeix_core.so", "libdeix_net.so", "libdeix_gfx.so"]);
    assert_eq!(ar.extract("libdeix_net.so").unwrap(), b"DEIXLIB1\0net\0".to_vec());
}

#[test]
fn extract_kernel_bin_errors() {
    let e = extract_kernel_bin(b"definitely not gzip").unwrap_err();
    assert!(e.starts_with("gunzip: "));
    assert!(e.contains("not gzip/deflate"));
    let a: &[u8] = b"x";
    let tar = build_tar_archive(&[("other.bin", a)]);
    let e2 = extract_kernel_bin(&build_gzip_stored(&tar)).unwrap_err();
    assert!(e2.starts_with("kernel.bin: "));
    assert!(e2.contains("KernelImageNotFound"));
}

#[test]
fn flash_kernel_writes_padded_sectors() {
    let mut d = RamDisk::new(vec![0xEEu8; RAMDISK_SIZE]);
    let kernel: Vec<u8> = vec![7u8; 700];
    assert_eq!(flash_kernel_to_lba2(&mut d, &kernel), Ok(2));
    let mut buf = vec![0u8; 512];
    d.read_sector(2, &mut buf).unwrap();
    assert_eq!(buf, vec![7u8; 512]);
    d.read_sector(3, &mut buf).unwrap();
    assert_eq!(&buf[..188], &vec![7u8; 188][..]);
    assert_eq!(&buf[188..], &vec![0u8; 324][..]);
    d.read_sector(4, &mut buf).unwrap();
    assert_eq!(buf, vec![0xEEu8; 512]);
    d.read_sector(1, &mut buf).unwrap();
    assert_eq!(buf, vec![0xEEu8; 512]);
    assert_eq!(flash_kernel_to_lba2(&mut d, &[]), Ok(1));
    let huge = vec![1u8; RAMDISK_SIZE];
    assert_eq!(flash_kernel_to_lba2(&mut d, &huge), Err(()));
}

#[test]
fn bcb_pending_flag_cycle() {
    let mut sector = vec![0u8; 512];
    assert!(!ota_pending(&sector));
    assert!(!clear_ota_pending(&mut sector));
    mark_ota_pending(&mut sector);
    assert_eq!(&sector[..8], b"DEIXBCB1");
    assert_eq!(&sector[16..20], &[1, 0, 0, 0]);
    assert!(ota_pending(&sector));
    assert!(clear_ota_pending(&mut sector));
    assert!(!ota_pending(&sector));
    assert_eq!(&sector[..8], b"DEIXBCB1");
}

#[test]
fn slots_alternate() {
    assert_eq!(switch_slot(0), 1);
    assert_eq!(switch_slot(1), 0);
    assert_eq!(switch_slot(9), 0);
}

fn kernel_like(n: usize) -> Vec<u8> {
    let mut k = vec![0x90u8; n];
    k[0] = 0x66;
    k[1] = 0xB8;
    k
}

#[test]
fn kexec_validation_messages() {
    assert_eq!(validate(&kernel_like(8192)).map_err(|e| e.message()), Ok(()));
    assert_eq!(validate(&[]).unwrap_err().message(), "kexec: образ отклонён: пустой образ");
    assert_eq!(validate(&kernel_like(100)).unwrap_err().message(), "kexec: образ отклонён: слишком мал (100 байт)");
    assert_eq!(
        validate(&kernel_like(0x100001)).unwrap_err().message(),
        "kexec: образ отклонён: 1048577 байт больше лимита 1048576 — затрёт .bss"
    );
    let mut k = kernel_like(4096);
    k[0] = 0x7F;
    k[1] = 0x45;
    assert_eq!(
        validate(&k).unwrap_err().message(),
        "kexec: образ отклонён: не похоже на kernel.bin (первые байты 0x7f 0x45, ожидалось 0x66 0xb8)"
    );
}

#[test]
fn kexec_loads_archive_kernel() {
    let k = kernel_like(6000);
    let targz = build_fresh_kernel_targz(&k);
    assert_eq!(load_kernel_image(&targz).map_err(|e| e.message()), Ok(k));
    let small = kernel_like(10);
    let targz2 = build_fresh_kernel_targz(&small);
    assert!(matches!(load_kernel_image(&targz2), Err(KexecError::Invalid(_))));
    match load_kernel_image(b"zz") {
        Err(KexecError::Load(s)) => assert!(s.starts_with("gunzip: ")),
        _ => panic!("expected a load error"),
    }
}

fn minimal_elf(e_type: u16, entry: u64, interp: Option<&str>) -> Vec<u8> {
    let mut img = vec![0u8; 0x200];
    img[..4].copy_from_slice(&[0x7F, b'E', b'L', b'F']);
    img[4] = 2;
    img[5] = 1;
    img[16..18].copy_from_slice(&e_type.to_le_bytes());
    img[18..20].copy_from_slice(&62u16.to_le_bytes());
    img[24..32].copy_from_slice(&entry.to_le_bytes());
    img[32..40].copy_from_slice(&64u64.to_le_bytes());
    img[54..56].copy_from_slice(&56u16.to_le_bytes());
    let n: u16 = if interp.is_some() { 2 } else { 1 };
    img[56..58].copy_from_slice(&n.to_le_bytes());
    let mut ph = 64;
    if let Some(path) = interp {
        img[ph..ph + 4].copy_from_slice(&3u32.to_le_bytes());
        img[ph + 8..ph + 16].copy_from_slice(&0x180u64.to_le_bytes());
        img[ph + 32..ph + 40].copy_from_slice(&((path.len() + 1) as u64).to_le_bytes());
        img[0x180..0x180 + path.len()].copy_from_slice(path.as_bytes());
        ph += 56;
    }
    img[ph..ph + 4].copy_from_slice(&1u32.to_le_bytes());
    img[ph + 4..ph + 8].copy_from_slice(&5u32.to_le_bytes());
    img[ph + 16..ph + 24].copy_from_slice(&0x400000u64.to_le_bytes());
    img[ph + 32..ph + 40].copy_from_slice(&100u64.to_le_bytes());
    img[ph + 40..ph + 48].copy_from_slice(&200u64.to_le_bytes());
    img
}

#[test]
fn elf_inspect_static_executable() {
    let lines = elf::inspect(&minimal_elf(2, 0x401000, None)).unwrap();
    assert_eq!(
        lines,
        vec![
            "тип: EXEC (абсолютный адрес)".to_string(),
            "точка входа: 0x401000".to_string(),
            "интерпретатор: нет (статический)".to_string(),
            "  LOAD vaddr=0x400000 filesz=100 memsz=200 flags=R-X".to_string(),
        ]
    );
    assert_eq!(deix::linux::inspect(&minimal_elf(2, 0x401000, None)).unwrap(), lines);
}

#[test]
fn elf_inspect_dynamic_program() {
    let lines = elf::inspect(&minimal_elf(3, 0x1040, Some("/lib/ld-musl-x86_64.so.1"))).unwrap();
    assert_eq!(lines[0], "тип: DYN (PIE / разделяемый)");
    assert_eq!(lines[1], "точка входа: 0x1040");
    assert_eq!(lines[2], "интерпретатор: /lib/ld-musl-x86_64.so.1 (динамический)");
    assert_eq!(lines.len(), 4);
}

#[test]
fn elf_inspect_rejections() {
    assert_eq!(elf::inspect(&[0u8; 10]), Err("файл меньше заголовка ELF".to_string()));
    let mut mz = vec![0u8; 64];
    mz[..4].copy_from_slice(&[0x4D, 0x5A, 0x90, 0x00]);
    assert_eq!(elf::inspect(&mz), Err("не ELF (первые байты 4d 5a 90 00)".to_string()));
    let mut c32 = minimal_elf(2, 0, None);
    c32[4] = 1;
    assert_eq!(elf::inspect(&c32), Err("не 64-битный ELF (нужен ELFCLASS64)".to_string()));
    let mut be = minimal_elf(2, 0, None);
    be[5] = 2;
    assert_eq!(elf::inspect(&be), Err("не little-endian".to_string()));
    let mut arm = minimal_elf(2, 0, None);
    arm[18] = 183;
    assert_eq!(elf::inspect(&arm), Err("архитектура 183 != x86-64".to_string()));
    let mut small_ent = minimal_elf(2, 0, None);
    small_ent[54] = 32;
    assert_eq!(elf::inspect(&small_ent), Err("странный размер phdr: 32".to_string()));
    let mut far = minimal_elf(2, 0, None);
    far[32..40].copy_from_slice(&0x1F0u64.to_le_bytes());
    assert_eq!(elf::inspect(&far), Err("обрезанная таблица программ".to_string()));
}

#[test]
fn gzip_stored_large_roundtrip() {
    let payload: Vec<u8> = (0..140_000u32).map(|i| (i * 13 % 251) as u8).collect();
    let g = build_gzip_stored(&payload);
    assert_eq!(g.len(), 10 + 3 * 5 + 140_000 + 8);
    assert_eq!(g[10], 0);
    assert_eq!(gunzip(&g, 1 << 20).unwrap(), payload);
    let exact: Vec<u8> = vec![0x5A; 65_536];
    assert_eq!(gunzip(&build_gzip_stored(&exact), 65_536).unwrap(), exact);
    assert_eq!(gunzip(&g, 100), Err(InflateError::OutputTooLarge { limit: 100 }));
}

#[test]
fn inflate_overlapping_copy() {
    // 'a', then a length-3 copy from one byte back, then end of block.
    let data = [0x4B, 0x04, 0x02, 0x00];
    assert_eq!(inflate(&data, 100).unwrap(), b"aaaa".to_vec());
    assert!(matches!(inflate(&data, 3), Err(InflateError::OutputTooLarge { limit: 3 })));
}

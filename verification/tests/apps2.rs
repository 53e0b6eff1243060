use deix::ext2;
use deix::loginui::{self, Field, Focus, KeyOutcome, LoginForm, SetupCheck};
use deix::microcode;
use deix::pkg;
use deix::ramdisk::{RamDisk, RAMDISK_SIZE};

#[test]
fn microcode_checksum_and_signature() {
    let mut img = vec![0u8; 48];
    img[12..16].copy_from_slice(&0x0002_06A7u32.to_le_bytes());
    // make the word sum zero
    let sum: u32 = img.chunks(4).fold(0u32, |a, w| a.wrapping_add(u32::from_le_bytes([w[0], w[1], w[2], w[3]])));
    img[16..20].copy_from_slice(&(0u32.wrapping_sub(sum)).to_le_bytes());
    assert!(microcode::checksum_ok(&img));
    assert_eq!(microcode::mc_signature(&img), 0x0002_06A7);
    img[0] = 1;
    assert!(!microcode::checksum_ok(&img));
    assert!(!microcode::checksum_ok(&[0u8; 44]));
    assert!(!microcode::checksum_ok(&[0u8; 50]));
    assert!(microcode::checksum_ok(&[0u8; 52]));
}

#[test]
fn pkg_catalog_lookup() {
    assert_eq!(pkg::find_package("hello"), Some(0));
    assert_eq!(pkg::find_package("SysInfo"), Some(1));
    assert_eq!(pkg::find_package("MOTD"), Some(2));
    assert_eq!(pkg::find_package("vim"), None);
    assert_eq!(pkg::find_package(""), None);
}

#[test]
fn pkg_registry_parse_and_text() {
    assert_eq!(pkg::parse_registry(b"hello\r\n\r\n  motd  \n"), vec![String::from("hello"), String::from("motd")]);
    assert_eq!(pkg::parse_registry(&[0xFF, 0xFE]), Vec::<String>::new());
    let names = vec![String::from("hello"), String::from("sysinfo")];
    assert_eq!(pkg::registry_content(&names), "hello\r\nsysinfo\r\n");
}

#[test]
fn pkg_registry_roundtrip_on_disk() {
    let mut disk = RamDisk::new(vec![0u8; RAMDISK_SIZE]);
    assert_eq!(pkg::read_registry(&disk), Vec::<String>::new());
    let names = vec![String::from("hello"), String::from("motd")];
    assert_eq!(pkg::write_registry(&mut disk, &names, 7), Ok(()));
    assert!(ext2::is_formatted(&disk));
    assert_eq!(pkg::read_registry(&disk), names);
}

#[test]
fn loginui_field_editing() {
    let mut f = Field::new(true);
    f.push(b'a');
    f.push(b'b');
    assert_eq!(f.display(), vec![b'*', b'*']);
    f.pop();
    assert_eq!(f.as_string(), "a");
    for _ in 0..100 {
        f.push(b'x');
    }
    assert_eq!(f.len(), 64);
    f.clear();
    assert_eq!(f.len(), 0);
    let mut plain = Field::new(false);
    plain.push(b'q');
    assert_eq!(plain.display(), vec![b'q']);
}

#[test]
fn loginui_keys_and_focus() {
    let mut form = LoginForm::new(true);
    assert_eq!(form.key(b'b'), KeyOutcome::Redraw);
    assert_eq!(form.key(b'\t'), KeyOutcome::Redraw);
    assert_eq!(form.focus, Focus::Pass);
    form.key(b'p');
    assert_eq!(form.key(b'\r'), KeyOutcome::Redraw);
    assert_eq!(form.focus, Focus::Confirm);
    form.key(b'q');
    assert_eq!(form.key(0x01), KeyOutcome::Ignored);
    assert_eq!(form.key(b'\n'), KeyOutcome::Submit);
    assert_eq!(loginui::check_setup(&mut form), SetupCheck::Mismatch);
    assert_eq!(form.focus, Focus::Pass);
    assert_eq!(form.pass.len(), 0);
    form.key(b'p');
    form.key(b'\t');
    form.key(b'p');
    assert_eq!(loginui::check_setup(&mut form), SetupCheck::Create);
    let mut login = LoginForm::new(false);
    login.key(b'\t');
    assert_eq!(login.focus, Focus::Pass);
    login.key(b'\t');
    assert_eq!(login.focus, Focus::User);
    assert_eq!(loginui::check_setup(&mut login), SetupCheck::Missing);
    login.key(b'\t');
    assert_eq!(login.key(b'\r'), KeyOutcome::Submit);
    login.key(b'z');
    loginui::login_failed(&mut login);
    assert_eq!(login.pass.len(), 0);
}

#[test]
fn loginui_layout_and_clicks() {
    let l = loginui::layout(1024, 768, true);
    assert_eq!(l.fx, 322);
    assert_eq!(l.fw, 380);
    assert_eq!(l.user_y, 249 + 92);
    assert_eq!(loginui::hit_test(&l, true, 330, l.user_y + 5), Some(Focus::User));
    assert_eq!(loginui::hit_test(&l, true, 330, l.pass_y), Some(Focus::Pass));
    assert_eq!(loginui::hit_test(&l, true, 330, l.confirm_y + 21), Some(Focus::Confirm));
    assert_eq!(loginui::hit_test(&l, false, 330, l.confirm_y + 21), None);
    assert_eq!(loginui::hit_test(&l, true, 10, l.user_y), None);
    let small = loginui::layout(400, 200, false);
    assert_eq!(small.fx, -20 + 30);
}

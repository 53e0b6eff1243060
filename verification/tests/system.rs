use deix::fastbootd_ui::{handle_command, FbCommand, RebootTarget};
use deix::init_parser::{
    mount_policy, BootStage, Command, InitParser, MountCmd, MountMode, ParseError, ParseWarningKind, ServiceCmd,
    VaultRejection, MAX_CONFIG_LINE_LEN,
};
use deix::interrupts::{register_network_irq, PicMasks};
use deix::keyboard::{self, KeyQueue, KeyboardState};
use deix::lang::{self, Lang, LangSetting};
use deix::linux::syscall::{self, SyscallStats};
use deix::linux::{USER_HEAP_BASE, USER_HEAP_MAX};
use deix::mex::is_mex_filename;
use deix::mexapi::api_random;
use deix::mm::virt::alloc_virtual_pages;
use deix::mm::{stats, MemStats};
use deix::module::{self, ModuleError, ModuleRegistry, ModuleStatus, KMOD_LOAD_BASE, KMOD_MAGIC, KMOD_MAX_SIZE};
use deix::mouse::{self, MouseState};
use deix::proc::{ProcessTable, INITIAL_PML4};
use deix::fastbootd_ui::{reset_fastbootd_state, FastbootdState};

const REFERENCE_SCRIPT: &str = "# DeiX partition map\n\
on init_boot\n\
    mount erofs /dev/block/by-name/kernel /kernel ro\n\
    mount erofs /dev/block/by-name/init_boot /init_boot ro\n\
    service pid1_core /bin/pid1_core 0\n\
\n\
on boot\n\
    mount erofs /dev/block/by-name/super /system ro\n\
    mount ext4 /dev/block/by-name/userdata /userdata rw\n\
    service security_monitor /bin/security_monitor 3\n\
\n\
on edl\n\
    mount erofs /dev/block/by-name/kernel /kernel rw\n\
    service edl_bridge /bin/edl_bridge 0\n";

fn accept_all(_d: &str, _f: &str, _m: MountMode, _s: BootStage) -> Result<(), VaultRejection> {
    Ok(())
}

fn balanced(p: &InitParser) -> bool {
    let r = p.report;
    r.accepted_lines + r.rejected_lines + r.skipped_lines == r.total_lines
}

#[test]
fn init_script_builds_stage_registry() {
    let mut p = InitParser::new();
    let reg = p.parse(REFERENCE_SCRIPT, accept_all);
    assert_eq!(p.stage_order, vec![BootStage::InitBoot, BootStage::Boot, BootStage::Edl]);
    let init = reg.get(BootStage::InitBoot).unwrap();
    assert_eq!(init.len(), 3);
    assert_eq!(
        init[0],
        Command::Mount(MountCmd::new(
            "erofs".to_string(),
            "/dev/block/by-name/kernel".to_string(),
            "/kernel".to_string(),
            MountMode::ReadOnly
        ))
    );
    assert_eq!(init[2], Command::Service(ServiceCmd::new("pid1_core".to_string(), "/bin/pid1_core".to_string(), 0)));
    assert_eq!(reg.get(BootStage::Boot).unwrap().len(), 3);
    assert_eq!(reg.get(BootStage::Edl).unwrap().len(), 2);
    assert!(reg.get(BootStage::Recovery).is_none());
    assert!(p.warnings.is_empty());
    assert_eq!(p.report.total_lines, 14);
    assert_eq!(p.report.accepted_lines, 11);
    assert_eq!(p.report.skipped_lines, 3);
    assert!(balanced(&p));
    assert_eq!(
        init[0].describe(),
        "mount erofs /dev/block/by-name/kernel /kernel ro"
    );
    assert_eq!(init[2].describe(), "service pid1_core /bin/pid1_core ring=0");
}

#[test]
fn init_script_rejections_become_warnings() {
    let script = "mount ext4 /a /b ro\n\
on nowhere\n\
on\n\
on boot extra\n\
on boot\n\
frobnicate now\n\
mount ext4 /a /b\n\
mount ext4 /a /b rw extra\n\
mount ext4 /a /b rx\n\
service s /bin/s\n\
service s /bin/s 7\n\
service s /bin/s x 1\n\
service good /bin/good 2 # trailing comment\n\
   # only a comment\n";
    let mut p = InitParser::new();
    let reg = p.parse(script, accept_all);
    let kinds: Vec<ParseWarningKind> = p.warnings.iter().map(|w| w.kind).collect();
    assert_eq!(
        kinds,
        vec![
            ParseWarningKind::MissingStageContext,
            ParseWarningKind::UnknownStage,
            ParseWarningKind::MalformedStageHeader,
            ParseWarningKind::TooManyArguments,
            ParseWarningKind::UnknownKeyword,
            ParseWarningKind::TooFewArguments,
            ParseWarningKind::TooManyArguments,
            ParseWarningKind::InvalidMountMode,
            ParseWarningKind::TooFewArguments,
            ParseWarningKind::InvalidExecutionRing,
            ParseWarningKind::TooManyArguments,
        ]
    );
    let lines: Vec<usize> = p.warnings.iter().map(|w| w.line_no).collect();
    assert_eq!(lines, vec![1, 2, 3, 4, 6, 7, 8, 9, 10, 11, 12]);
    assert_eq!(p.warnings[0].detail, "команда встречена до первого объявления стадии 'on'");
    assert_eq!(p.warnings[1].detail, "неизвестная стадия загрузки 'nowhere'");
    assert_eq!(p.warnings[2].detail, "некорректный заголовок стадии: после 'on' ожидалось ровно одно имя стадии");
    assert_eq!(p.warnings[4].detail, "неизвестная команда 'frobnicate' — строка отброшена");
    assert_eq!(p.warnings[5].detail, "команда 'mount': ожидалось 4 аргумента, получено 3");
    assert_eq!(p.warnings[7].detail, "недопустимый режим монтирования 'rx' (допустимы только 'ro' и 'rw')");
    assert_eq!(p.warnings[9].detail, "недопустимое кольцо исполнения '7' (допустимы 0..=3)");
    assert_eq!(p.warnings[10].raw_line, "service s /bin/s x 1");
    let boot = reg.get(BootStage::Boot).unwrap();
    assert_eq!(boot.len(), 1);
    assert_eq!(boot[0].describe(), "service good /bin/good ring=2");
    assert_eq!(p.report.total_lines, 14);
    assert_eq!(p.report.accepted_lines, 2);
    assert_eq!(p.report.rejected_lines, 11);
    assert_eq!(p.report.skipped_lines, 1);
    assert!(balanced(&p));
}

#[test]
fn init_parser_long_lines_and_vault_verdicts() {
    let long = format!("on boot\nservice {} /x 1\n", "n".repeat(MAX_CONFIG_LINE_LEN));
    let mut p = InitParser::new();
    p.parse(&long, accept_all);
    assert_eq!(p.warnings.len(), 1);
    assert_eq!(p.warnings[0].kind, ParseWarningKind::LineTooLong);
    assert_eq!(p.warnings[0].detail, format!("длина строки {} байт превышает лимит 256 байт", MAX_CONFIG_LINE_LEN + 13));

    let deny_rw = |dst: &str, _f: &str, m: MountMode, _s: BootStage| -> Result<(), VaultRejection> {
        if dst == "/userdata" && m == MountMode::ReadWrite {
            Err(VaultRejection::UserdataPolicy("запрещено".to_string()))
        } else {
            Ok(())
        }
    };
    let mut q = InitParser::new();
    let reg = q.parse("on boot\nmount ext4 /dev/u /userdata rw\nmount ext4 /dev/u /userdata ro\n", deny_rw);
    assert_eq!(q.warnings.len(), 1);
    assert_eq!(q.warnings[0].kind, ParseWarningKind::UserdataPolicyViolation);
    assert_eq!(q.warnings[0].detail, "запрещено");
    assert_eq!(reg.get(BootStage::Boot).unwrap().len(), 1);
    assert!(balanced(&q));
}

#[test]
fn init_parser_reparse_starts_afresh_and_repeated_stage() {
    let mut p = InitParser::new();
    p.parse("on boot\nservice a /a 1\non recovery\non boot\nservice b /b 1\n", accept_all);
    assert_eq!(p.stage_order, vec![BootStage::Boot, BootStage::Recovery]);
    assert_eq!(p.registry.get(BootStage::Boot).unwrap().len(), 2);
    assert_eq!(p.registry.get(BootStage::Recovery).unwrap().len(), 0);
    p.parse("on edl\n", accept_all);
    assert_eq!(p.stage_order, vec![BootStage::Edl]);
    assert!(p.registry.get(BootStage::Boot).is_none());
    assert_eq!(p.report.total_lines, 1);
}

#[test]
fn boot_stage_tokens_and_policy() {
    for (t, s) in [
        ("init_boot", BootStage::InitBoot),
        ("vendor_boot", BootStage::VendorBoot),
        ("boot", BootStage::Boot),
        ("recovery", BootStage::Recovery),
        ("fastbootd", BootStage::Fastbootd),
        ("edl", BootStage::Edl),
    ] {
        assert_eq!(BootStage::from_token(t), Ok(s));
        assert_eq!(s.as_token(), t);
    }
    assert_eq!(BootStage::from_token("Boot"), Err(ParseError::UnknownStage("Boot".to_string())));
    assert!(BootStage::Fastbootd.is_flash_authorized());
    assert!(BootStage::Edl.is_flash_authorized());
    assert!(BootStage::Recovery.is_flash_authorized());
    assert!(!BootStage::Boot.is_flash_authorized());
    assert!(!BootStage::InitBoot.is_flash_authorized());
    assert_eq!(MountMode::from_token("ro"), Ok(MountMode::ReadOnly));
    assert_eq!(MountMode::from_token("rw"), Ok(MountMode::ReadWrite));
    assert_eq!(MountMode::from_token("RW"), Err(ParseError::InvalidMountMode("RW".to_string())));
    assert_eq!(MountMode::ReadWrite.as_token(), "rw");
}

#[test]
fn parse_error_messages() {
    assert_eq!(ParseError::EmptyCommand.message(), "пустая команда (нет токенов)");
    assert_eq!(
        ParseError::TooManyArguments { keyword: "on".to_string(), expected: 1, got: 2 }.message(),
        "команда 'on': ожидалось 1 аргумента, получено 2"
    );
    assert_eq!(
        ParseError::LineTooLong { len: 300, limit: 256 }.message(),
        "длина строки 300 байт превышает лимит 256 байт"
    );
    assert_eq!(ParseWarningKind::TpmPartitionDenied.describe(), "доступ к скрытому разделу /TPM запрещён");
    assert_eq!(ParseWarningKind::UnknownKeyword.describe(), "неизвестное ключевое слово");
}

#[test]
fn key_queue_is_fifo_and_bounded() {
    let mut q = KeyQueue::new();
    assert_eq!(q.pop(), None);
    for b in 0..200u32 {
        q.push(b as u8);
    }
    for b in 0..127u32 {
        assert_eq!(q.pop(), Some(b as u8));
    }
    assert_eq!(q.pop(), None);
    q.push(7);
    q.push(8);
    assert_eq!(q.pop(), Some(7));
    assert_eq!(q.pop(), Some(8));
}

#[test]
fn keyboard_translates_scancodes() {
    let mut k = KeyboardState::new();
    keyboard::on_scancode(&mut k, 0x23);
    keyboard::on_scancode(&mut k, 0xA3);
    keyboard::on_scancode(&mut k, keyboard::LEFT_SHIFT_MAKE);
    keyboard::on_scancode(&mut k, 0x1E);
    keyboard::on_scancode(&mut k, 0x02);
    keyboard::on_scancode(&mut k, keyboard::LEFT_SHIFT_BREAK);
    keyboard::on_scancode(&mut k, 0x02);
    keyboard::on_scancode(&mut k, keyboard::ENTER);
    keyboard::on_scancode(&mut k, keyboard::BACKSPACE);
    keyboard::on_scancode(&mut k, keyboard::EXTENDED_PREFIX_BYTE);
    keyboard::on_scancode(&mut k, keyboard::ARROW_UP_SCANCODE);
    keyboard::on_scancode(&mut k, keyboard::EXTENDED_PREFIX_BYTE);
    keyboard::on_scancode(&mut k, keyboard::ARROW_DOWN_SCANCODE);
    let mut got = Vec::new();
    while let Some(c) = keyboard::try_read_char(&mut k) {
        got.push(c);
    }
    assert_eq!(got, vec![b'h', b'A', b'!', b'1', 0x0A, 0x08, keyboard::ARROW_UP, keyboard::ARROW_DOWN]);
    assert!(!keyboard::try_read_escape(&mut k));
    keyboard::on_scancode(&mut k, keyboard::ESCAPE_SCANCODE);
    assert!(keyboard::try_read_escape(&mut k));
    assert!(!keyboard::try_read_escape(&mut k));
    assert_eq!(keyboard::try_read_char(&mut k), None);
}

#[test]
fn language_setting_round_trip() {
    let mut s = LangSetting::new();
    assert_eq!(lang::current(&s), Lang::En);
    lang::set(&mut s, Lang::Ru);
    assert_eq!(s.value, lang::LANG_RU);
    assert_eq!(lang::current(&s), Lang::Ru);
    lang::set(&mut s, Lang::En);
    assert_eq!(lang::current(&s), Lang::En);
    s.value = 9;
    assert_eq!(lang::current(&s), Lang::En);
}

#[test]
fn process_ids_are_sequential() {
    let mut t = ProcessTable::new();
    let a = t.create_process(0, 0, "/");
    let b = t.create_process(a, 1000, "/home");
    assert_eq!((a, b), (100, 101));
    let p = &t.processes[1];
    assert_eq!(p.parent, 100);
    assert_eq!(p.uid, 1000);
    assert_eq!(p.cwd, "/home");
    assert_eq!(p.pml4, INITIAL_PML4);
    assert!(p.threads.is_empty());
    assert!(p.exit_code.is_none());
}

#[test]
fn memory_counters_and_virtual_ranges() {
    let m = MemStats { allocated: 12, freed: 5 };
    assert_eq!(stats(&m), (12, 5));
    let mut next: usize = 0x4000_0000;
    assert_eq!(alloc_virtual_pages(&mut next, 1), 0x4000_0000);
    assert_eq!(next, 0x4020_0000);
    assert_eq!(alloc_virtual_pages(&mut next, 512), 0x4020_0000);
    assert_eq!(next, 0x4040_0000);
    assert_eq!(alloc_virtual_pages(&mut next, 513), 0x4040_0000);
    assert_eq!(next, 0x4080_0000);
    assert_eq!(alloc_virtual_pages(&mut next, 0), 0x4080_0000);
    assert_eq!(next, 0x4080_0000);
}

#[test]
fn network_irq_unmasking() {
    let mut irq = deix::interrupts::NO_IRQ;
    let mut pic = PicMasks { master: 0xFF, slave: 0xFF };
    register_network_irq(&mut irq, &mut pic, 11);
    assert_eq!(irq, 11);
    assert_eq!(pic.slave, 0xF7);
    assert_eq!(pic.master, 0xFB);
    let mut pic2 = PicMasks { master: 0xFF, slave: 0xFF };
    register_network_irq(&mut irq, &mut pic2, 5);
    assert_eq!((pic2.master, pic2.slave), (0xDF, 0xFF));
}

#[test]
fn fastbootd_state_reset() {
    let mut st = FastbootdState { flash_log: vec!["flash boot".to_string()], progress: 70 };
    reset_fastbootd_state(&mut st);
    assert!(st.flash_log.is_empty());
    assert_eq!(st.progress, 0);
}

#[test]
fn syscall_bookkeeping_reset() {
    let mut s = SyscallStats { count: 42, brk: 0, mmap_next: 0 };
    assert_eq!(syscall::count(&s), 42);
    syscall::reset_stats(&mut s);
    assert_eq!(syscall::count(&s), 0);
    assert_eq!(s.brk as u64, USER_HEAP_BASE);
    assert_eq!(s.mmap_next as u64, USER_HEAP_BASE + USER_HEAP_MAX / 2);
}

fn kmod(body: usize, bss: u32, init: u32, name: &str) -> Vec<u8> {
    let mut d = vec![0u8; 44 + body];
    d[0..4].copy_from_slice(&KMOD_MAGIC.to_le_bytes());
    d[4..6].copy_from_slice(&1u16.to_le_bytes());
    d[6..8].copy_from_slice(&2u16.to_le_bytes());
    d[8..12].copy_from_slice(&44u32.to_le_bytes());
    d[12..16].copy_from_slice(&init.to_le_bytes());
    d[16..20].copy_from_slice(&(body as u32).to_le_bytes());
    d[20..24].copy_from_slice(&bss.to_le_bytes());
    d[24..28].copy_from_slice(&(name.len() as u32).to_le_bytes());
    d
}

#[test]
fn kmod_header_and_plan() {
    let d = kmod(100, 50, 8, "abc");
    let h = module::parse_kmod_header(&d).unwrap();
    assert_eq!((h.version_major, h.version_minor, h.body_size, h.bss_size), (1, 2, 100, 50));
    let p = module::plan_module(&d, 2).unwrap();
    assert_eq!(p.load_addr, KMOD_LOAD_BASE + 2 * KMOD_MAX_SIZE);
    assert_eq!(p.total, 150);
    assert_eq!(p.init_addr, p.load_addr + 8);
    assert_eq!(p.body_start, 44);
    assert_eq!(p.name_bytes, d[0x18..0x18 + 3].to_vec());
    assert!(module::parse_kmod_header(&d[..40]).is_none());
    let mut bad = d.clone();
    bad[0] = 0;
    assert!(matches!(module::plan_module(&bad, 0), Err(ModuleError::BadFormat)));
    assert!(matches!(module::plan_module(&kmod(0, 0, 0, "x"), 0), Err(ModuleError::TooLarge)));
    let huge = kmod(10, (KMOD_MAX_SIZE) as u32, 0, "x");
    assert!(matches!(module::plan_module(&huge, 0), Err(ModuleError::TooLarge)));
    assert!(matches!(module::plan_module(&kmod(10, 0, 10, "x"), 0), Err(ModuleError::BadFormat)));
    let mut short = kmod(100, 0, 0, "x");
    short.truncate(100);
    assert!(matches!(module::plan_module(&short, 0), Err(ModuleError::BadFormat)));
}

#[test]
fn builtin_module_registry() {
    let mut reg = ModuleRegistry::new();
    module::register_builtin_module(&mut reg, "e1000", (1, 0), 4096);
    module::register_builtin_module(&mut reg, "ahci", (2, 1), 8192);
    module::register_builtin_module(&mut reg, "e1000", (9, 9), 1);
    let list = module::get_loaded_modules(&reg);
    assert_eq!(list.len(), 2);
    assert_eq!(list[0].name, "e1000");
    assert_eq!(list[0].version, (1, 0));
    assert_eq!(list[0].load_addr, KMOD_LOAD_BASE);
    assert_eq!(list[1].load_addr, KMOD_LOAD_BASE + KMOD_MAX_SIZE);
    assert_eq!(list[1].status, ModuleStatus::Initialized);
    module::reset_loaded_modules(&mut reg);
    assert!(module::get_loaded_modules(&reg).is_empty());
}

#[test]
fn mouse_relative_packets() {
    let mut m = MouseState::new();
    mouse::init(&mut m, 800, 600, false);
    assert_eq!((m.x, m.y), (400, 300));
    mouse::on_data_byte(&mut m, 0x00);
    assert_eq!(m.packet_index, 0);
    for b in [0x09u8, 10, 5] {
        mouse::on_data_byte(&mut m, b);
    }
    let s = mouse::snapshot(&m);
    assert_eq!((s.x, s.y, s.left_button, s.right_button), (410, 295, true, false));
    for b in [0x38u8, 0xF6, 0xFB] {
        mouse::on_data_byte(&mut m, b);
    }
    assert_eq!((m.x, m.y), (400, 300));
    for b in [0x08u8, 0x7F, 0] {
        mouse::on_data_byte(&mut m, b);
    }
    for b in [0x08u8, 0x7F, 0] {
        mouse::on_data_byte(&mut m, b);
    }
    for b in [0x08u8, 0x7F, 0] {
        mouse::on_data_byte(&mut m, b);
    }
    for b in [0x08u8, 0x7F, 0] {
        mouse::on_data_byte(&mut m, b);
    }
    assert_eq!(m.x, 799);
}

#[test]
fn mouse_absolute_scaling() {
    let mut m = MouseState::new();
    mouse::init(&mut m, 1024, 768, true);
    assert!(mouse::is_absolute(&m));
    mouse::on_absolute_packet(&mut m, 0xFFFF, 0, mouse::ABS_LEFT_BUTTON | mouse::ABS_MIDDLE_BUTTON);
    assert_eq!((m.x, m.y), (1023, 0));
    assert!(m.left_button && m.middle_button && !m.right_button);
    mouse::on_absolute_packet(&mut m, 0x8000, 0x8000, 0);
    assert_eq!((m.x, m.y), (511, 383));
    mouse::set_screen_size(&mut m, 640, 480);
    assert_eq!((m.screen_width, m.screen_height), (640, 480));
    assert_eq!((m.x, m.y), (511, 383));
}

#[test]
fn mex_names() {
    assert!(is_mex_filename("HELLO.MEX"));
    assert!(is_mex_filename("game.mex"));
    assert!(is_mex_filename(".MeX"));
    assert!(!is_mex_filename("MEX"));
    assert!(!is_mex_filename("HELLO.EXE"));
    assert!(!is_mex_filename("HELLO_MEX"));
}

#[test]
fn mex_random_is_little_endian() {
    assert_eq!(api_random([1, 0, 0, 0, 0, 0, 0, 0]), 1);
    assert_eq!(api_random([0x88, 0x77, 0x66, 0x55, 0x44, 0x33, 0x22, 0x11]), 0x1122334455667788);
}

#[test]
fn init_parser_mount_policy() {
    assert_eq!(
        mount_policy("/TPM0", "ext4", MountMode::ReadOnly, BootStage::Boot),
        Err(VaultRejection::TpmPartitionDenied("монтирование /TPM0 запрещено".to_string()))
    );
    assert_eq!(
        mount_policy("/userdata", "vfat", MountMode::ReadOnly, BootStage::Boot),
        Err(VaultRejection::NonExt4Userdata("/userdata: vfat вместо ext4".to_string()))
    );
    assert_eq!(
        mount_policy("/system", "erofs", MountMode::ReadWrite, BootStage::Boot),
        Err(VaultRejection::UserdataPolicy("rw-монтирование /system на стадии boot".to_string()))
    );
    assert_eq!(mount_policy("/system", "erofs", MountMode::ReadWrite, BootStage::Recovery), Ok(()));
    assert_eq!(mount_policy("/userdata", "ext4", MountMode::ReadWrite, BootStage::Boot), Ok(()));
    let mut p = InitParser::new();
    let reg = p.parse("on boot\nmount erofs /dev/a /system ro\nmount ext4 /dev/b /TPM rw\n", mount_policy);
    assert_eq!(reg.get(BootStage::Boot).unwrap().len(), 1);
    assert_eq!(p.warnings.len(), 1);
    assert_eq!(p.warnings[0].kind, ParseWarningKind::TpmPartitionDenied);
}

#[test]
fn fastbootd_commands() {
    assert!(matches!(handle_command("fb"), FbCommand::Usage));
    assert!(matches!(handle_command("fb flash"), FbCommand::FlashUsage));
    assert!(matches!(handle_command("fb  flash   /system"), FbCommand::Flash(p) if p == "/system"));
    assert!(matches!(handle_command("fb erase /userdata"), FbCommand::Erase(p) if p == "/userdata"));
    assert!(matches!(handle_command("fb erase"), FbCommand::EraseUsage));
    assert!(matches!(handle_command("fb format"), FbCommand::Format));
    assert!(matches!(handle_command("fb getvar"), FbCommand::Getvar));
    assert!(matches!(handle_command("fb unlock"), FbCommand::Unlock));
    assert!(matches!(handle_command("fb lock"), FbCommand::Lock));
    assert!(matches!(handle_command("fb reboot"), FbCommand::Reboot(RebootTarget::System)));
    assert!(matches!(handle_command("fb reboot recovery"), FbCommand::Reboot(RebootTarget::Recovery)));
    assert!(matches!(handle_command("fb reboot edl"), FbCommand::Reboot(RebootTarget::Dsm)));
    assert!(matches!(handle_command("fb reboot other"), FbCommand::Reboot(RebootTarget::System)));
    assert!(matches!(handle_command("fb frobnicate"), FbCommand::Unknown(w) if w == "frobnicate"));
}

#[test]
fn init_parser_reparse_ignores_earlier_state() {
    let script = "on boot\nmount erofs /dev/a /system ro\nmount ext4 /dev/b /TPM rw\non init_boot\nmount ext4 /dev/c /userdata rw\n";
    let mut fresh = InitParser::new();
    let first = fresh.parse(script, mount_policy);
    let mut used = InitParser::new();
    let _ = used.parse("on recovery\nmount vfat /dev/x /userdata ro\nbogus line\n", mount_policy);
    let second = used.parse(script, mount_policy);
    assert_eq!(first.get(BootStage::Boot).unwrap().len(), second.get(BootStage::Boot).unwrap().len());
    assert_eq!(first.get(BootStage::InitBoot).unwrap().len(), second.get(BootStage::InitBoot).unwrap().len());
    assert!(second.get(BootStage::Recovery).is_none());
    assert_eq!(fresh.warnings.len(), used.warnings.len());
    assert_eq!(fresh.report.total_lines, used.report.total_lines);
    assert_eq!(fresh.report.accepted_lines, used.report.accepted_lines);
    assert_eq!(fresh.report.rejected_lines, used.report.rejected_lines);
}

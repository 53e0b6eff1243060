use deix::gpu::{self, GpuVendor};
use deix::hal::mmio::MmioRegion;
use deix::hal::{self, Device};
use deix::hda::{self, HdaController};
use deix::nouveau::{self, Architecture};
use deix::nv3d::{self, Nv3D, NvArch};
use deix::partition_map::{self, PartitionPolicy};
use deix::pci::{self, ConfigSpace, PciDevice};

/// A bus with an e1000 NIC at 0:3.0 and a Bochs VGA at 0:2.0.
fn test_bus() -> ConfigSpace {
    let mut cs = ConfigSpace::new();
    pci::write_config_u32(&mut cs, 0, 3, 0, 0x00, 0x100E_8086);
    pci::write_config_u32(&mut cs, 0, 3, 0, 0x08, 0x0200_0003);
    pci::write_config_u32(&mut cs, 0, 3, 0, 0x0C, 0);
    pci::write_config_u32(&mut cs, 0, 3, 0, 0x10, 0xFEB8_0000);
    pci::write_config_u32(&mut cs, 0, 3, 0, 0x14, 0xC001);
    pci::write_config_u32(&mut cs, 0, 3, 0, 0x3C, 0x0000_010B);
    pci::write_config_u32(&mut cs, 0, 2, 0, 0x00, 0x1111_1234);
    pci::write_config_u32(&mut cs, 0, 2, 0, 0x08, 0x0300_0002);
    pci::write_config_u32(&mut cs, 0, 2, 0, 0x10, 0xFD00_0008);
    cs
}

#[test]
fn pci_config_address_layout() {
    assert_eq!(pci::config_address(0, 3, 0, 0x10), 0x8000_1810);
    assert_eq!(pci::config_address(1, 31, 7, 0x3F), 0x8001_FF3C);
}

#[test]
fn pci_reads_and_writes() {
    let mut cs = test_bus();
    assert_eq!(pci::read_vendor_id(&cs, 0, 3, 0), 0x8086);
    assert_eq!(pci::read_device_id(&cs, 0, 3, 0), 0x100E);
    assert_eq!(pci::read_vendor_id(&cs, 0, 9, 0), 0xFFFF);
    assert_eq!(pci::read_config_u32(&cs, 5, 5, 5, 0), 0xFFFF_FFFF);
    assert_eq!(pci::read_interrupt_line(&cs, 0, 3, 0), 11);
    assert_eq!(pci::read_bar0_io(&cs, 0, 3, 0), None);
    pci::write_config_u32(&mut cs, 0, 3, 0, 0x10, 0xC001);
    assert_eq!(pci::read_bar0_io(&cs, 0, 3, 0), Some(0xC000));
    assert_eq!(pci::read_bar_mmio(&cs, 0, 2, 0, 0), 0xFD00_0000);
    pci::write_config_u32(&mut cs, 0, 3, 0, 0x04, 0x0001);
    pci::enable_bus_mastering(&mut cs, 0, 3, 0);
    assert_eq!(pci::read_config_u32(&cs, 0, 3, 0, 0x04), 0x0005);
    pci::enable_memory_space(&mut cs, 0, 3, 0);
    assert_eq!(pci::read_config_u32(&cs, 0, 3, 0, 0x04), 0x0007);
    assert_eq!(pci::read_vendor_id(&cs, 0, 3, 0), 0x8086);
}

#[test]
fn pci_scanning() {
    let cs = test_bus();
    let nic = PciDevice { bus: 0, slot: 3, function: 0, vendor_id: 0x8086, device_id: 0x100E };
    assert_eq!(pci::find_device(&cs, 0x8086, 0x100E), Some(nic));
    assert_eq!(pci::find_device(&cs, 0x8086, 0x1234), None);
    assert_eq!(pci::find_device_by_class(&cs, 0x02), Some(nic));
    let vga = pci::find_device_by_class(&cs, 0x03).unwrap();
    assert_eq!((vga.slot, vga.vendor_id), (2, 0x1234));
    assert_eq!(pci::find_device_by_class_subclass(&cs, 0x03, 0x00).map(|d| d.slot), Some(2));
    assert_eq!(pci::find_device_by_class_subclass(&cs, 0x03, 0x80), None);
    assert_eq!(pci::find_device(&ConfigSpace::new(), 0x8086, 0x100E), None);
}

#[test]
fn hal_device_access() {
    let mut cs = test_bus();
    let d = hal::find_device(&cs, 0x8086, 0x100E).unwrap();
    assert_eq!(d, Device { vendor_id: 0x8086, device_id: 0x100E, bus: 0, slot: 3, function: 0, irq_line: 11 });
    assert_eq!(d.bar_address(&cs, 0), Some(0xFEB8_0000));
    assert_eq!(d.bar_address(&cs, 1), Some(0xC000));
    assert_eq!(d.bar_address(&cs, 2), Some(0xFFFF_FFFC));
    d.config_write32(&mut cs, 0x18, 0);
    assert_eq!(d.bar_address(&cs, 2), None);
    assert_eq!(d.bar_address(&cs, 6), None);
    d.config_write32(&mut cs, 0x04, 0);
    d.enable_bus_master(&mut cs);
    d.enable_memory(&mut cs);
    assert_eq!(d.config_read32(&cs, 0x04), 0x6);
    let v = hal::find_by_class(&cs, 0x1234, 0x03, 0x00).unwrap();
    assert_eq!((v.slot, v.device_id), (2, 0x1111));
    assert!(hal::find_by_class(&cs, 0x10DE, 0x03, 0x00).is_none());
}

#[test]
fn hal_bar_64bit() {
    let mut cs = ConfigSpace::new();
    pci::write_config_u32(&mut cs, 0, 1, 0, 0x00, 0x0001_10DE);
    pci::write_config_u32(&mut cs, 0, 1, 0, 0x10, 0xE000_000C);
    pci::write_config_u32(&mut cs, 0, 1, 0, 0x14, 0x0000_0001);
    let d = hal::find_device(&cs, 0x10DE, 0x0001).unwrap();
    assert_eq!(d.bar_address(&cs, 0), Some(0x1_E000_0000));
}

#[test]
fn mmio_window() {
    let mut r = MmioRegion::new(0xFEB8_0000, 64);
    assert_eq!((r.base(), r.size()), (0xFEB8_0000, 64));
    assert_eq!(r.read32(0), Some(0));
    assert!(r.write32(8, 0xDEAD_BEEF));
    assert_eq!(r.read32(8), Some(0xDEAD_BEEF));
    assert!(!r.write32(62, 1));
    assert_eq!(r.read32(61), None);
    assert!(r.modify32(8, 0x0000_FFFF, 0x1234_5678));
    assert_eq!(r.read32(8), Some(0xDEBD_5678));
    assert!(r.wait_for(8, 0xFF, 0x78, 100));
    assert!(!r.wait_for(8, 0xFF, 0x00, 100));
    assert!(!r.wait_for(64, 0, 0, 10));
}

#[test]
fn gpu_vendor_detection() {
    assert_eq!(GpuVendor::from_id(0x10DE), GpuVendor::Nvidia);
    assert_eq!(GpuVendor::from_id(0x1AF4), GpuVendor::VirtIo);
    assert_eq!(GpuVendor::from_id(0xBEEF), GpuVendor::Unknown(0xBEEF));
    assert_eq!(GpuVendor::QemuBochs.name(), "QEMU (Bochs-compatible)");
    assert_eq!(GpuVendor::Unknown(1).name(), "Unknown");
    let dev = PciDevice { bus: 0, slot: 2, function: 0, vendor_id: 0x1234, device_id: 0x1111 };
    let info = gpu::detect(Some(dev), 0x1234, 0x1111).unwrap();
    assert!(info.supports_bochs_vbe);
    assert_eq!(info.vendor, GpuVendor::QemuBochs);
    let other = gpu::detect(Some(dev), 0x1234, 0x2222).unwrap();
    assert!(!other.supports_bochs_vbe);
    assert!(gpu::detect(None, 0x1234, 0x1111).is_none());
    let (en, ru) = gpu::support_status_message(GpuVendor::VMware);
    assert_eq!(en, "VMware SVGA detected. Not supported by this kernel yet.");
    assert_eq!(ru, "Обнаружен VMware SVGA. Пока не поддерживается этим ядром.");
}

#[test]
fn nouveau_chipset_classes() {
    assert_eq!(nouveau::classify_chipset(0), Architecture::Unknown);
    assert_eq!(nouveau::classify_chipset(5), Architecture::Nv04);
    assert_eq!(nouveau::classify_chipset(0x17), Architecture::Nv10);
    assert_eq!(nouveau::classify_chipset(0x4B), Architecture::Nv40);
    assert_eq!(nouveau::classify_chipset(0x50), Architecture::ModernUnsupported);
    assert_eq!(nouveau::classify_chipset(6), Architecture::ModernUnsupported);
    assert!(Architecture::Nv30.supports_legacy_modesetting());
    assert!(!Architecture::ModernUnsupported.supports_legacy_modesetting());
    assert_eq!(Architecture::Nv20.name(), "NV20-NV2F (GeForce3/4 Ti class)");
}

#[test]
fn nouveau_detect_reads_bar0_and_boot0() {
    let mut cs = ConfigSpace::new();
    pci::write_config_u32(&mut cs, 1, 0, 0, 0x10, 0xF200_0008);
    let dev = PciDevice { bus: 1, slot: 0, function: 0, vendor_id: 0x10DE, device_id: 0x0221 };
    let info = nouveau::detect(&mut cs, dev, 0x0440_00A1);
    assert_eq!(info.bar0_mmio, 0xF200_0000);
    assert_eq!(info.chipset_id, 0x44);
    assert_eq!(info.architecture, Architecture::Nv40);
    assert_eq!(pci::read_config_u32(&cs, 1, 0, 0, 4) & 2, 2);
    let mut empty = ConfigSpace::new();
    pci::write_config_u32(&mut empty, 1, 0, 0, 0x10, 0);
    let none = nouveau::detect(&mut empty, dev, 0x0440_00A1);
    assert_eq!((none.chipset_id, none.architecture), (0, Architecture::Unknown));
}

#[test]
fn nv3d_architectures() {
    assert_eq!(nv3d::classify(0x04), NvArch::NV04);
    assert_eq!(nv3d::classify(0x25), NvArch::NV20);
    assert_eq!(nv3d::classify(0x92), NvArch::NV50);
    assert_eq!(nv3d::classify(0x134), NvArch::NV130);
    assert_eq!(nv3d::classify(0x0A), NvArch::Unknown);
    assert_eq!(nv3d::classify(0xB0), NvArch::Unknown);
    assert_eq!(NvArch::NV40.d3d_class(), Some(0x4097));
    assert_eq!(NvArch::NVC0.d3d_class(), None);
    assert!(NvArch::NV160.needs_signed_firmware());
    assert!(!NvArch::Unknown.needs_signed_firmware());
    assert!(NvArch::NV10.has_open_3d_engine() && NvArch::NV10.has_legacy_modesetting());
    assert_eq!(NvArch::NVE0.name(), "NVE0 (Kepler — GeForce 6xx/7xx)");
    assert_eq!(nv3d::vram_size(0x00), 4 << 20);
    assert_eq!(nv3d::vram_size(0x30), 32 << 20);
    assert_eq!(nv3d::vram_size(0xF0), 256 << 20);
}

#[test]
fn nv3d_engine_pushes_to_fifo() {
    let dev = PciDevice { bus: 1, slot: 0, function: 0, vendor_id: 0x10DE, device_id: 0x0221 };
    let nvd = nv3d::describe_device(dev, 0xF200_0000, 0x0440_00A1, 0x20);
    assert_eq!(nvd.architecture, NvArch::NV40);
    assert_eq!(nvd.chipset_id, 0x44);
    assert_eq!(nvd.vram_size, 16 << 20);
    assert!(!nvd.has_firmware);
    let mut regs = MmioRegion::new(0, 0x40_1000);
    let mut eng: Nv3D = Nv3D::init(nvd, 640, 480, &mut regs).unwrap();
    assert_eq!((eng.d3d_class, eng.fb_pitch, eng.fb_width), (0x4097, 2560, 640));
    eng.emit(0xAA);
    eng.emit(0xBB);
    assert_eq!(eng.push_buffer, vec![0xAA, 0xBB]);
    eng.flush(&mut regs);
    assert!(eng.push_buffer.is_empty());
    assert_eq!(regs.read32(nv3d::NV_PGRAPH_FIFO), Some(0xBB));
    eng.clear_screen(0x00FF_00FF, &mut regs);
    assert_eq!(regs.read32(nv3d::NV_PGRAPH_FIFO), Some(0x00FF_00FF));

    let modern = nv3d::describe_device(dev, 0, 0x0C40_00A1, 0);
    assert_eq!(modern.architecture, NvArch::NVC0);
    let mut regs2 = MmioRegion::new(0, 16);
    assert!(Nv3D::init(modern, 640, 480, &mut regs2).is_none());
}

fn ready_controller() -> Option<HdaController> {
    Some(HdaController {
        mmio_base: 0xFEBF_0000,
        pci_dev: PciDevice { bus: 0, slot: 4, function: 0, vendor_id: 0x8086, device_id: 0x2668 },
        output_stream_offset: 0x100,
        corb_wp: 0,
        dac_nid: 2,
        pin_nid: 3,
        codec_addr: 0,
        initialized: true,
    })
}

#[test]
fn hda_tone_pcm() {
    assert!(!hda::is_ready(&None));
    assert!(hda::play_tone(&None, 440, 100).is_empty());
    let c = ready_controller();
    assert!(hda::is_ready(&c));
    assert!(hda::play_tone(&c, 0, 100).is_empty());
    let pcm = hda::play_tone(&c, 1000, 1);
    assert_eq!(pcm.len(), 96);
    assert!(pcm[..48].iter().all(|&s| s == 12000));
    assert!(pcm[48..].iter().all(|&s| s == -12000));
    let low = hda::play_tone(&c, 5, 1);
    assert_eq!(low.len(), 96);
    assert!(low.iter().all(|&s| s == 12000));
}

fn dps(rate: u32, samples: &[u8]) -> Vec<u8> {
    let mut d = b"DPS1".to_vec();
    d.extend_from_slice(&rate.to_le_bytes());
    d.extend_from_slice(&(samples.len() as u32).to_le_bytes());
    d.extend_from_slice(samples);
    d
}

#[test]
fn hda_dps_clips() {
    let c = ready_controller();
    let pcm = hda::play_dps(&c, &dps(24000, &[128, 129, 0])).unwrap();
    assert_eq!(pcm, vec![0, 0, 0, 0, 180, 180, 180, 180, -23040, -23040, -23040, -23040]);
    assert_eq!(hda::play_dps(&c, &dps(96000, &[255])).unwrap(), vec![22860, 22860]);
    assert_eq!(hda::play_dps(&c, &dps(1, &[128])).unwrap().len(), 48);
    assert_eq!(hda::play_dps(&None, &dps(24000, &[1])), Err("HDA controller not ready"));
    assert_eq!(hda::play_dps(&c, b"WAVE........"), Err("Not DPS1 audio format"));
    assert_eq!(hda::play_dps(&c, &dps(0, &[1])), Err("Corrupted DPS1 data"));
    let mut short = dps(8000, &[1, 2, 3]);
    short.truncate(13);
    assert_eq!(hda::play_dps(&c, &short), Err("Corrupted DPS1 data"));
}

#[test]
fn partition_policies() {
    let m = partition_map::partition_map();
    assert_eq!(m.len(), 2);
    assert_eq!((m[0].name, m[0].fs, m[0].default_mode), ("/system", "erofs", "ro"));
    assert_eq!((m[1].name, m[1].fs, m[1].default_mode), ("/userdata", "ext2", "rw"));
    assert_eq!(partition_map::validate_partition_map(), Ok(()));
    let bad = vec![
        PartitionPolicy { name: "/system", fs: "ext4", default_mode: "rw", ring: "Ring 0", description: "" },
        PartitionPolicy { name: "/userdata", fs: "ext4", default_mode: "rw", ring: "Ring 3", description: "" },
        PartitionPolicy { name: "/vendor", fs: "erofs", default_mode: "rw", ring: "Ring 0", description: "" },
    ];
    assert_eq!(
        partition_map::check_policies(&bad),
        Err(vec![
            "раздел /system нарушает политику (fs=ext4, mode=rw)".to_string(),
            "раздел /vendor нарушает политику (fs=erofs, mode=rw)".to_string(),
        ])
    );
}

#[test]
fn partition_layouts() {
    let s = partition_map::lookup_layout("/system").unwrap();
    assert_eq!((s.start_lba, s.sectors, s.fs, s.flashable), (4096, 8704, "erofs", true));
    let u = partition_map::lookup_layout("/userdata").unwrap();
    assert_eq!((u.start_lba, u.sectors, u.fs), (12800, 5632, "ext2"));
    assert!(partition_map::lookup_layout("/boot").is_none());
    assert_eq!(partition_map::active_kernel_layout().start_lba, 4096);
    assert_eq!(partition_map::kernel_layout_for_slot(1).name, "/system");
    assert_eq!(partition_map::active_boot_layout().sectors, 8704);
    assert_eq!(partition_map::inactive_kernel_layout().fs, "erofs");
    assert_eq!(partition_map::BOOTLOADER_LBA + partition_map::BOOTLOADER_SECTORS, 2049);
}

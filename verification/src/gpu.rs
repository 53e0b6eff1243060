use vstd::prelude::*;
use crate::pci::PciDevice;

verus! {

pub const PCI_CLASS_DISPLAY: u8 = 0x03;

pub const VENDOR_NVIDIA: u16 = 0x10DE;
pub const VENDOR_AMD: u16 = 0x1002;
pub const VENDOR_INTEL: u16 = 0x8086;
pub const VENDOR_QEMU_BOCHS: u16 = 0x1234;
pub const VENDOR_VIRTIO: u16 = 0x1AF4;
pub const VENDOR_VMWARE: u16 = 0x15AD;

pub const BOCHS_VGA_DEVICE_ID: u16 = 0x1111;

/// Display controller vendors the kernel can name.
#[derive(Debug, Clone, Copy, PartialEq, Eq, Structural)]
pub enum GpuVendor {
    Nvidia,
    Amd,
    Intel,
    QemuBochs,
    VirtIo,
    VMware,
    Unknown(u16),
}

/// The vendor named by a PCI vendor ID.
pub open spec fn vendor_of(id: u16) -> GpuVendor {
    if id == VENDOR_NVIDIA {
        GpuVendor::Nvidia
    } else if id == VENDOR_AMD {
        GpuVendor::Amd
    } else if id == VENDOR_INTEL {
        GpuVendor::Intel
    } else if id == VENDOR_QEMU_BOCHS {
        GpuVendor::QemuBochs
    } else if id == VENDOR_VIRTIO {
        GpuVendor::VirtIo
    } else if id == VENDOR_VMWARE {
        GpuVendor::VMware
    } else {
        GpuVendor::Unknown(id)
    }
}

impl GpuVendor {
    pub fn from_id(id: u16) -> (r: GpuVendor)
        ensures
            r == vendor_of(id),
    {
        if id == VENDOR_NVIDIA {
            GpuVendor::Nvidia
        } else if id == VENDOR_AMD {
            GpuVendor::Amd
        } else if id == VENDOR_INTEL {
            GpuVendor::Intel
        } else if id == VENDOR_QEMU_BOCHS {
            GpuVendor::QemuBochs
        } else if id == VENDOR_VIRTIO {
            GpuVendor::VirtIo
        } else if id == VENDOR_VMWARE {
            GpuVendor::VMware
        } else {
            GpuVendor::Unknown(id)
        }
    }

    pub fn name(&self) -> (r: &'static str)
        ensures
            r@ == match *self {
                GpuVendor::Nvidia => "NVIDIA"@,
                GpuVendor::Amd => "AMD"@,
                GpuVendor::Intel => "Intel"@,
                GpuVendor::QemuBochs => "QEMU (Bochs-compatible)"@,
                GpuVendor::VirtIo => "VirtIO GPU"@,
                GpuVendor::VMware => "VMware SVGA"@,
                GpuVendor::Unknown(_) => "Unknown"@,
            },
    {
        match self {
            GpuVendor::Nvidia => "NVIDIA",
            GpuVendor::Amd => "AMD",
            GpuVendor::Intel => "Intel",
            GpuVendor::QemuBochs => "QEMU (Bochs-compatible)",
            GpuVendor::VirtIo => "VirtIO GPU",
            GpuVendor::VMware => "VMware SVGA",
            GpuVendor::Unknown(_) => "Unknown",
        }
    }
}

/// What was found about the display controller.
pub struct GpuInfo {
    pub vendor: GpuVendor,
    pub device_id: u16,
    pub device: PciDevice,
    pub supports_bochs_vbe: bool,
}

/// Builds the GPU description from the display-class device found on the
/// bus (if any) and its vendor and device ID registers.
pub fn detect(found: Option<PciDevice>, vendor_id: u16, device_id: u16) -> (r: Option<GpuInfo>)
    ensures
        found is None ==> r is None,
        found matches Some(d) ==> (r matches Some(info) && {
            &&& info.vendor == vendor_of(vendor_id)
            &&& info.device_id == device_id
            &&& info.device == d
            &&& info.supports_bochs_vbe == (vendor_id == VENDOR_QEMU_BOCHS && device_id
                == BOCHS_VGA_DEVICE_ID)
        }),
{
    match found {
        None => None,
        Some(device) => {
            let vendor = GpuVendor::from_id(vendor_id);
            let is_bochs = match vendor {
                GpuVendor::QemuBochs => true,
                _ => false,
            };
            let supports_bochs_vbe = is_bochs && device_id == BOCHS_VGA_DEVICE_ID;
            Some(GpuInfo { vendor, device_id, device, supports_bochs_vbe })
        },
    }
}

/// The English and Russian support notes shown for a vendor.
pub open spec fn support_messages(vendor: GpuVendor) -> (Seq<char>, Seq<char>) {
    match vendor {
        GpuVendor::Nvidia => (
            "NVIDIA GPU detected. See 'gpu nvinfo' for the open nouveau-based chipset identification and details on what this kernel can/cannot do with it."@,
            "Обнаружен GPU NVIDIA. Смотри 'gpu nvinfo' для открытого определения чипа (на основе nouveau) и подробностей, что это ядро может и не может с ним сделать."@,
        ),
        GpuVendor::Amd => (
            "AMD GPU detected. No open modesetting driver is included in this kernel (AMDGPU is a large, actively maintained project requiring firmware blobs for most modern cards). Use the Bochs VBE framebuffer driver instead."@,
            "Обнаружен GPU AMD. Открытый драйвер модесеттинга не включён в это ядро (AMDGPU — большой, активно поддерживаемый проект, требующий файлы прошивок для большинства современных карт). Используй драйвер Bochs VBE framebuffer."@,
        ),
        GpuVendor::Intel => (
            "Intel GPU detected. No open modesetting driver is included in this kernel. Use the Bochs VBE framebuffer driver instead."@,
            "Обнаружен GPU Intel. Открытый драйвер модесеттинга не включён в это ядро. Используй драйвер Bochs VBE framebuffer."@,
        ),
        GpuVendor::QemuBochs => (
            "QEMU standard VGA (Bochs-compatible) detected — full support via the open, documented Bochs VBE Display Interface (DISPI). This is a real, working graphics driver."@,
            "Обнаружена стандартная VGA-карта QEMU (совместимая с Bochs) — полная поддержка через открытый, задокументированный интерфейс Bochs VBE (DISPI). Это настоящий рабочий графический драйвер."@,
        ),
        GpuVendor::VirtIo => (
            "VirtIO GPU detected. Not supported by this kernel yet (would need a virtio-gpu driver, different protocol from Bochs VBE)."@,
            "Обнаружен VirtIO GPU. Пока не поддерживается этим ядром (нужен отдельный драйвер virtio-gpu, другой протокол по сравнению с Bochs VBE)."@,
        ),
        GpuVendor::VMware => (
            "VMware SVGA detected. Not supported by this kernel yet."@,
            "Обнаружен VMware SVGA. Пока не поддерживается этим ядром."@,
        ),
        GpuVendor::Unknown(_) => (
            "Unknown GPU vendor. Not supported."@,
            "Неизвестный производитель GPU. Не поддерживается."@,
        ),
    }
}

pub fn support_status_message(vendor: GpuVendor) -> (r: (&'static str, &'static str))
    ensures
        (r.0@, r.1@) == support_messages(vendor),
{
    match vendor {
        GpuVendor::Nvidia => (
            "NVIDIA GPU detected. See 'gpu nvinfo' for the open nouveau-based chipset identification and details on what this kernel can/cannot do with it.",
            "Обнаружен GPU NVIDIA. Смотри 'gpu nvinfo' для открытого определения чипа (на основе nouveau) и подробностей, что это ядро может и не может с ним сделать.",
        ),
        GpuVendor::Amd => (
            "AMD GPU detected. No open modesetting driver is included in this kernel (AMDGPU is a large, actively maintained project requiring firmware blobs for most modern cards). Use the Bochs VBE framebuffer driver instead.",
            "Обнаружен GPU AMD. Открытый драйвер модесеттинга не включён в это ядро (AMDGPU — большой, активно поддерживаемый проект, требующий файлы прошивок для большинства современных карт). Используй драйвер Bochs VBE framebuffer.",
        ),
        GpuVendor::Intel => (
            "Intel GPU detected. No open modesetting driver is included in this kernel. Use the Bochs VBE framebuffer driver instead.",
            "Обнаружен GPU Intel. Открытый драйвер модесеттинга не включён в это ядро. Используй драйвер Bochs VBE framebuffer.",
        ),
        GpuVendor::QemuBochs => (
            "QEMU standard VGA (Bochs-compatible) detected — full support via the open, documented Bochs VBE Display Interface (DISPI). This is a real, working graphics driver.",
            "Обнаружена стандартная VGA-карта QEMU (совместимая с Bochs) — полная поддержка через открытый, задокументированный интерфейс Bochs VBE (DISPI). Это настоящий рабочий графический драйвер.",
        ),
        GpuVendor::VirtIo => (
            "VirtIO GPU detected. Not supported by this kernel yet (would need a virtio-gpu driver, different protocol from Bochs VBE).",
            "Обнаружен VirtIO GPU. Пока не поддерживается этим ядром (нужен отдельный драйвер virtio-gpu, другой протокол по сравнению с Bochs VBE).",
        ),
        GpuVendor::VMware => (
            "VMware SVGA detected. Not supported by this kernel yet.",
            "Обнаружен VMware SVGA. Пока не поддерживается этим ядром.",
        ),
        GpuVendor::Unknown(_) => (
            "Unknown GPU vendor. Not supported.",
            "Неизвестный производитель GPU. Не поддерживается.",
        ),
    }
}

} // verus!

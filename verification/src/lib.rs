//! DeiX kernel logic: file systems, boot-script parsing, archive and
//! compression formats, network packet handling and device-table decoding,
//! written against in-memory models of the disk and the hardware registers.

pub mod bytes;
pub mod ext2;
pub mod fastbootd_ui;
pub mod fat16;
pub mod fileman;
pub mod fs;
pub mod gpu;
pub mod hal;
pub mod hda;
pub mod inflate;
pub mod install;
pub mod init_parser;
pub mod interrupts;
pub mod kernel_loader;
pub mod kexec;
pub mod keyboard;
pub mod lang;
pub mod linux;
pub mod loginui;
pub mod luks;
pub mod mex;
pub mod microcode;
pub mod mexapi;
pub mod mm;
pub mod module;
pub mod mouse;
pub mod net;
pub mod nouveau;
pub mod nv3d;
pub mod ota;
pub mod ota_store;
pub mod partition_map;
pub mod pkg;
pub mod pci;
pub mod proc;
pub mod ramdisk;
pub mod text;

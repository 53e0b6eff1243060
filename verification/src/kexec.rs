//! Loading a kernel from a slot partition for kexec: the kernel.tar.gz
//! taken from the partition is unpacked and the kernel image checked
//! before it may replace the running kernel.
use vstd::prelude::*;
use crate::text::{decimal, hex};
use crate::inflate::InflateError;
use crate::kernel_loader::{KernelLoadError, TarArchive, TarOutcome, scan, find_member, outcome_detail, load_error_text};

verus! {

/// Largest kernel image: it must fit between 1 MiB and the kernel's .bss.
pub const MAX_KERNEL_SIZE: usize = 0x0010_0000;
/// Largest kernel.tar.gz contents unpacked: 4 MiB.
pub const KEXEC_TAR_LIMIT: usize = 4 * 1024 * 1024;

#[derive(Debug)]
pub enum KexecError {
    /// The partition could not be read or the image unpacked.
    Load(String),
    /// The image is empty, too large or does not look like a kernel.
    Invalid(String),
}

pub open spec fn kexec_error_text(e: KexecError) -> Seq<char> {
    match e {
        KexecError::Load(s) => "kexec: "@ + s@,
        KexecError::Invalid(s) => "kexec: образ отклонён: "@ + s@,
    }
}

impl KexecError {
    pub fn message(&self) -> (r: String)
        ensures
            r@ == kexec_error_text(*self),
    {
        match self {
            KexecError::Load(s) => {
                let mut m: String = crate::text::string_of("kexec: ");
                crate::text::push_str(&mut m, s.as_str());
                m
            },
            KexecError::Invalid(s) => {
                let mut m: String = crate::text::string_of("kexec: образ отклонён: ");
                crate::text::push_str(&mut m, s.as_str());
                m
            },
        }
    }
}

/// Why an image is refused, or `None` when it may run: not empty, at least
/// 4096 bytes, at most `MAX_KERNEL_SIZE`, and starting 0x66 0xB8 (the
/// kernel's first instruction).
pub open spec fn refusal(image: Seq<u8>) -> Option<Seq<char>> {
    if image.len() == 0 {
        Some("пустой образ"@)
    } else if image.len() < 4096 {
        Some("слишком мал ("@ + decimal(image.len()) + " байт)"@)
    } else if image.len() > MAX_KERNEL_SIZE {
        Some(decimal(image.len()) + " байт больше лимита "@ + decimal(MAX_KERNEL_SIZE as nat) + " — затрёт .bss"@)
    } else if image[0] != 0x66 || image[1] != 0xB8 {
        Some("не похоже на kernel.bin (первые байты 0x"@ + hex(image[0] as nat, 2) + " 0x"@ + hex(image[1] as nat, 2)
            + ", ожидалось 0x66 0xb8)"@)
    } else {
        None
    }
}

/// Checks that an image looks like a DeiX kernel and is safe to start.
pub fn validate(image: &[u8]) -> (r: Result<(), KexecError>)
    ensures
        match refusal(image@) {
            None => r is Ok,
            Some(m) => r matches Err(KexecError::Invalid(s)) && s@ == m,
        },
{
    let n: usize = image.len();
    if n == 0 {
        return Err(KexecError::Invalid(crate::text::string_of("пустой образ")));
    }
    if n < 4096 {
        let mut s: String = crate::text::string_of("слишком мал (");
        crate::text::push_decimal(&mut s, n as u64);
        crate::text::push_str(&mut s, " байт)");
        return Err(KexecError::Invalid(s));
    }
    if n > MAX_KERNEL_SIZE {
        let mut s: String = String::new();
        crate::text::push_decimal(&mut s, n as u64);
        crate::text::push_str(&mut s, " байт больше лимита ");
        crate::text::push_decimal(&mut s, MAX_KERNEL_SIZE as u64);
        crate::text::push_str(&mut s, " — затрёт .bss");
        assert(s@ =~= decimal(n as nat) + " байт больше лимита "@ + decimal(MAX_KERNEL_SIZE as nat) + " — затрёт .bss"@);
        return Err(KexecError::Invalid(s));
    }
    if image[0] != 0x66 || image[1] != 0xB8 {
        let mut s: String = crate::text::string_of("не похоже на kernel.bin (первые байты 0x");
        crate::text::push_hex(&mut s, image[0] as u64, 2);
        crate::text::push_str(&mut s, " 0x");
        crate::text::push_hex(&mut s, image[1] as u64, 2);
        crate::text::push_str(&mut s, ", ожидалось 0x66 0xb8)");
        return Err(KexecError::Invalid(s));
    }
    Ok(())
}

/// kernel.bin of an unpacked tar as `load_kernel_image` takes it: the
/// member's bytes, or the text of the tar or member error.
pub open spec fn kexec_member(t: Seq<u8>) -> Result<Seq<u8>, Seq<char>> {
    let corrupt = "повреждён tar-заголовок: "@;
    match scan(t, 0, Seq::empty()) {
        TarOutcome::Members(ms) => match find_member(ms, "kernel.bin"@, 0) {
            None => Err(load_error_text(KernelLoadError::KernelImageNotFound)),
            Some(i) => {
                let m = ms[i];
                if m.offset + m.size > usize::MAX {
                    Err(corrupt + "переполнение размера члена"@)
                } else if m.offset + m.size <= t.len() {
                    Ok(t.subrange(m.offset as int, (m.offset + m.size) as int))
                } else {
                    Err(corrupt + "член '"@ + "kernel.bin"@ + "' выходит за границы архива"@)
                }
            },
        },
        o => Err("tar: "@ + corrupt + outcome_detail(o)),
    }
}

/// Unpacks the kernel.tar.gz of a slot partition (up to 4 MiB of tar),
/// takes its kernel.bin and checks it.
pub fn load_kernel_image(tar_gz: &[u8]) -> (r: Result<Vec<u8>, KexecError>)
    requires
        tar_gz@.len() <= usize::MAX - 0x20000,
    ensures
        !crate::inflate::gzip_magic_ok(tar_gz@) ==> (r matches Err(KexecError::Load(s)) && s@ == "gunzip: "@
            + crate::ota::inflate_debug(InflateError::Corrupt("not gzip/deflate"))),
        r matches Ok(k) ==> refusal(k@) is None && k@.len() <= MAX_KERNEL_SIZE,
        ({
            let t = crate::inflate::stored_run(tar_gz@, crate::inflate::gzip_payload_start(tar_gz@)).unwrap();
            crate::inflate::gzip_magic_ok(tar_gz@) && !crate::inflate::gzip_xlen_missing(tar_gz@)
                && crate::inflate::stored_run(tar_gz@, crate::inflate::gzip_payload_start(tar_gz@)) is Some ==> if t.len()
                > KEXEC_TAR_LIMIT {
                r matches Err(KexecError::Load(s)) && s@ == "gunzip: "@ + crate::ota::inflate_debug(
                    InflateError::OutputTooLarge { limit: KEXEC_TAR_LIMIT },
                )
            } else {
                match kexec_member(t) {
                    Err(m) => r matches Err(KexecError::Load(s)) && s@ == m,
                    Ok(k) => match refusal(k) {
                        None => r matches Ok(v) && v@ == k,
                        Some(m) => r matches Err(KexecError::Invalid(s)) && s@ == m,
                    },
                }
            }
        }),
{
    let tar: Vec<u8> = match crate::inflate::gunzip(tar_gz, KEXEC_TAR_LIMIT) {
        Ok(t) => t,
        Err(e) => {
            let mut s: String = crate::text::string_of("gunzip: ");
            let d: String = crate::ota::inflate_debug_text(&e);
            crate::text::push_str(&mut s, d.as_str());
            proof {
                reveal_strlit("not gzip/deflate");
            }
            return Err(KexecError::Load(s));
        },
    };
    let archive: TarArchive = match TarArchive::parse(tar) {
        Ok(a) => a,
        Err(e) => {
            let mut s: String = crate::text::string_of("tar: ");
            let m: String = e.message();
            crate::text::push_str(&mut s, m.as_str());
            return Err(KexecError::Load(s));
        },
    };
    let kernel_bin: Vec<u8> = match archive.extract("kernel.bin") {
        Ok(k) => k,
        Err(e) => {
            return Err(KexecError::Load(e.message()));
        },
    };
    match validate(kernel_bin.as_slice()) {
        Ok(()) => {},
        Err(e) => {
            return Err(e);
        },
    }
    Ok(kernel_bin)
}

} // verus!

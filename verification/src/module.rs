//! Loadable kernel modules: the KMOD header, the checks before loading,
//! and the registry of loaded modules.
use vstd::prelude::*;
use crate::bytes::{le16, le32, rd_le16, rd_le32};
use crate::text::{str_eq, string_of};

verus! {

pub const KMOD_MAGIC: u32 = 0x444F_4D4B;
pub const KMOD_HEADER_SIZE: usize = 44;
pub const KMOD_LOAD_BASE: usize = 0x0080_0000;
pub const KMOD_MAX_SIZE: usize = 2 * 1024 * 1024;

#[derive(Clone, Copy, PartialEq, Eq, Debug, Structural)]
pub enum ModuleStatus {
    Loaded,
    Initialized,
    Failed,
}

pub struct LoadedModule {
    pub name: String,
    pub version: (u16, u16),
    pub load_addr: usize,
    pub body_size: usize,
    pub status: ModuleStatus,
}

#[derive(Debug, PartialEq, Eq, Structural)]
pub enum ModuleError {
    NotFound,
    BadFormat,
    InitFailed(i64),
    TooLarge,
}

/// Fields of the 44-byte header.
#[derive(Clone, Copy, Debug, PartialEq, Eq, Structural)]
pub struct KmodHeader {
    pub magic: u32,
    pub version_major: u16,
    pub version_minor: u16,
    pub header_size: u32,
    pub init_offset: u32,
    pub body_size: u32,
    pub bss_size: u32,
    pub name_len: u32,
}

pub open spec fn header_of(d: Seq<u8>) -> KmodHeader {
    KmodHeader {
        magic: le32(d, 0) as u32,
        version_major: le16(d, 4) as u16,
        version_minor: le16(d, 6) as u16,
        header_size: le32(d, 8) as u32,
        init_offset: le32(d, 12) as u32,
        body_size: le32(d, 16) as u32,
        bss_size: le32(d, 20) as u32,
        name_len: le32(d, 24) as u32,
    }
}

/// The header, if the data is long enough and carries the magic.
pub fn parse_kmod_header(data: &[u8]) -> (r: Option<KmodHeader>)
    ensures
        data@.len() < KMOD_HEADER_SIZE ==> r is None,
        data@.len() >= KMOD_HEADER_SIZE ==> (if le32(data@, 0) == KMOD_MAGIC { r == Some(header_of(data@)) } else { r is None }),
{
    if data.len() < KMOD_HEADER_SIZE {
        return None;
    }
    let magic: u32 = rd_le32(data, 0);
    if magic != KMOD_MAGIC {
        return None;
    }
    Some(KmodHeader {
        magic,
        version_major: rd_le16(data, 4),
        version_minor: rd_le16(data, 6),
        header_size: rd_le32(data, 8),
        init_offset: rd_le32(data, 12),
        body_size: rd_le32(data, 16),
        bss_size: rd_le32(data, 20),
        name_len: rd_le32(data, 24),
    })
}

/// Where and how a checked module is loaded.
pub struct ModulePlan {
    pub header: KmodHeader,
    pub load_addr: usize,
    pub total: usize,
    pub body_start: usize,
    pub body_size: usize,
    pub init_addr: usize,
    pub name_bytes: Vec<u8>,
}

/// Body plus bss, saturating.
pub open spec fn total_size(h: KmodHeader) -> int {
    let t = h.body_size as int + h.bss_size as int;
    if t > usize::MAX { usize::MAX as int } else { t }
}

/// Bytes of the name field: from offset 0x18, at most 28.
pub open spec fn name_span(h: KmodHeader) -> int {
    if h.name_len < 28 { h.name_len as int } else { 28 }
}

/// The checks `plan_module` applies, in order.
pub open spec fn plan_error(d: Seq<u8>) -> Option<ModuleError> {
    if d.len() < KMOD_HEADER_SIZE || le32(d, 0) != KMOD_MAGIC {
        Some(ModuleError::BadFormat)
    } else {
        let h = header_of(d);
        if total_size(h) == 0 || total_size(h) > KMOD_MAX_SIZE {
            Some(ModuleError::TooLarge)
        } else if KMOD_HEADER_SIZE + h.body_size > d.len() {
            Some(ModuleError::BadFormat)
        } else if h.init_offset >= h.body_size {
            Some(ModuleError::BadFormat)
        } else {
            None
        }
    }
}

/// Checks a module image and works out where its `loaded_count`-th region
/// lies, where its init function starts and which bytes name it.
pub fn plan_module(data: &[u8], loaded_count: usize) -> (r: Result<ModulePlan, ModuleError>)
    requires
        plan_error(data@) is None ==> 0x18 + name_span(header_of(data@)) <= data@.len(),
        KMOD_LOAD_BASE + (loaded_count + 1) * KMOD_MAX_SIZE <= usize::MAX,
    ensures
        match plan_error(data@) {
            Some(e) => r == Err::<ModulePlan, ModuleError>(e),
            None => r matches Ok(p) && ({
                let h = header_of(data@);
                &&& p.header == h
                &&& p.load_addr == KMOD_LOAD_BASE + loaded_count * KMOD_MAX_SIZE
                &&& p.total == total_size(h)
                &&& p.body_start == KMOD_HEADER_SIZE
                &&& p.body_size == h.body_size
                &&& p.init_addr == p.load_addr + h.init_offset
                &&& p.name_bytes@ == data@.subrange(0x18, 0x18 + name_span(h))
            }),
        },
{
    if data.len() < KMOD_HEADER_SIZE {
        return Err(ModuleError::BadFormat);
    }
    let header: KmodHeader = match parse_kmod_header(data) {
        Some(h) => h,
        None => {
            return Err(ModuleError::BadFormat);
        },
    };
    let body_size: usize = header.body_size as usize;
    let bss_size: usize = header.bss_size as usize;
    let total: usize = body_size.saturating_add(bss_size);
    if total == 0 || total > KMOD_MAX_SIZE {
        return Err(ModuleError::TooLarge);
    }
    if KMOD_HEADER_SIZE + body_size > data.len() {
        return Err(ModuleError::BadFormat);
    }
    if header.init_offset as usize >= body_size {
        return Err(ModuleError::BadFormat);
    }
    assert((loaded_count + 1) * KMOD_MAX_SIZE == loaded_count * KMOD_MAX_SIZE + KMOD_MAX_SIZE) by (nonlinear_arith);
    let load_addr: usize = KMOD_LOAD_BASE + loaded_count * KMOD_MAX_SIZE;
    assert(body_size <= total);
    assert((header.init_offset as usize) < KMOD_MAX_SIZE);
    let span: usize = if (header.name_len as usize) < 28 { header.name_len as usize } else { 28 };
    let name_bytes: Vec<u8> = crate::bytes::copy_range(data, 0x18, 0x18 + span);
    Ok(ModulePlan {
        header,
        load_addr,
        total,
        body_start: KMOD_HEADER_SIZE,
        body_size,
        init_addr: load_addr + header.init_offset as usize,
        name_bytes,
    })
}

/// Name, version, address, size and status of a module, as plain values.
pub struct ModuleView {
    pub name: Seq<char>,
    pub version: (u16, u16),
    pub load_addr: usize,
    pub body_size: usize,
    pub status: ModuleStatus,
}

impl View for LoadedModule {
    type V = ModuleView;

    open spec fn view(&self) -> ModuleView {
        ModuleView {
            name: self.name@,
            version: self.version,
            load_addr: self.load_addr,
            body_size: self.body_size,
            status: self.status,
        }
    }
}

impl LoadedModule {
    pub fn duplicate(&self) -> (r: LoadedModule)
        ensures
            r@ == self@,
    {
        LoadedModule {
            name: self.name.clone(),
            version: self.version,
            load_addr: self.load_addr,
            body_size: self.body_size,
            status: self.status,
        }
    }
}

/// The modules loaded so far, in load order.
pub struct ModuleRegistry {
    pub modules: Vec<LoadedModule>,
}

impl View for ModuleRegistry {
    type V = Seq<ModuleView>;

    open spec fn view(&self) -> Seq<ModuleView> {
        self.modules@.map_values(|m: LoadedModule| m@)
    }
}

impl ModuleRegistry {
    pub fn new() -> (r: ModuleRegistry)
        ensures
            r@ == Seq::<ModuleView>::empty(),
    {
        let r = ModuleRegistry { modules: Vec::new() };
        assert(r@ =~= Seq::<ModuleView>::empty());
        r
    }
}

/// Forgets every loaded module.
pub fn reset_loaded_modules(reg: &mut ModuleRegistry)
    ensures
        final(reg)@ == Seq::<ModuleView>::empty(),
{
    reg.modules = Vec::new();
    assert(reg@ =~= Seq::<ModuleView>::empty());
}

/// A copy of the registry's list.
pub fn get_loaded_modules(reg: &ModuleRegistry) -> (r: Vec<LoadedModule>)
    ensures
        r@.map_values(|m: LoadedModule| m@) == reg@,
{
    let mut out: Vec<LoadedModule> = Vec::new();
    let mut i: usize = 0;
    while i < reg.modules.len()
        invariant
            i <= reg.modules@.len(),
            out@.map_values(|m: LoadedModule| m@) == reg@.subrange(0, i as int),
        decreases reg.modules@.len() - i,
    {
        let ghost before = out@.map_values(|m: LoadedModule| m@);
        let m: LoadedModule = reg.modules[i].duplicate();
        out.push(m);
        assert(out@.map_values(|m: LoadedModule| m@) =~= before.push(m@));
        assert(reg@.subrange(0, i + 1) =~= reg@.subrange(0, i as int).push(reg@[i as int]));
        i = i + 1;
    }
    assert(reg@.subrange(0, i as int) =~= reg@);
    out
}

/// Records a module built into the kernel, unless one with that name is
/// already listed; it gets the next load region.
pub fn register_builtin_module(reg: &mut ModuleRegistry, name: &str, version: (u16, u16), size: usize)
    requires
        KMOD_LOAD_BASE + (old(reg).modules@.len() + 1) * KMOD_MAX_SIZE <= usize::MAX,
    ensures
        (exists|i: int| 0 <= i < old(reg)@.len() && old(reg)@[i].name == name@) ==> final(reg)@ == old(reg)@,
        !(exists|i: int| 0 <= i < old(reg)@.len() && old(reg)@[i].name == name@) ==> final(reg)@ == old(reg)@.push(
            ModuleView {
                name: name@,
                version,
                load_addr: (KMOD_LOAD_BASE + old(reg)@.len() * KMOD_MAX_SIZE) as usize,
                body_size: size,
                status: ModuleStatus::Initialized,
            },
        ),
{
    let mut i: usize = 0;
    while i < reg.modules.len()
        invariant
            i <= reg.modules@.len(),
            reg@ == old(reg)@,
            reg.modules@.len() == old(reg)@.len(),
            forall|k: int| 0 <= k < i ==> reg@[k].name != name@,
        decreases reg.modules@.len() - i,
    {
        if str_eq(reg.modules[i].name.as_str(), name) {
            assert(old(reg)@[i as int].name == name@);
            return;
        }
        i = i + 1;
    }
    let n: usize = reg.modules.len();
    assert((n + 1) * KMOD_MAX_SIZE == n * KMOD_MAX_SIZE + KMOD_MAX_SIZE) by (nonlinear_arith);
    let addr: usize = KMOD_LOAD_BASE + n * KMOD_MAX_SIZE;
    let m = LoadedModule {
        name: string_of(name),
        version,
        load_addr: addr,
        body_size: size,
        status: ModuleStatus::Initialized,
    };
    let ghost before = reg@;
    reg.modules.push(m);
    assert(reg@ =~= before.push(m@));
}

} // verus!

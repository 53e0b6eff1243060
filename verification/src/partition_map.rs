//! The partition map: /system (EROFS, read-only) and /userdata (ext2,
//! read-write), its policy check and the layout lookups.
use vstd::prelude::*;
use crate::text::{push_str, string_of, str_eq};

verus! {

pub struct PartitionPolicy {
    pub name: &'static str,
    pub fs: &'static str,
    pub default_mode: &'static str,
    pub ring: &'static str,
    pub description: &'static str,
}

/// The two policies, in map order.
pub fn partition_map() -> (r: Vec<PartitionPolicy>)
    ensures
        r@.len() == 2,
        r@[0].name@ == "/system"@ && r@[0].fs@ == "erofs"@ && r@[0].default_mode@ == "ro"@,
        r@[1].name@ == "/userdata"@ && r@[1].fs@ == "ext2"@ && r@[1].default_mode@ == "rw"@,
{
    let mut v: Vec<PartitionPolicy> = Vec::new();
    v.push(
        PartitionPolicy {
            name: "/system",
            fs: "erofs",
            default_mode: "ro",
            ring: "Ring 0",
            description: "системный раздел EROFS: ядро, модули, библиотеки",
        },
    );
    v.push(
        PartitionPolicy {
            name: "/userdata",
            fs: "ext2",
            default_mode: "rw",
            ring: "Ring 3",
            description: "пользовательские данные, аккаунты, конфигурация",
        },
    );
    v
}

/// /userdata must be ext2 or ext4 and writable; every other partition
/// EROFS and read-only.
pub open spec fn policy_ok(name: Seq<char>, fs: Seq<char>, mode: Seq<char>) -> bool {
    if name == "/userdata"@ {
        (fs == "ext2"@ || fs == "ext4"@) && mode == "rw"@
    } else {
        fs == "erofs"@ && mode == "ro"@
    }
}

pub open spec fn violation_text(p: &PartitionPolicy) -> Seq<char> {
    "раздел "@ + p.name@ + " нарушает политику (fs="@ + p.fs@ + ", mode="@ + p.default_mode@ + ")"@
}

/// The violations of a list of policies, in order.
pub open spec fn violations(ps: Seq<PartitionPolicy>) -> Seq<Seq<char>>
    decreases ps.len(),
{
    if ps.len() == 0 {
        Seq::empty()
    } else {
        let rest = violations(ps.drop_last());
        let p = ps.last();
        if policy_ok(p.name@, p.fs@, p.default_mode@) {
            rest
        } else {
            rest.push(violation_text(&p))
        }
    }
}

/// Checks each policy; `Err` lists the text of every violation.
pub fn check_policies(ps: &Vec<PartitionPolicy>) -> (r: Result<(), Vec<String>>)
    ensures
        violations(ps@).len() == 0 ==> r is Ok,
        violations(ps@).len() > 0 ==> (r matches Err(v) && v@.map_values(|s: String| s@) == violations(ps@)),
{
    let mut out: Vec<String> = Vec::new();
    let mut i: usize = 0;
    while i < ps.len()
        invariant
            i <= ps@.len(),
            out@.map_values(|s: String| s@) == violations(ps@.subrange(0, i as int)),
        decreases ps@.len() - i,
    {
        let p = &ps[i];
        let ok: bool = if str_eq(p.name, "/userdata") {
            (str_eq(p.fs, "ext2") || str_eq(p.fs, "ext4")) && str_eq(p.default_mode, "rw")
        } else {
            str_eq(p.fs, "erofs") && str_eq(p.default_mode, "ro")
        };
        assert(ps@.subrange(0, i + 1).drop_last() =~= ps@.subrange(0, i as int));
        if !ok {
            let mut s = string_of("раздел ");
            push_str(&mut s, p.name);
            push_str(&mut s, " нарушает политику (fs=");
            push_str(&mut s, p.fs);
            push_str(&mut s, ", mode=");
            push_str(&mut s, p.default_mode);
            push_str(&mut s, ")");
            let ghost before = out@.map_values(|s: String| s@);
            out.push(s);
            assert(out@.map_values(|s: String| s@) =~= before.push(s@));
        }
        i = i + 1;
    }
    assert(ps@.subrange(0, i as int) =~= ps@);
    if out.len() == 0 {
        Ok(())
    } else {
        Err(out)
    }
}

/// Checks the partition map.
pub fn validate_partition_map() -> (r: Result<(), Vec<String>>)
    ensures
        r is Ok,
{
    let m = partition_map();
    proof {
        reveal_strlit("/system");
        reveal_strlit("/userdata");
        reveal_strlit("erofs");
        reveal_strlit("ext2");
        reveal_strlit("ro");
        reveal_strlit("rw");
        assert(m@[0].name@ != "/userdata"@) by {
            assert(m@[0].name@.len() != "/userdata"@.len());
        }
        assert(m@.drop_last().drop_last() =~= Seq::<PartitionPolicy>::empty());
        assert(policy_ok(m@[0].name@, m@[0].fs@, m@[0].default_mode@));
        assert(policy_ok(m@[1].name@, m@[1].fs@, m@[1].default_mode@));
        assert(m@.drop_last().last() == m@[0]);
        assert(violations(m@.drop_last().drop_last()).len() == 0);
        assert(violations(m@.drop_last()).len() == 0);
        assert(violations(m@).len() == 0);
    }
    check_policies(&m)
}

#[derive(Debug, Clone, Copy)]
pub struct PartitionLayout {
    pub name: &'static str,
    pub start_lba: u32,
    pub sectors: u32,
    pub fs: &'static str,
    pub flashable: bool,
}

pub const BOOTLOADER_LBA: u32 = 1;
pub const BOOTLOADER_SECTORS: u32 = 2048;

/// The layout entry named `name`, if any: /system at LBA 4096 (8704
/// sectors, EROFS), /userdata at LBA 12800 (5632 sectors, ext2).
pub open spec fn layout_of(name: Seq<char>) -> Option<(u32, u32, Seq<char>)> {
    if name == "/system"@ {
        Some((4096u32, 8704u32, "erofs"@))
    } else if name == "/userdata"@ {
        Some((12800u32, 5632u32, "ext2"@))
    } else {
        None
    }
}

pub fn lookup_layout(name: &str) -> (r: Option<PartitionLayout>)
    ensures
        match layout_of(name@) {
            None => r is None,
            Some((lba, n, fs)) => r matches Some(l) && l.name@ == name@ && l.start_lba == lba && l.sectors
                == n && l.fs@ == fs && l.flashable,
        },
{
    if str_eq(name, "/system") {
        Some(PartitionLayout { name: "/system", start_lba: 4096, sectors: 8704, fs: "erofs", flashable: true })
    } else if str_eq(name, "/userdata") {
        Some(PartitionLayout { name: "/userdata", start_lba: 12800, sectors: 5632, fs: "ext2", flashable: true })
    } else {
        None
    }
}

/// The /system entry; every slot uses it.
fn system_layout() -> (r: PartitionLayout)
    ensures
        r.name@ == "/system"@ && r.start_lba == 4096 && r.sectors == 8704 && r.fs@ == "erofs"@,
{
    match lookup_layout("/system") {
        Some(l) => l,
        None => PartitionLayout { name: "/system", start_lba: 4096, sectors: 8704, fs: "erofs", flashable: true },
    }
}

pub fn active_kernel_layout() -> (r: PartitionLayout)
    ensures
        r.name@ == "/system"@ && r.start_lba == 4096 && r.sectors == 8704 && r.fs@ == "erofs"@,
{
    system_layout()
}

pub fn kernel_layout_for_slot(_slot: u8) -> (r: PartitionLayout)
    ensures
        r.name@ == "/system"@ && r.start_lba == 4096 && r.sectors == 8704 && r.fs@ == "erofs"@,
{
    system_layout()
}

pub fn active_boot_layout() -> (r: PartitionLayout)
    ensures
        r.name@ == "/system"@ && r.start_lba == 4096 && r.sectors == 8704 && r.fs@ == "erofs"@,
{
    system_layout()
}

pub fn inactive_kernel_layout() -> (r: PartitionLayout)
    ensures
        r.name@ == "/system"@ && r.start_lba == 4096 && r.sectors == 8704 && r.fs@ == "erofs"@,
{
    system_layout()
}

} // verus!

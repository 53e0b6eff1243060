//! ELF64 for x86-64: the header checks and the description of a program
//! (type, entry point, interpreter, loadable segments) shown before it is
//! run.
use vstd::prelude::*;
use crate::bytes::{le16, le32, le64, rd_le16, rd_le32, rd_le64};
use crate::text::{decimal, hex, views};

verus! {

pub const ELFCLASS64: u8 = 2;
pub const ELFDATA2LSB: u8 = 1;
pub const EM_X86_64: u16 = 62;
pub const ET_EXEC: u16 = 2;
pub const ET_DYN: u16 = 3;
pub const PT_LOAD: u32 = 1;
pub const PT_INTERP: u32 = 3;
pub const PF_X: u32 = 1;
pub const PF_W: u32 = 2;
pub const PF_R: u32 = 4;

/// A program placed in memory: entry point, stack top and the number of
/// loadable segments.
pub struct Loaded {
    pub entry: u64,
    pub stack_top: u64,
    pub segments: usize,
}

/// A program header: type, flags, file offset, address and sizes.
pub struct Phdr {
    pub p_type: u32,
    pub p_flags: u32,
    pub p_offset: u64,
    pub p_vaddr: u64,
    pub p_filesz: u64,
    pub p_memsz: u64,
}

/// The program header at `o`, if its 48 bytes lie in the image.
pub open spec fn phdr_at(img: Seq<u8>, o: int) -> Option<Phdr> {
    if 0 <= o && o + 48 <= img.len() {
        Some(
            Phdr {
                p_type: le32(img, o) as u32,
                p_flags: le32(img, o + 4) as u32,
                p_offset: le64(img, o + 8) as u64,
                p_vaddr: le64(img, o + 16) as u64,
                p_filesz: le64(img, o + 32) as u64,
                p_memsz: le64(img, o + 40) as u64,
            },
        )
    } else {
        None
    }
}

/// Program headers `i..n` of the table at `phoff` with entries of `ent`
/// bytes, or `None` when one runs past the image.
pub open spec fn phdrs_from(img: Seq<u8>, phoff: int, ent: int, i: int, n: int) -> Option<Seq<Phdr>>
    decreases n - i,
{
    if i >= n {
        Some(Seq::empty())
    } else {
        match phdr_at(img, phoff + i * ent) {
            None => None,
            Some(p) => match phdrs_from(img, phoff, ent, i + 1, n) {
                None => None,
                Some(rest) => Some(seq![p] + rest),
            },
        }
    }
}

/// The header check: entry type and entry point, or the reason.
pub open spec fn header_check(img: Seq<u8>) -> Result<(u16, u64), Seq<char>> {
    if img.len() < 64 {
        Err("файл меньше заголовка ELF"@)
    } else if !(img[0] == 0x7F && img[1] == 0x45 && img[2] == 0x4C && img[3] == 0x46) {
        Err("не ELF (первые байты "@ + hex(img[0] as nat, 2) + " "@ + hex(img[1] as nat, 2) + " "@ + hex(img[2] as nat, 2) + " "@
            + hex(img[3] as nat, 2) + ")"@)
    } else if img[4] != ELFCLASS64 {
        Err("не 64-битный ELF (нужен ELFCLASS64)"@)
    } else if img[5] != ELFDATA2LSB {
        Err("не little-endian"@)
    } else if le16(img, 18) != EM_X86_64 {
        Err("архитектура "@ + decimal(le16(img, 18) as nat) + " != x86-64"@)
    } else {
        Ok((le16(img, 16) as u16, le64(img, 24) as u64))
    }
}

/// The program headers, or the reason they cannot be read.
pub open spec fn phdr_table(img: Seq<u8>) -> Result<Seq<Phdr>, Seq<char>> {
    let phoff = le64(img, 32);
    let ent = le16(img, 54);
    let n = le16(img, 56);
    if ent < 56 {
        Err("странный размер phdr: "@ + decimal(ent as nat))
    } else {
        match phdrs_from(img, phoff, ent, 0, n) {
            None => Err("обрезанная таблица программ"@),
            Some(ps) => Ok(ps),
        }
    }
}

pub open spec fn elf_type_text(t: u16) -> Seq<char> {
    if t == ET_EXEC {
        "EXEC (абсолютный адрес)"@
    } else if t == ET_DYN {
        "DYN (PIE / разделяемый)"@
    } else {
        "другой"@
    }
}

/// Index of the first interpreter header from `i` on.
pub open spec fn first_interp(ps: Seq<Phdr>, i: int) -> Option<int>
    decreases ps.len() - i,
{
    if i < 0 || i >= ps.len() {
        None
    } else if ps[i].p_type == PT_INTERP {
        Some(i)
    } else {
        first_interp(ps, i + 1)
    }
}

/// Bytes of `s` up to the first NUL, each read as the character of that
/// code.
pub open spec fn c_text(s: Seq<u8>) -> Seq<char>
    decreases s.len(),
{
    if s.len() == 0 || s[0] == 0 {
        Seq::empty()
    } else {
        seq![s[0] as char] + c_text(s.drop_first())
    }
}

/// The interpreter path a header names: its bytes in the image (none
/// when they lie outside it) up to the first NUL.
pub open spec fn interp_name(img: Seq<u8>, p: Phdr) -> Seq<char> {
    let start = p.p_offset as int;
    let end = p.p_offset + p.p_filesz;
    if end <= u64::MAX && end <= img.len() {
        c_text(img.subrange(start, end))
    } else {
        Seq::empty()
    }
}

pub open spec fn flag_text(flags: u32) -> Seq<char> {
    (if flags & PF_R != 0 { "R"@ } else { "-"@ }) + (if flags & PF_W != 0 { "W"@ } else { "-"@ }) + (if flags & PF_X
        != 0 {
        "X"@
    } else {
        "-"@
    })
}

pub open spec fn load_line(p: Phdr) -> Seq<char> {
    "  LOAD vaddr=0x"@ + hex(p.p_vaddr as nat, 0) + " filesz="@ + decimal(p.p_filesz as nat) + " memsz="@ + decimal(
        p.p_memsz as nat,
    ) + " flags="@ + flag_text(p.p_flags)
}

/// The LOAD line of a program header ends with three permission letters:
/// 'R' when the segment is readable (bit 4 of `p_flags`), 'W' when it is
/// writable (bit 2) and 'X' when it is executable (bit 1), '-' for each
/// permission it lacks.
pub proof fn lemma_load_line_flags(p: Phdr)
    ensures
        ({
            let l = load_line(p);
            &&& l.len() >= 3
            &&& (l[l.len() - 3] == 'R' <==> p.p_flags & 4 != 0)
            &&& (l[l.len() - 3] == '-' <==> p.p_flags & 4 == 0)
            &&& (l[l.len() - 2] == 'W' <==> p.p_flags & 2 != 0)
            &&& (l[l.len() - 2] == '-' <==> p.p_flags & 2 == 0)
            &&& (l[l.len() - 1] == 'X' <==> p.p_flags & 1 != 0)
            &&& (l[l.len() - 1] == '-' <==> p.p_flags & 1 == 0)
        }),
{
    reveal_strlit("R");
    reveal_strlit("W");
    reveal_strlit("X");
    reveal_strlit("-");
    let l = load_line(p);
    let f = flag_text(p.p_flags);
    assert(f.len() == 3);
    assert(l == ("  LOAD vaddr=0x"@ + hex(p.p_vaddr as nat, 0) + " filesz="@ + decimal(p.p_filesz as nat) + " memsz="@
        + decimal(p.p_memsz as nat) + " flags="@) + f);
    assert(l[l.len() - 3] == f[0]);
    assert(l[l.len() - 2] == f[1]);
    assert(l[l.len() - 1] == f[2]);
}

/// The lines for the loadable headers from `i` on.
pub open spec fn load_lines(ps: Seq<Phdr>, i: int) -> Seq<Seq<char>>
    decreases ps.len() - i,
{
    if i < 0 || i >= ps.len() {
        Seq::empty()
    } else if ps[i].p_type == PT_LOAD {
        seq![load_line(ps[i])] + load_lines(ps, i + 1)
    } else {
        load_lines(ps, i + 1)
    }
}

/// The description `inspect` gives, or the reason the image is refused.
pub open spec fn inspection(img: Seq<u8>) -> Result<Seq<Seq<char>>, Seq<char>> {
    match header_check(img) {
        Err(m) => Err(m),
        Ok((t, entry)) => match phdr_table(img) {
            Err(m) => Err(m),
            Ok(ps) => {
                let interp = match first_interp(ps, 0) {
                    Some(i) => "интерпретатор: "@ + interp_name(img, ps[i]) + " (динамический)"@,
                    None => "интерпретатор: нет (статический)"@,
                };
                Ok(seq!["тип: "@ + elf_type_text(t), "точка входа: 0x"@ + hex(entry as nat, 0), interp] + load_lines(ps, 0))
            },
        },
    }
}

fn check_header(img: &[u8]) -> (r: Result<(u16, u64), String>)
    ensures
        match header_check(img@) {
            Ok(v) => r == Ok::<(u16, u64), String>(v),
            Err(m) => r matches Err(s) && s@ == m,
        },
{
    if img.len() < 64 {
        return Err(crate::text::string_of("файл меньше заголовка ELF"));
    }
    if !(img[0] == 0x7F && img[1] == 0x45 && img[2] == 0x4C && img[3] == 0x46) {
        let mut s: String = crate::text::string_of("не ELF (первые байты ");
        crate::text::push_hex(&mut s, img[0] as u64, 2);
        crate::text::push_str(&mut s, " ");
        crate::text::push_hex(&mut s, img[1] as u64, 2);
        crate::text::push_str(&mut s, " ");
        crate::text::push_hex(&mut s, img[2] as u64, 2);
        crate::text::push_str(&mut s, " ");
        crate::text::push_hex(&mut s, img[3] as u64, 2);
        crate::text::push_str(&mut s, ")");
        return Err(s);
    }
    if img[4] != ELFCLASS64 {
        return Err(crate::text::string_of("не 64-битный ELF (нужен ELFCLASS64)"));
    }
    if img[5] != ELFDATA2LSB {
        return Err(crate::text::string_of("не little-endian"));
    }
    let e_type: u16 = rd_le16(img, 16);
    let e_machine: u16 = rd_le16(img, 18);
    if e_machine != EM_X86_64 {
        let mut s: String = crate::text::string_of("архитектура ");
        crate::text::push_decimal(&mut s, e_machine as u64);
        crate::text::push_str(&mut s, " != x86-64");
        return Err(s);
    }
    let entry: u64 = rd_le64(img, 24);
    Ok((e_type, entry))
}

fn read_phdr(img: &[u8], o: usize) -> (r: Option<Phdr>)
    ensures
        match phdr_at(img@, o as int) {
            None => r is None,
            Some(p) => r matches Some(q) && q == p,
        },
{
    let n: usize = img.len();
    if o > n || n - o < 48 {
        return None;
    }
    Some(
        Phdr {
            p_type: rd_le32(img, o),
            p_flags: rd_le32(img, o + 4),
            p_offset: rd_le64(img, o + 8),
            p_vaddr: rd_le64(img, o + 16),
            p_filesz: rd_le64(img, o + 32),
            p_memsz: rd_le64(img, o + 40),
        },
    )
}

pub open spec fn prepend_phdrs(a: Seq<Phdr>, o: Option<Seq<Phdr>>) -> Option<Seq<Phdr>> {
    match o {
        Some(b) => Some(a + b),
        None => None,
    }
}

fn parse_phdrs(img: &[u8]) -> (r: Result<Vec<Phdr>, String>)
    requires
        img@.len() >= 64,
    ensures
        match phdr_table(img@) {
            Ok(ps) => r matches Ok(v) && v@ == ps,
            Err(m) => r matches Err(s) && s@ == m,
        },
{
    let phoff: u64 = rd_le64(img, 32);
    let phentsize: u16 = rd_le16(img, 54);
    let phnum: u16 = rd_le16(img, 56);
    if phentsize < 56 {
        let mut s: String = crate::text::string_of("странный размер phdr: ");
        crate::text::push_decimal(&mut s, phentsize as u64);
        return Err(s);
    }
    let n: usize = img.len();
    let mut out: Vec<Phdr> = Vec::new();
    let mut i: u16 = 0;
    assert(out@ + Seq::<Phdr>::empty() =~= out@);
    while i < phnum
        invariant
            n == img@.len(),
            phoff == le64(img@, 32),
            phentsize == le16(img@, 54),
            phentsize >= 56,
            phnum == le16(img@, 56),
            i <= phnum,
            phdrs_from(img@, phoff as int, phentsize as int, 0, phnum as int) == prepend_phdrs(out@, phdrs_from(
                img@,
                phoff as int,
                phentsize as int,
                i as int,
                phnum as int,
            )),
        decreases phnum - i,
    {
        assert((i as int) * (phentsize as int) <= 0xFFFF * 0xFFFF) by (nonlinear_arith)
            requires
                i <= 0xFFFF,
                phentsize <= 0xFFFF,
        ;
        let prod: u128 = (i as u128) * (phentsize as u128);
        let o_big: u128 = phoff as u128 + prod;
        if o_big + 48 > n as u128 {
            assert(phdr_at(img@, phoff + i * phentsize) is None);
            assert(phdrs_from(img@, phoff as int, phentsize as int, i as int, phnum as int) is None);

            return Err(crate::text::string_of("обрезанная таблица программ"));
        }
        let o: usize = o_big as usize;
        let p: Phdr = match read_phdr(img, o) {
            Some(p) => p,
            None => {
                return Err(crate::text::string_of("обрезанная таблица программ"));
            },
        };
        proof {
            let rest = phdrs_from(img@, phoff as int, phentsize as int, i + 1, phnum as int);
            if rest is Some {
                assert(out@.push(p) + rest->0 =~= out@ + (seq![p] + rest->0));
            }
        }
        out.push(p);
        i = i + 1;
    }
    assert(out@ + Seq::<Phdr>::empty() =~= out@);
    Ok(out)
}

/// The interpreter path of header `p`.
fn interp_text(img: &[u8], p: &Phdr) -> (r: String)
    ensures
        r@ == interp_name(img@, *p),
{
    let end: u128 = p.p_offset as u128 + p.p_filesz as u128;
    let n: usize = img.len();
    if end > u64::MAX as u128 || end > n as u128 {
        return String::new();
    }
    let start: usize = p.p_offset as usize;
    let stop: usize = end as usize;
    let ghost sub = img@.subrange(start as int, stop as int);
    let mut s: String = String::new();
    let mut k: usize = start;
    while k < stop && img[k] != 0
        invariant
            start <= k <= stop <= n == img@.len(),
            sub == img@.subrange(start as int, stop as int),
            c_text(sub) == s@ + c_text(img@.subrange(k as int, stop as int)),
        decreases stop - k,
    {
        let ghost rest = img@.subrange(k as int, stop as int);
        assert(rest.drop_first() =~= img@.subrange(k + 1, stop as int));
        crate::text::push_char(&mut s, img[k] as char);
        k = k + 1;
        assert(s@ + c_text(img@.subrange(k as int, stop as int)) =~= (s@.drop_last() + seq![s@.last()]) + c_text(img@.subrange(k as int, stop as int)));
    }
    assert(c_text(img@.subrange(k as int, stop as int)) =~= Seq::<char>::empty());
    assert(s@ + Seq::<char>::empty() =~= s@);
    s
}

/// Describes a program without running it: its type, entry point,
/// interpreter and loadable segments.
pub fn inspect(img: &[u8]) -> (r: Result<Vec<String>, String>)
    ensures
        match inspection(img@) {
            Ok(lines) => r matches Ok(v) && views(v@) == lines,
            Err(m) => r matches Err(s) && s@ == m,
        },
{
    let (e_type, entry) = match check_header(img) {
        Ok(x) => x,
        Err(e) => {
            return Err(e);
        },
    };
    let phdrs: Vec<Phdr> = match parse_phdrs(img) {
        Ok(v) => v,
        Err(e) => {
            return Err(e);
        },
    };
    let mut out: Vec<String> = Vec::new();
    let mut l1: String = crate::text::string_of("тип: ");
    if e_type == ET_EXEC {
        crate::text::push_str(&mut l1, "EXEC (абсолютный адрес)");
    } else if e_type == ET_DYN {
        crate::text::push_str(&mut l1, "DYN (PIE / разделяемый)");
    } else {
        crate::text::push_str(&mut l1, "другой");
    }
    out.push(l1);
    let mut l2: String = crate::text::string_of("точка входа: 0x");
    crate::text::push_hex(&mut l2, entry, 0);
    out.push(l2);
    let mut j: usize = 0;
    while j < phdrs.len() && phdrs[j].p_type != PT_INTERP
        invariant
            j <= phdrs@.len(),
            first_interp(phdrs@, 0) == first_interp(phdrs@, j as int),
        decreases phdrs@.len() - j,
    {
        j = j + 1;
    }
    if j < phdrs.len() {
        let mut l3: String = crate::text::string_of("интерпретатор: ");
        let name: String = interp_text(img, &phdrs[j]);
        crate::text::push_str(&mut l3, name.as_str());
        crate::text::push_str(&mut l3, " (динамический)");
        out.push(l3);
    } else {
        out.push(crate::text::string_of("интерпретатор: нет (статический)"));
    }
    let ghost head = views(out@);
    assert(views(out@) + load_lines(phdrs@, 0) =~= head + load_lines(phdrs@, 0));
    let mut k: usize = 0;
    while k < phdrs.len()
        invariant
            k <= phdrs@.len(),
            head + load_lines(phdrs@, 0) == views(out@) + load_lines(phdrs@, k as int),
        decreases phdrs@.len() - k,
    {
        let p: &Phdr = &phdrs[k];
        if p.p_type == PT_LOAD {
            let mut l: String = crate::text::string_of("  LOAD vaddr=0x");
            crate::text::push_hex(&mut l, p.p_vaddr, 0);
            crate::text::push_str(&mut l, " filesz=");
            crate::text::push_decimal(&mut l, p.p_filesz);
            crate::text::push_str(&mut l, " memsz=");
            crate::text::push_decimal(&mut l, p.p_memsz);
            crate::text::push_str(&mut l, " flags=");
            crate::text::push_str(&mut l, if p.p_flags & PF_R != 0 { "R" } else { "-" });
            crate::text::push_str(&mut l, if p.p_flags & PF_W != 0 { "W" } else { "-" });
            crate::text::push_str(&mut l, if p.p_flags & PF_X != 0 { "X" } else { "-" });
            let ghost before = views(out@);
            assert(l@ =~= load_line(*p));
            out.push(l);
            assert(views(out@) =~= before.push(load_line(*p)));
            assert(before + load_lines(phdrs@, k as int) =~= views(out@) + load_lines(phdrs@, k + 1));
        }
        k = k + 1;
    }
    assert(load_lines(phdrs@, k as int) =~= Seq::<Seq<char>>::empty());
    assert(views(out@) + Seq::<Seq<char>>::empty() =~= views(out@));
    Ok(out)
}

} // verus!

//! The package manager's catalog lookup and its registry file PKG.DB on
//! the ext2 volume (one package name per line).
use vstd::prelude::*;
use crate::ext2;
use crate::ramdisk::RamDisk;
use crate::text::{split_on, trim_ws, views};
use vstd::string::StringSliceAdditionalSpecFns;

verus! {

/// The registry file on the ext2 volume.
pub const REGISTRY_FILE: &'static str = "PKG.DB";

/// Number of packages in the built-in catalog.
pub const CATALOG_LEN: usize = 3;

/// Name bytes of catalog entry `i`: hello, sysinfo, motd.
pub open spec fn catalog_name(i: int) -> Seq<u8> {
    if i == 0 {
        seq![104u8, 101, 108, 108, 111]
    } else if i == 1 {
        seq![115u8, 121, 115, 105, 110, 102, 111]
    } else {
        seq![109u8, 111, 116, 100]
    }
}

/// An ASCII letter in lower case; other bytes as they are.
pub open spec fn ascii_lower(b: u8) -> u8 {
    if 65 <= b <= 90 { (b + 32) as u8 } else { b }
}

/// Equal but for the case of ASCII letters.
pub open spec fn eq_ignore_ascii_case(a: Seq<u8>, b: Seq<u8>) -> bool {
    a.len() == b.len() && forall|i: int| 0 <= i < a.len() ==> ascii_lower(#[trigger] a[i]) == ascii_lower(b[i])
}

/// The first catalog entry from `i` on whose name matches `name`.
pub open spec fn first_match(name: Seq<u8>, i: int) -> Option<int>
    decreases 3 - i,
{
    if i < 0 || i >= 3 {
        None
    } else if eq_ignore_ascii_case(name, catalog_name(i)) {
        Some(i)
    } else {
        first_match(name, i + 1)
    }
}

fn catalog_name_bytes(i: usize) -> (r: Vec<u8>)
    requires
        i < 3,
    ensures
        r@ == catalog_name(i as int),
{
    let r: Vec<u8> = if i == 0 {
        vec![104u8, 101, 108, 108, 111]
    } else if i == 1 {
        vec![115u8, 121, 115, 105, 110, 102, 111]
    } else {
        vec![109u8, 111, 116, 100]
    };
    assert(r@ =~= catalog_name(i as int));
    r
}

fn lower(b: u8) -> (r: u8)
    ensures
        r == ascii_lower(b),
{
    if 65 <= b && b <= 90 { b + 32 } else { b }
}

fn bytes_eq_ignore_case(a: &[u8], b: &[u8]) -> (r: bool)
    ensures
        r == eq_ignore_ascii_case(a@, b@),
{
    if a.len() != b.len() {
        return false;
    }
    let mut i: usize = 0;
    while i < a.len()
        invariant
            a@.len() == b@.len(),
            i <= a@.len(),
            forall|k: int| 0 <= k < i ==> ascii_lower(#[trigger] a@[k]) == ascii_lower(b@[k]),
        decreases a@.len() - i,
    {
        if lower(a[i]) != lower(b[i]) {
            return false;
        }
        i = i + 1;
    }
    true
}

/// The catalog entry named `name` (ASCII case ignored).
pub fn find_package(name: &str) -> (r: Option<usize>)
    ensures
        match first_match(name.spec_bytes(), 0) {
            Some(i) => r == Some(i as usize),
            None => r is None,
        },
{
    let nb: &[u8] = name.as_bytes();
    let mut i: usize = 0;
    while i < CATALOG_LEN
        invariant
            i <= 3,
            nb@ == name.spec_bytes(),
            first_match(nb@, 0) == first_match(nb@, i as int),
        decreases 3 - i,
    {
        let cn: Vec<u8> = catalog_name_bytes(i);
        if bytes_eq_ignore_case(nb, cn.as_slice()) {
            return Some(i);
        }
        i = i + 1;
    }
    None
}

/// Trimmed pieces that are not empty, in order.
pub open spec fn kept_lines(pieces: Seq<Seq<char>>) -> Seq<Seq<char>>
    decreases pieces.len(),
{
    if pieces.len() == 0 {
        Seq::empty()
    } else {
        let rest = kept_lines(pieces.drop_last());
        let t = trim_ws(pieces.last());
        if t.len() > 0 {
            rest.push(t)
        } else {
            rest
        }
    }
}

/// The package names a registry text lists: its lines, trimmed, without
/// empty ones.
pub open spec fn registry_names(text: Seq<char>) -> Seq<Seq<char>> {
    kept_lines(split_on(text, '\n'))
}

/// The names listed by registry bytes `data`; none when they are not
/// UTF-8.
pub fn parse_registry(data: &[u8]) -> (r: Vec<String>)
    ensures
        vstd::utf8::valid_utf8(data@) ==> views(r@) == registry_names(vstd::utf8::decode_utf8(data@)),
        !vstd::utf8::valid_utf8(data@) ==> r@.len() == 0,
{
    let text: String = match crate::text::utf8_to_string(data) {
        Some(t) => t,
        None => {
            return Vec::new();
        },
    };
    let cs: Vec<char> = crate::text::chars_of(text.as_str());
    let pieces: Vec<String> = crate::text::split_chars(cs.as_slice(), 0, cs.len(), '\n');
    assert(cs@.subrange(0, cs@.len() as int) =~= cs@);
    let ghost ps = views(pieces@);
    let mut out: Vec<String> = Vec::new();
    let mut i: usize = 0;
    while i < pieces.len()
        invariant
            i <= pieces@.len(),
            ps == views(pieces@),
            ps == split_on(cs@, '\n'),
            views(out@) == kept_lines(ps.subrange(0, i as int)),
        decreases pieces@.len() - i,
    {
        let pc: Vec<char> = crate::text::chars_of(pieces[i].as_str());
        let (lo, hi) = crate::text::trim_bounds(pc.as_slice(), 0, pc.len());
        assert(pc@.subrange(0, pc@.len() as int) =~= pc@);
        assert(ps.subrange(0, i + 1).drop_last() =~= ps.subrange(0, i as int));
        assert(ps[i as int] == pieces@[i as int]@);
        if hi > lo {
            let t: String = crate::text::string_from_chars(pc.as_slice(), lo, hi);
            out.push(t);
            assert(views(out@) =~= kept_lines(ps.subrange(0, i as int)).push(t@));
        }
        i = i + 1;
    }
    assert(ps.subrange(0, pieces@.len() as int) =~= ps);
    out
}

/// The registry text: each name followed by CR LF.
pub open spec fn registry_text(names: Seq<Seq<char>>) -> Seq<char>
    decreases names.len(),
{
    if names.len() == 0 {
        Seq::empty()
    } else {
        registry_text(names.drop_last()) + names.last() + seq!['\r', '\n']
    }
}

pub fn registry_content(names: &Vec<String>) -> (r: String)
    ensures
        r@ == registry_text(views(names@)),
{
    let mut content: String = String::new();
    let mut i: usize = 0;
    while i < names.len()
        invariant
            i <= names@.len(),
            content@ == registry_text(views(names@).subrange(0, i as int)),
        decreases names@.len() - i,
    {
        crate::text::push_str(&mut content, names[i].as_str());
        crate::text::push_char(&mut content, '\r');
        crate::text::push_char(&mut content, '\n');
        assert(views(names@).subrange(0, i + 1).drop_last() =~= views(names@).subrange(0, i as int));
        i = i + 1;
        assert(content@ =~= registry_text(views(names@).subrange(0, i as int)));
    }
    assert(views(names@).subrange(0, names@.len() as int) =~= views(names@));
    content
}

/// PKG.DB is a name the ext2 volume stores.
proof fn lemma_registry_name_ok()
    ensures
        ext2::name_ok(REGISTRY_FILE),
        REGISTRY_FILE@ != seq!['.'],
        REGISTRY_FILE@ != seq!['.', '.'],
        REGISTRY_FILE@ != ext2::lost_found_name(),
{
    reveal_strlit("PKG.DB");
    assert(vstd::string::is_ascii(REGISTRY_FILE));
    vstd::string::is_ascii_spec_bytes(REGISTRY_FILE);
    assert(REGISTRY_FILE@.len() == 6);
    assert(!REGISTRY_FILE@.contains('/')) by {
        if REGISTRY_FILE@.contains('/') {
            let i = choose|i: int| 0 <= i < REGISTRY_FILE@.len() && REGISTRY_FILE@[i] == '/';
        }
    }
    assert(!REGISTRY_FILE@.contains('\0')) by {
        if REGISTRY_FILE@.contains('\0') {
            let i = choose|i: int| 0 <= i < REGISTRY_FILE@.len() && REGISTRY_FILE@[i] == '\0';
        }
    }
}

/// The installed package names: those PKG.DB lists, none when it cannot
/// be read.
pub fn read_registry(disk: &RamDisk) -> (r: Vec<String>)
    requires
        disk.wf(),
    ensures
        !ext2::formatted(disk@) ==> r@.len() == 0,
        ext2::dir_lookup(disk@, ext2::ROOT_INO, REGISTRY_FILE@) == Ok::<Option<u32>, ()>(None) ==> r@.len() == 0,
        ext2::formatted(disk@) ==> (ext2::file_bytes(disk@, ext2::ROOT_INO, REGISTRY_FILE@) matches Some(d) ==> (
        vstd::utf8::valid_utf8(d) ==> views(r@) == registry_names(vstd::utf8::decode_utf8(d))) && (!vstd::utf8::valid_utf8(
            d,
        ) ==> r@.len() == 0)),
{
    proof {
        lemma_registry_name_ok();
    }
    match ext2::read_file(disk, REGISTRY_FILE) {
        Ok(data) => parse_registry(data.as_slice()),
        Err(_) => Vec::new(),
    }
}

/// Writes PKG.DB listing `names`, formatting the volume first when it is
/// not formatted; `now` stamps the format and a replaced file.
pub fn write_registry(disk: &mut RamDisk, names: &Vec<String>, now: u32) -> (r: Result<(), ()>)
    requires
        old(disk).wf(),
    ensures
        final(disk).wf(),
        r is Ok && (!ext2::formatted(old(disk)@) || ext2::ready_for_new(old(disk)@, ext2::ROOT_INO, REGISTRY_FILE@))
            ==> ext2::formatted(final(disk)@) && ext2::file_bytes(final(disk)@, ext2::ROOT_INO, REGISTRY_FILE@) == Some(
            vstd::utf8::encode_utf8(registry_text(views(names@))),
        ),
        ext2::new_file_fits(old(disk)@, ext2::ROOT_INO, REGISTRY_FILE@, vstd::utf8::encode_utf8(registry_text(views(names@))).len()) ==> r is Ok,
        !ext2::formatted(old(disk)@) && ext2::blocks_needed(vstd::utf8::encode_utf8(registry_text(views(names@))).len())
            <= ext2::MAX_FILE_BLOCKS ==> r is Ok,
{
    proof {
        lemma_registry_name_ok();
    }
    let content: String = registry_content(names);
    if !ext2::is_formatted(disk) {
        match ext2::format(disk, now) {
            Ok(()) => {},
            Err(_) => {
                return Err(());
            },
        }
        proof {
            assert(ext2::ready_for_new(disk@, ext2::ROOT_INO, REGISTRY_FILE@));
        }
    }
    match ext2::write_file(disk, REGISTRY_FILE, content.as_str().as_bytes(), now) {
        Ok(()) => Ok(()),
        Err(_) => Err(()),
    }
}

} // verus!

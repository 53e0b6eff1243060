//! Store of downloaded update packages in the /OTA partition: one header
//! sector (marker, entry count, entries of name, offset and size), then
//! the file data sector by sector.
use vstd::prelude::*;
use crate::bytes::{le32, le32_bytes, splice};
use crate::ramdisk::{RamDisk, RAMDISK_SECTORS};
use crate::text::{push_char, push_str, string_of, str_eq};
use vstd::string::StringSliceAdditionalSpecFns;

verus! {

pub const OTA_PART_LBA: u32 = 17664;
pub const OTA_PART_SECTORS: u32 = 2816;

/// "DEIXOTA1".
pub open spec fn ota_marker() -> Seq<u8> {
    seq![0x44u8, 0x45u8, 0x49u8, 0x58u8, 0x4fu8, 0x54u8, 0x41u8, 0x31u8]
}

/// The header sector `store_file` writes: marker, one entry whose name is
/// the first 15 bytes of `nb` at most, data at byte 512, size `len`.
pub open spec fn store_header(nb: Seq<u8>, len: u32) -> Seq<u8> {
    let n = if nb.len() < 15 { nb.len() as int } else { 15 };
    let s0 = splice(Seq::new(512, |i: int| 0u8), 0, ota_marker());
    let s1 = splice(s0, 8, le32_bytes(1));
    let s2 = splice(s1, 12, nb.subrange(0, n));
    let s3 = splice(s2, 28, le32_bytes(512));
    splice(s3, 32, le32_bytes(len))
}

/// `data` padded with zeros to a whole number of sectors.
pub open spec fn padded(data: Seq<u8>) -> Seq<u8> {
    let k = (data.len() + 511) / 512;
    data + Seq::new((k * 512 - data.len()) as nat, |i: int| 0u8)
}

/// Data sectors `store_file` needs.
pub open spec fn data_sectors(len: nat) -> int {
    ((len + 511) / 512) as int
}

pub open spec fn lba_base(lba: int) -> int {
    lba * 512
}

fn header_sector(nb: &[u8], len: u32) -> (r: Vec<u8>)
    ensures
        r@ == store_header(nb@, len),
{
    let mut s: Vec<u8> = crate::bytes::zeros(512);
    let marker: [u8; 8] = [0x44, 0x45, 0x49, 0x58, 0x4f, 0x54, 0x41, 0x31];
    assert(marker@ =~= ota_marker());
    crate::bytes::write_bytes(&mut s, 0, &marker);
    crate::bytes::put_le32(&mut s, 8, 1);
    let n: usize = if nb.len() < 15 { nb.len() } else { 15 };
    let part: Vec<u8> = crate::bytes::copy_range(nb, 0, n);
    crate::bytes::write_bytes(&mut s, 12, part.as_slice());
    crate::bytes::put_le32(&mut s, 28, 512);
    crate::bytes::put_le32(&mut s, 32, len);
    s
}

/// Writes `data` as the only file of the partition, under `name`.
/// Fails once the data runs past the partition, after writing the sectors
/// that fit.
pub fn store_file(disk: &mut RamDisk, name: &str, data: &[u8]) -> (r: Result<(), String>)
    requires
        old(disk).wf(),
    ensures
        final(disk).wf(),
        data_sectors(data@.len()) <= OTA_PART_SECTORS - 1 ==> r is Ok && final(disk)@ == splice(
            splice(old(disk)@, lba_base(OTA_PART_LBA as int), store_header(name.spec_bytes(), data@.len() as u32)),
            lba_base(OTA_PART_LBA + 1),
            padded(data@),
        ),
        data_sectors(data@.len()) > OTA_PART_SECTORS - 1 ==> (r matches Err(m) && m@ == "OTA: раздел переполнен"@),
{
    let nb: &[u8] = name.as_bytes();
    let sector0: Vec<u8> = header_sector(nb, data.len() as u32);
    match disk.write_sectors(OTA_PART_LBA, 1, sector0.as_slice()) {
        Ok(()) => {},
        Err(()) => {
            return Err(string_of("OTA: не удалось записать маркер"));
        },
    }
    assert(sector0@.subrange(0, 512) =~= sector0@);
    let ghost d1 = disk@;
    let n: usize = data.len();
    let nsec: usize = n / 512 + if n % 512 != 0 { 1 } else { 0 };
    assert(nsec == data_sectors(n as nat));
    assert(padded(data@).len() == nsec * 512);
    let mut k: usize = 0;
    let mut lba: u32 = OTA_PART_LBA + 1;
    let ghost mut written: Seq<u8> = Seq::empty();
    while k < nsec
        invariant
            disk.wf(),
            d1.len() == crate::ramdisk::RAMDISK_SIZE,
            n == data@.len(),
            nsec == data_sectors(n as nat),
            padded(data@).len() == nsec * 512,
            k <= nsec,
            lba == OTA_PART_LBA + 1 + k,
            written == padded(data@).subrange(0, k * 512),
            k == 0 ==> disk@ == d1,
            k > 0 ==> disk@ == splice(d1, lba_base(OTA_PART_LBA + 1), written),
            d1 == splice(old(disk)@, lba_base(OTA_PART_LBA as int), store_header(nb@, n as u32)),
            nb@ == name.spec_bytes(),
        decreases nsec - k,
    {
        if lba >= OTA_PART_LBA + OTA_PART_SECTORS {
            return Err(string_of("OTA: раздел переполнен"));
        }
        let off: usize = k * 512;
        assert(off < n) by (nonlinear_arith)
            requires
                k < nsec,
                nsec == n / 512 + if n % 512 != 0 { 1usize } else { 0usize },
                off == k * 512,
        ;
        let take: usize = if n - off < 512 { n - off } else { 512 };
        let mut buf: Vec<u8> = crate::bytes::zeros(512);
        let chunk: Vec<u8> = crate::bytes::copy_range(data, off, off + take);
        crate::bytes::write_bytes(&mut buf, 0, chunk.as_slice());
        match disk.write_sectors(lba, 1, buf.as_slice()) {
            Ok(()) => {},
            Err(()) => {
                return Err(string_of("OTA: запись данных"));
            },
        }
        proof {
            assert(buf@.subrange(0, 512) =~= buf@);
            assert(padded(data@).subrange(off as int, off + 512) =~= buf@) by {
                assert forall|j: int| 0 <= j < 512 implies padded(data@)[off + j] == buf@[j] by {
                    if j < take {
                    } else {
                    }
                }
            }
            assert(padded(data@).subrange(0, off + 512) =~= written + buf@);
            if k > 0 {
                crate::bytes::lemma_splice_append(d1, lba_base(OTA_PART_LBA + 1), written, buf@);
            } else {
                assert(written + buf@ =~= buf@);
            }
            written = written + buf@;
        }
        lba = lba + 1;
        k = k + 1;
    }
    proof {
        assert(written =~= padded(data@));
        if nsec == 0 {
            assert(padded(data@) =~= Seq::<u8>::empty());
            crate::bytes::lemma_splice_empty(d1, lba_base(OTA_PART_LBA + 1));
        }
    }
    Ok(())
}


/// Bytes of `s` up to the first NUL.
pub open spec fn until_nul(s: Seq<u8>) -> Seq<u8>
    decreases s.len(),
{
    if s.len() == 0 || s[0] == 0 {
        Seq::empty()
    } else {
        seq![s[0]] + until_nul(s.drop_first())
    }
}

/// Each byte read as the character with that code (0..=255).
pub open spec fn latin1(bs: Seq<u8>) -> Seq<char> {
    bs.map_values(|b: u8| b as char)
}

/// Start of entry `i` of the header sector.
pub open spec fn entry_at(i: int) -> int {
    12 + i * 20
}

pub open spec fn entry_name(sec: Seq<u8>, i: int) -> Seq<char> {
    latin1(until_nul(sec.subrange(entry_at(i), entry_at(i) + 16)))
}

/// First entry among `i..count` (and below 24, the entries that fit the
/// sector) named `name`.
pub open spec fn lookup(sec: Seq<u8>, name: Seq<char>, i: int, count: int) -> Option<int>
    decreases count - i,
{
    if i < 0 || i >= count || i >= 24 {
        None
    } else if entry_name(sec, i) == name {
        Some(i)
    } else {
        lookup(sec, name, i + 1, count)
    }
}

pub open spec fn header_of(img: Seq<u8>) -> Seq<u8> {
    crate::ramdisk::sector(img, OTA_PART_LBA as int)
}

pub open spec fn marker_ok(img: Seq<u8>) -> bool {
    header_of(img).subrange(0, 8) == ota_marker()
}

pub open spec fn entry_count(img: Seq<u8>) -> int {
    le32(header_of(img), 8)
}

/// Reading the entries would run past the header sector before `name` is
/// found.
pub open spec fn lookup_overruns(img: Seq<u8>, name: Seq<char>) -> bool {
    marker_ok(img) && entry_count(img) > 24 && lookup(header_of(img), name, 0, entry_count(img)) is None
}

/// What `load_file` returns.
pub open spec fn load_result(img: Seq<u8>, name: Seq<char>) -> Result<Seq<u8>, Seq<char>> {
    let sec = header_of(img);
    if !marker_ok(img) {
        Err("OTA: раздел пуст"@)
    } else {
        match lookup(sec, name, 0, entry_count(img)) {
            None => Err("OTA: файл '"@ + name + "' не найден"@),
            Some(i) => {
                let off = le32(sec, entry_at(i) + 16);
                let size = le32(sec, entry_at(i) + 20);
                let start = OTA_PART_LBA + off / 512;
                let k = (size + 511) / 512;
                if size == 0 {
                    Ok(Seq::empty())
                } else if start + k > RAMDISK_SECTORS {
                    Err("OTA: чтение данных"@)
                } else {
                    Ok(img.subrange(start * 512, start * 512 + size))
                }
            },
        }
    }
}

fn entry_name_exec(sec: &Vec<u8>, i: usize) -> (r: String)
    requires
        sec@.len() == 512,
        i < 24,
    ensures
        r@ == entry_name(sec@, i as int),
{
    let e: usize = 12 + i * 20;
    let mut name: String = String::new();
    let mut j: usize = 0;
    let ghost raw = sec@.subrange(e as int, e + 16);
    while j < 16
        invariant
            sec@.len() == 512,
            e == 12 + i * 20,
            i < 24,
            raw == sec@.subrange(e as int, e + 16),
            j <= 16,
            forall|k: int| 0 <= k < j ==> raw[k] != 0,
            name@ == latin1(raw.subrange(0, j as int)),
        ensures
            j <= 16,
            forall|k: int| 0 <= k < j ==> raw[k] != 0,
            name@ == latin1(raw.subrange(0, j as int)),
            j == 16 || raw[j as int] == 0,
        decreases 16 - j,
    {
        let b: u8 = sec[e + j];
        if b == 0 {
            break;
        }
        push_char(&mut name, b as char);
        assert(raw.subrange(0, j + 1) =~= raw.subrange(0, j as int).push(b));
        assert(latin1(raw.subrange(0, j + 1)) =~= latin1(raw.subrange(0, j as int)).push(b as char));
        j = j + 1;
    }
    proof {
        lemma_until_nul(raw, j as int);
    }
    name
}

/// The prefix before the first NUL.
proof fn lemma_until_nul(s: Seq<u8>, j: int)
    requires
        0 <= j <= s.len(),
        forall|k: int| 0 <= k < j ==> s[k] != 0,
        j == s.len() || s[j] == 0,
    ensures
        until_nul(s) == s.subrange(0, j),
    decreases j,
{
    if j == 0 {
        assert(s.subrange(0, 0) =~= Seq::<u8>::empty());
    } else {
        lemma_until_nul(s.drop_first(), j - 1);
        assert(s.subrange(0, j) =~= seq![s[0]] + s.drop_first().subrange(0, j - 1));
    }
}

/// Reads the file `name` from the partition.
pub fn load_file(disk: &RamDisk, name: &str) -> (r: Result<Vec<u8>, String>)
    requires
        disk.wf(),
        !lookup_overruns(disk@, name@),
    ensures
        match load_result(disk@, name@) {
            Ok(d) => r matches Ok(v) && v@ == d,
            Err(m) => r matches Err(e) && e@ == m,
        },
{
    let mut sec: Vec<u8> = crate::bytes::zeros(512);
    match disk.read_sector(OTA_PART_LBA, &mut sec) {
        Ok(()) => {},
        Err(()) => {
            return Err(string_of("OTA: нет раздела"));
        },
    }
    assert(sec@ =~= header_of(disk@));
    let marker: [u8; 8] = [0x44, 0x45, 0x49, 0x58, 0x4f, 0x54, 0x41, 0x31];
    assert(marker@ =~= ota_marker());
    let mut same: bool = true;
    let mut m: usize = 0;
    assert(sec@.subrange(0, 0) =~= ota_marker().subrange(0, 0));
    while m < 8
        invariant
            sec@.len() == 512,
            m <= 8,
            marker@ == ota_marker(),
            same == (sec@.subrange(0, m as int) == ota_marker().subrange(0, m as int)),
        decreases 8 - m,
    {
        proof {
            assert(sec@.subrange(0, m + 1) =~= sec@.subrange(0, m as int).push(sec@[m as int]));
            assert(ota_marker().subrange(0, m + 1) =~= ota_marker().subrange(0, m as int).push(ota_marker()[m as int]));
            if sec@.subrange(0, m + 1) == ota_marker().subrange(0, m + 1) {
                assert(sec@.subrange(0, m + 1)[m as int] == ota_marker().subrange(0, m + 1)[m as int]);
                assert(sec@.subrange(0, m + 1).subrange(0, m as int) =~= sec@.subrange(0, m as int));
                assert(ota_marker().subrange(0, m + 1).subrange(0, m as int) =~= ota_marker().subrange(0, m as int));
            }
        }
        if sec[m] != marker[m] {
            same = false;
        }
        m = m + 1;
    }
    assert(ota_marker().subrange(0, 8) =~= ota_marker());
    if !same {
        return Err(string_of("OTA: раздел пуст"));
    }
    let count: usize = crate::bytes::rd_le32(sec.as_slice(), 8) as usize;
    let mut i: usize = 0;
    while i < count
        invariant
            disk.wf(),
            sec@ == header_of(disk@),
            marker_ok(disk@),
            count == entry_count(disk@),
            !lookup_overruns(disk@, name@),
            i <= count,
            lookup(sec@, name@, 0, count as int) == lookup(sec@, name@, i as int, count as int),
        decreases count - i,
    {
        if i >= 24 {
            assert(false);
            return Err(string_of("OTA: нет раздела"));
        }
        let fname: String = entry_name_exec(&sec, i);
        let e: usize = 12 + i * 20;
        let off: u32 = crate::bytes::rd_le32(sec.as_slice(), e + 16);
        let size: u32 = crate::bytes::rd_le32(sec.as_slice(), e + 20);
        if str_eq(fname.as_str(), name) {
            assert(lookup(sec@, name@, i as int, count as int) == Some(i as int));
            let mut out: Vec<u8> = Vec::new();
            let mut lba: u32 = OTA_PART_LBA + off / 512;
            let ghost start: int = lba as int;
            let mut rem: usize = size as usize;
            let mut buf: Vec<u8> = crate::bytes::zeros(512);
            while rem > 0
                invariant
                    disk.wf(),
                    buf@.len() == 512,
                    start == OTA_PART_LBA + off / 512,
                    out@.len() + rem == size,
                    rem > 0 ==> out@.len() % 512 == 0,
                    lba == start + (out@.len() + 511) / 512,
                    out@.len() > 0 ==> lba <= RAMDISK_SECTORS,
                    out@.len() > 0 ==> out@ == disk@.subrange(start * 512, start * 512 + out@.len()),
                    out@.len() == 0 ==> out@ == Seq::<u8>::empty(),
                    sec@ == header_of(disk@),
                    marker_ok(disk@),
                    count == entry_count(disk@),
                    i < 24,
                    lookup(sec@, name@, 0, count as int) == Some(i as int),
                    off == le32(sec@, entry_at(i as int) + 16),
                    size == le32(sec@, entry_at(i as int) + 20),
                decreases rem,
            {
                match disk.read_sector(lba, &mut buf) {
                    Ok(()) => {},
                    Err(()) => {
                        assert(start + (size as int + 511) / 512 > RAMDISK_SECTORS) by (nonlinear_arith)
                            requires
                                lba >= RAMDISK_SECTORS,
                                lba == start + (out@.len() + 511) / 512,
                                out@.len() % 512 == 0,
                                out@.len() < size,
                        ;
                        return Err(string_of("OTA: чтение данных"));
                    },
                }
                let take: usize = if rem < 512 { rem } else { 512 };
                let part: Vec<u8> = crate::bytes::copy_range(buf.as_slice(), 0, take);
                let ghost before = out@;
                crate::bytes::extend_from(&mut out, part.as_slice());
                proof {
                    if before.len() == 0 {
                        assert(before =~= Seq::<u8>::empty());
                    }
                    assert(lba * 512 == start * 512 + before.len()) by (nonlinear_arith)
                        requires
                            lba == start + (before.len() + 511) / 512,
                            before.len() % 512 == 0,
                    ;
                    assert(disk@.subrange(start * 512, start * 512 + out@.len()) =~= before + disk@.subrange(lba * 512, lba * 512 + take));
                    assert((out@.len() + 511) / 512 == (before.len() + 511) / 512 + 1) by (nonlinear_arith)
                        requires
                            out@.len() == before.len() + take,
                            before.len() % 512 == 0,
                            1 <= take <= 512,
                    ;
                }
                lba = lba + 1;
                rem = rem - take;
            }
            return Ok(out);
        }
        i = i + 1;
    }
    let mut msg = string_of("OTA: файл '");
    push_str(&mut msg, name);
    push_str(&mut msg, "' не найден");
    Err(msg)
}

/// Whether `load_file` would find and read `name`.
pub fn has_file(disk: &RamDisk, name: &str) -> (r: bool)
    requires
        disk.wf(),
        !lookup_overruns(disk@, name@),
    ensures
        r == load_result(disk@, name@) is Ok,
{
    match load_file(disk, name) {
        Ok(_) => true,
        Err(_) => false,
    }
}


/// The image `store_file` leaves behind when the data fits.
pub open spec fn stored_image(img: Seq<u8>, name: Seq<u8>, data: Seq<u8>) -> Seq<u8> {
    splice(
        splice(img, lba_base(OTA_PART_LBA as int), store_header(name, data.len() as u32)),
        lba_base(OTA_PART_LBA + 1),
        padded(data),
    )
}

/// A name `load_file` can find again: ASCII, without NUL, at most 15
/// characters.
pub open spec fn storable_name(name: Seq<char>) -> bool {
    &&& name.len() <= 15
    &&& forall|i: int| 0 <= i < name.len() ==> '\u{1}' <= #[trigger] name[i] <= '\u{7f}'
}

proof fn lemma_le32_at(s: Seq<u8>, o: int, v: u32)
    requires
        0 <= o,
        o + 4 <= s.len(),
    ensures
        le32(splice(s, o, le32_bytes(v)), o) == v,
{
    let t = splice(s, o, le32_bytes(v));
    crate::bytes::lemma_splice_len(s, o, le32_bytes(v));
    assert(t[o] == le32_bytes(v)[0] && t[o + 1] == le32_bytes(v)[1] && t[o + 2] == le32_bytes(v)[2] && t[o + 3] == le32_bytes(v)[3]);
    crate::bytes::lemma_le32_roundtrip(v);
}

/// A file written by `store_file` reads back unchanged under its name.
pub proof fn lemma_store_then_load(img: Seq<u8>, name: &str, data: Seq<u8>)
    requires
        img.len() == crate::ramdisk::RAMDISK_SIZE,
        storable_name(name@),
        data_sectors(data.len()) <= OTA_PART_SECTORS - 1,
    ensures
        load_result(stored_image(img, name.spec_bytes(), data), name@) == Ok::<Seq<u8>, Seq<char>>(data),
{
    let nb = name.spec_bytes();
    assert(vstd::utf8::is_ascii_chars(name@));
    vstd::utf8::is_ascii_chars_encode_utf8(name@);
    let n = nb.len() as int;
    let hdr = store_header(nb, data.len() as u32);
    let lba0 = lba_base(OTA_PART_LBA as int);
    let img1 = splice(img, lba0, hdr);
    let img2 = splice(img1, lba_base(OTA_PART_LBA + 1), padded(data));
    let pd = padded(data);
    assert(pd.len() == data_sectors(data.len()) * 512) by (nonlinear_arith)
        requires
            pd.len() == data.len() + ((data.len() + 511) / 512 * 512 - data.len()),
            data_sectors(data.len()) == (data.len() + 511) / 512,
            (data.len() + 511) / 512 * 512 >= data.len(),
    ;
    // the header sector
    let s0 = splice(Seq::new(512, |i: int| 0u8), 0, ota_marker());
    let s1 = splice(s0, 8, le32_bytes(1));
    let s2 = splice(s1, 12, nb.subrange(0, n));
    let s3 = splice(s2, 28, le32_bytes(512));
    assert(hdr == splice(s3, 32, le32_bytes(data.len() as u32)));
    assert(hdr.len() == 512);
    assert(header_of(img2) =~= hdr);
    assert(hdr.subrange(0, 8) =~= ota_marker());
    assert(le32(hdr, 8) == 1) by {
        lemma_le32_at(s0, 8, 1);
        assert(hdr[8] == s1[8] && hdr[9] == s1[9] && hdr[10] == s1[10] && hdr[11] == s1[11]);
    }
    assert(le32(hdr, 28) == 512) by {
        lemma_le32_at(s2, 28, 512);
        assert(hdr[28] == s3[28] && hdr[29] == s3[29] && hdr[30] == s3[30] && hdr[31] == s3[31]);
    }
    assert(le32(hdr, 32) == data.len() as u32) by {
        lemma_le32_at(s3, 32, data.len() as u32);
    }
    // the single entry holds the name
    let raw = hdr.subrange(12, 28);
    assert forall|k: int| 0 <= k < n implies raw[k] == nb[k] by {
        assert(raw[k] == s2[12 + k]);
    }
    assert forall|k: int| n <= k < 16 implies raw[k] == 0 by {
        assert(raw[k] == s2[12 + k]);
    }
    lemma_until_nul(raw, n);
    assert(raw.subrange(0, n) =~= nb);
    assert(latin1(nb) =~= name@) by {
        assert forall|k: int| 0 <= k < n implies latin1(nb)[k] == name@[k] by {
            assert(name@[k] as u8 == nb[k]);
        }
    }
    assert(entry_name(hdr, 0) == name@);
    assert(lookup(hdr, name@, 0, 1) == Some(0int));
    // the data
    assert(data.len() < 0x1_0000_0000);
    assert(img2 == stored_image(img, nb, data));
    assert(marker_ok(img2));
    assert(entry_count(img2) == 1);
    assert(lookup(header_of(img2), name@, 0, entry_count(img2)) == Some(0int));
    assert(le32(header_of(img2), entry_at(0) + 16) == 512);
    assert(le32(header_of(img2), entry_at(0) + 20) == data.len());
    if data.len() == 0 {
        assert(data =~= Seq::<u8>::empty());
    }
    if data.len() > 0 {
        assert(img2.subrange((OTA_PART_LBA + 1) * 512, (OTA_PART_LBA + 1) * 512 + data.len()) =~= data) by {
            assert forall|k: int| 0 <= k < data.len() implies img2[(OTA_PART_LBA + 1) * 512 + k] == data[k] by {
                assert(pd[k] == data[k]);
            }
        }
    }
}

} // verus!

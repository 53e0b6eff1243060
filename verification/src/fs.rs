//! File metadata over ext2: permissions, owners and the system flag of
//! each file, kept in the table FILES.DB and listed by name.
use vstd::prelude::*;
use crate::text::{trim_ws, split_on, parse_unsigned, views};
use crate::init_parser::lines;
use crate::ramdisk::RamDisk;

verus! {

/// Permission bits of a file: 4 read, 2 write, 1 execute.
#[derive(Debug, Clone, Copy, PartialEq, Eq, Structural)]
pub struct Permissions(pub u8);

/// Bits of read-only, read-write and all-rights permissions.
pub const PERM_R: u8 = 4;
pub const PERM_RW: u8 = 6;
pub const PERM_RWX: u8 = 7;

impl Permissions {
    /// The bits as an octal digit.
    pub fn as_octal(&self) -> (r: u16)
        ensures
            r == self.0 as u16,
    {
        self.0 as u16
    }

    /// The read bit; the owner flag plays no part.
    pub fn can_read(&self, _o: bool) -> (r: bool)
        ensures
            r == (self.0 & 4 != 0),
    {
        self.0 & 4 != 0
    }

    /// The write bit; the owner flag plays no part.
    pub fn can_write(&self, _o: bool) -> (r: bool)
        ensures
            r == (self.0 & 2 != 0),
    {
        self.0 & 2 != 0
    }
}

/// What the table records of a file.
#[derive(Debug)]
pub struct FileMeta {
    pub name: String,
    pub is_dir: bool,
    pub size: u64,
    pub owner: String,
    pub group: String,
    pub perms: Permissions,
    pub system: bool,
    pub created_at: u64,
}

/// A record as the specification sees it: name, directory flag, size,
/// owner, group, permission bits, system flag, creation time.
pub type MetaT = (Seq<char>, bool, u64, Seq<char>, Seq<char>, u8, bool, u64);

impl FileMeta {
    pub open spec fn meta(&self) -> MetaT {
        (self.name@, self.is_dir, self.size, self.owner@, self.group@, self.perms.0, self.system, self.created_at)
    }

    /// A new file of owner `o` in group "users", read-write, created at `now`.
    pub fn new_file(n: &str, o: &str, now: u64) -> (r: FileMeta)
        ensures
            r.meta() == (n@, false, 0u64, o@, "users"@, 6u8, false, now),
    {
        FileMeta {
            name: crate::text::string_of(n),
            is_dir: false,
            size: 0,
            owner: crate::text::string_of(o),
            group: crate::text::string_of("users"),
            perms: Permissions(PERM_RW),
            system: false,
            created_at: now,
        }
    }

    /// A new directory of owner `o` in group "users", all rights, created
    /// at `now`.
    pub fn new_dir(n: &str, o: &str, now: u64) -> (r: FileMeta)
        ensures
            r.meta() == (n@, true, 0u64, o@, "users"@, 7u8, false, now),
    {
        FileMeta {
            name: crate::text::string_of(n),
            is_dir: true,
            size: 0,
            owner: crate::text::string_of(o),
            group: crate::text::string_of("users"),
            perms: Permissions(PERM_RWX),
            system: false,
            created_at: now,
        }
    }
}

pub(crate) fn copy_meta(m: &FileMeta) -> (r: FileMeta)
    ensures
        r.meta() == m.meta(),
{
    FileMeta {
        name: crate::text::string_of(m.name.as_str()),
        is_dir: m.is_dir,
        size: m.size,
        owner: crate::text::string_of(m.owner.as_str()),
        group: crate::text::string_of(m.group.as_str()),
        perms: m.perms,
        system: m.system,
        created_at: m.created_at,
    }
}

/// The metadata table, ordered by name, and the current user.
pub struct FsState {
    pub db: Vec<FileMeta>,
    pub cur_user: String,
}

pub open spec fn metas(db: Seq<FileMeta>) -> Seq<MetaT> {
    db.map_values(|m: FileMeta| m.meta())
}

/// `a` comes before `b`: compared character by character, a proper
/// prefix first.
pub open spec fn chars_lt(a: Seq<char>, b: Seq<char>) -> bool
    decreases a.len(),
{
    if a.len() == 0 {
        b.len() > 0
    } else if b.len() == 0 {
        false
    } else if a[0] != b[0] {
        (a[0] as u32) < (b[0] as u32)
    } else {
        chars_lt(a.drop_first(), b.drop_first())
    }
}

pub(crate) fn name_lt(a: &str, b: &str) -> (r: bool)
    ensures
        r == chars_lt(a@, b@),
{
    let x: Vec<char> = crate::text::chars_of(a);
    let y: Vec<char> = crate::text::chars_of(b);
    let mut i: usize = 0;
    assert(x@.subrange(0, x@.len() as int) =~= x@);
    assert(y@.subrange(0, y@.len() as int) =~= y@);
    while i < x.len() && i < y.len() && x[i] == y[i]
        invariant
            x@ == a@,
            y@ == b@,
            i <= x@.len(),
            i <= y@.len(),
            chars_lt(a@, b@) == chars_lt(x@.subrange(i as int, x@.len() as int), y@.subrange(i as int, y@.len() as int)),
        decreases x@.len() - i,
    {
        assert(x@.subrange(i + 1, x@.len() as int) =~= x@.subrange(i as int, x@.len() as int).drop_first());
        assert(y@.subrange(i + 1, y@.len() as int) =~= y@.subrange(i as int, y@.len() as int).drop_first());
        i = i + 1;
    }
    if i == x.len() {
        return i < y.len();
    }
    if i == y.len() {
        return false;
    }
    (x[i] as u32) < (y[i] as u32)
}

/// The table after recording `m`: it replaces the entry of the same
/// name, else goes before the first entry not ordered before it.
pub open spec fn sorted_insert(db: Seq<MetaT>, m: MetaT) -> Seq<MetaT>
    decreases db.len(),
{
    if db.len() == 0 {
        seq![m]
    } else if db[0].0 == m.0 {
        seq![m] + db.drop_first()
    } else if chars_lt(db[0].0, m.0) {
        seq![db[0]] + sorted_insert(db.drop_first(), m)
    } else {
        seq![m] + db
    }
}

proof fn lemma_insert_at(db: Seq<MetaT>, m: MetaT, i: int)
    requires
        0 <= i <= db.len(),
        forall|k: int| 0 <= k < i ==> db[k].0 != m.0 && chars_lt(#[trigger] db[k].0, m.0),
    ensures
        sorted_insert(db, m) == db.subrange(0, i) + sorted_insert(db.subrange(i, db.len() as int), m),
    decreases i,
{
    if i == 0 {
        assert(db.subrange(0, 0) + sorted_insert(db.subrange(0, db.len() as int), m) =~= sorted_insert(db, m)) by {
            assert(db.subrange(0, db.len() as int) =~= db);
        }
    } else {
        let t = db.drop_first();
        assert forall|k: int| 0 <= k < i - 1 implies t[k].0 != m.0 && chars_lt(#[trigger] t[k].0, m.0) by {
            assert(t[k] == db[k + 1]);
        }
        lemma_insert_at(t, m, i - 1);
        assert(t.subrange(i - 1, t.len() as int) =~= db.subrange(i, db.len() as int));
        assert(seq![db[0]] + (t.subrange(0, i - 1) + sorted_insert(db.subrange(i, db.len() as int), m)) =~= db.subrange(0, i)
            + sorted_insert(db.subrange(i, db.len() as int), m));
    }
}

/// Records `m` in the table.
fn insert_meta(db: &mut Vec<FileMeta>, m: FileMeta)
    ensures
        metas(final(db)@) == sorted_insert(metas(old(db)@), m.meta()),
{
    let ghost d0 = metas(db@);
    let mut i: usize = 0;
    while i < db.len()
        invariant
            i <= db@.len(),
            db@ == old(db)@,
            d0 == metas(db@),
            forall|k: int| 0 <= k < i ==> d0[k].0 != m.meta().0 && chars_lt(#[trigger] d0[k].0, m.meta().0),
        ensures
            i <= db@.len(),
            db@ == old(db)@,
            forall|k: int| 0 <= k < i ==> d0[k].0 != m.meta().0 && chars_lt(#[trigger] d0[k].0, m.meta().0),
            i < db@.len() ==> (d0[i as int].0 == m.meta().0 || !chars_lt(d0[i as int].0, m.meta().0)),
        decreases db@.len() - i,
    {
        if crate::text::str_eq(db[i].name.as_str(), m.name.as_str()) {
            break;
        }
        if !name_lt(db[i].name.as_str(), m.name.as_str()) {
            break;
        }
        i = i + 1;
    }
    proof {
        lemma_insert_at(d0, m.meta(), i as int);
    }
    let ghost rest = d0.subrange(i as int, d0.len() as int);
    if i < db.len() && crate::text::str_eq(db[i].name.as_str(), m.name.as_str()) {
        let ghost mv = m.meta();
        db.set(i, m);
        assert(metas(db@) =~= d0.subrange(0, i as int) + (seq![mv] + rest.drop_first()));
    } else {
        let ghost mv = m.meta();
        db.insert(i, m);
        assert(metas(db@) =~= d0.subrange(0, i as int) + (seq![mv] + rest));
    }
}

/// Empties the table and forgets the current user.
pub fn reset_fs_state(st: &mut FsState)
    ensures
        final(st).db@.len() == 0,
        final(st).cur_user@.len() == 0,
{
    st.db = Vec::new();
    st.cur_user = String::new();
}

pub open spec fn or_zero(v: Option<nat>) -> nat {
    match v {
        Some(x) => x,
        None => 0,
    }
}

/// The record a line of FILES.DB gives: trimmed, not empty and not a
/// comment, split at '|' into at least seven fields — name, "d" for a
/// directory, size, owner, group, permission bits, "sys" for a system
/// file and, optionally, the creation time (numbers that do not parse
/// count as 0).
pub open spec fn record_of(line: Seq<char>) -> Option<MetaT> {
    let t = trim_ws(line);
    if t.len() == 0 || t[0] == '#' {
        None
    } else {
        let p = split_on(t, '|');
        if p.len() < 7 {
            None
        } else {
            Some(
                (
                    p[0],
                    p[1] == "d"@,
                    or_zero(parse_unsigned(p[2], u64::MAX as nat)) as u64,
                    p[3],
                    p[4],
                    or_zero(parse_unsigned(p[5], u8::MAX as nat)) as u8,
                    p[6] == "sys"@,
                    if p.len() > 7 {
                        or_zero(parse_unsigned(p[7], u64::MAX as nat)) as u64
                    } else {
                        0u64
                    },
                ),
            )
        }
    }
}

/// The table after reading lines `0..n`, from an empty one.
pub open spec fn table_of(ls: Seq<Seq<char>>, n: int) -> Seq<MetaT>
    decreases n,
{
    if n <= 0 {
        Seq::empty()
    } else {
        match record_of(ls[n - 1]) {
            Some(m) => sorted_insert(table_of(ls, n - 1), m),
            None => table_of(ls, n - 1),
        }
    }
}

fn parse_field_u64(p: &String, max: u64) -> (r: u64)
    ensures
        r == or_zero(parse_unsigned(p@, max as nat)),
{
    let cs: Vec<char> = crate::text::chars_of(p.as_str());
    assert(cs@.subrange(0, cs@.len() as int) =~= cs@);
    match crate::text::parse_unsigned_chars(cs.as_slice(), 0, cs.len(), max) {
        Some(v) => v,
        None => 0,
    }
}

/// The record of one line, as `record_of` says.
fn parse_record(line: &Vec<char>) -> (r: Option<FileMeta>)
    ensures
        match record_of(line@) {
            None => r is None,
            Some(m) => r matches Some(x) && x.meta() == m,
        },
{
    let (lo, hi) = crate::text::trim_bounds(line.as_slice(), 0, line.len());
    assert(line@.subrange(0, line@.len() as int) =~= line@);
    if lo == hi || line[lo] == '#' {
        return None;
    }
    let p: Vec<String> = crate::text::split_chars(line.as_slice(), lo, hi, '|');
    if p.len() < 7 {
        return None;
    }
    assert(views(p@)[0] == p@[0]@ && views(p@)[1] == p@[1]@ && views(p@)[2] == p@[2]@ && views(p@)[3] == p@[3]@);
    assert(views(p@)[4] == p@[4]@ && views(p@)[5] == p@[5]@ && views(p@)[6] == p@[6]@);
    let created: u64 = if p.len() > 7 {
        assert(views(p@)[7] == p@[7]@);
        parse_field_u64(&p[7], u64::MAX)
    } else {
        0
    };
    let perms: u8 = parse_field_u64(&p[5], 255) as u8;
    Some(
        FileMeta {
            name: crate::text::string_of(p[0].as_str()),
            is_dir: crate::text::str_eq(p[1].as_str(), "d"),
            size: parse_field_u64(&p[2], u64::MAX),
            owner: crate::text::string_of(p[3].as_str()),
            group: crate::text::string_of(p[4].as_str()),
            perms: Permissions(perms),
            system: crate::text::str_eq(p[6].as_str(), "sys"),
            created_at: created,
        },
    )
}

/// Replaces the table with the one FILES.DB holds in `raw`; a file that
/// is not UTF-8 leaves the table as it was.
pub fn load_meta_db_from(st: &mut FsState, raw: &[u8])
    ensures
        final(st).cur_user == old(st).cur_user,
        vstd::utf8::valid_utf8(raw@) ==> metas(final(st).db@) == ({
            let ls = lines(vstd::utf8::decode_utf8(raw@));
            table_of(ls, ls.len() as int)
        }),
        !vstd::utf8::valid_utf8(raw@) ==> final(st).db@ == old(st).db@,
{
    let text: String = match crate::text::utf8_to_string(raw) {
        Some(t) => t,
        None => {
            return;
        },
    };
    let cs: Vec<char> = crate::text::chars_of(text.as_str());
    let ls: Vec<Vec<char>> = crate::init_parser::split_lines(cs.as_slice());
    let ghost lv = ls@.map_values(|l: Vec<char>| l@);
    st.db = Vec::new();
    let mut i: usize = 0;
    while i < ls.len()
        invariant
            lv == ls@.map_values(|l: Vec<char>| l@),
            lv == lines(vstd::utf8::decode_utf8(raw@)),
            i <= ls@.len(),
            metas(st.db@) == table_of(lv, i as int),
            st.cur_user == old(st).cur_user,
        decreases ls@.len() - i,
    {
        assert(lv[i as int] == ls@[i as int]@);
        match parse_record(&ls[i]) {
            Some(m) => {
                insert_meta(&mut st.db, m);
            },
            None => {},
        }
        i = i + 1;
    }
}

/// Reads FILES.DB from the ext2 volume into the table; when the file
/// cannot be read the table stays as it was.
pub fn load_meta_db(st: &mut FsState, disk: &RamDisk)
    requires
        disk.wf(),
    ensures
        final(st).cur_user == old(st).cur_user,
        !crate::ext2::formatted(disk@) ==> final(st).db@ == old(st).db@,
        crate::ext2::dir_lookup(disk@, crate::ext2::ROOT_INO, "FILES.DB"@) == Ok::<Option<u32>, ()>(None) ==> final(st).db@
            == old(st).db@,
        crate::ext2::formatted(disk@) ==> (crate::ext2::file_bytes(disk@, crate::ext2::ROOT_INO, "FILES.DB"@) matches Some(d)
            ==> (vstd::utf8::valid_utf8(d) ==> metas(final(st).db@) == ({
            let ls = lines(vstd::utf8::decode_utf8(d));
            table_of(ls, ls.len() as int)
        })) && (!vstd::utf8::valid_utf8(d) ==> final(st).db@ == old(st).db@)),
{
    proof {
        reveal_strlit("FILES.DB");
        assert(vstd::string::is_ascii("FILES.DB"));
        vstd::string::is_ascii_spec_bytes("FILES.DB");
        assert(!"FILES.DB"@.contains('/')) by {
            if "FILES.DB"@.contains('/') {
                let i = choose|i: int| 0 <= i < "FILES.DB"@.len() && "FILES.DB"@[i] == '/';
            }
        }
        assert(!"FILES.DB"@.contains('\0')) by {
            if "FILES.DB"@.contains('\0') {
                let i = choose|i: int| 0 <= i < "FILES.DB"@.len() && "FILES.DB"@[i] == '\0';
            }
        }
        assert(crate::ext2::name_ok("FILES.DB"));
    }
    match crate::ext2::read_file(disk, "FILES.DB") {
        Ok(raw) => load_meta_db_from(st, raw.as_slice()),
        Err(_) => {},
    }
}

/// The table's entries, in name order.
pub fn list_dir(st: &FsState) -> (r: Vec<FileMeta>)
    ensures
        metas(r@) == metas(st.db@),
{
    let mut out: Vec<FileMeta> = Vec::new();
    let mut i: usize = 0;
    while i < st.db.len()
        invariant
            i <= st.db@.len(),
            metas(out@) == metas(st.db@).subrange(0, i as int),
        decreases st.db@.len() - i,
    {
        let ghost before = metas(out@);
        out.push(copy_meta(&st.db[i]));
        assert(metas(out@) =~= before.push(st.db@[i as int].meta()));
        assert(metas(st.db@).subrange(0, i + 1) =~= metas(st.db@).subrange(0, i as int).push(st.db@[i as int].meta()));
        i = i + 1;
    }
    assert(metas(st.db@).subrange(0, i as int) =~= metas(st.db@));
    out
}

} // verus!

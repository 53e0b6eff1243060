//! The file manager's model: the listed entries in the chosen order, the
//! cursor and the current path.
use vstd::prelude::*;
use crate::fs::{FileMeta, FsState, MetaT, chars_lt, metas};
use crate::text::{split_on, views, lowercase, to_lowercase};

verus! {

/// A listed file and whether it is selected.
pub struct FileEntry {
    pub meta: FileMeta,
    pub selected: bool,
}

/// Entries, cursor, scroll position, visible rows, current path, sort key
/// (0 name, 1 size, 2 date) and whether the list must be reread.
pub struct FileManager {
    pub entries: Vec<FileEntry>,
    pub current_idx: usize,
    pub scroll_offset: usize,
    pub view_height: usize,
    pub current_path: String,
    pub sort_by: u8,
    pub dirty: bool,
}

/// `a` sorts strictly before `b` under sort key `key`: by name,
/// directories first and then case-insensitively; by size, larger first;
/// by date, newer first. Any other key keeps the order.
pub open spec fn before(key: u8, a: MetaT, b: MetaT) -> bool {
    if key == 0 {
        if a.1 != b.1 {
            a.1 && !b.1
        } else {
            chars_lt(lowercase(a.0), lowercase(b.0))
        }
    } else if key == 1 {
        a.2 > b.2
    } else if key == 2 {
        a.7 > b.7
    } else {
        false
    }
}

/// `x` placed into `s` before the first element it sorts before.
pub open spec fn place(key: u8, s: Seq<MetaT>, x: MetaT) -> Seq<MetaT>
    decreases s.len(),
{
    if s.len() == 0 {
        seq![x]
    } else if before(key, x, s[0]) {
        seq![x] + s
    } else {
        seq![s[0]] + place(key, s.drop_first(), x)
    }
}

/// The stable sort of `s` under `key`.
pub open spec fn sorted_by(key: u8, s: Seq<MetaT>) -> Seq<MetaT>
    decreases s.len(),
{
    if s.len() == 0 {
        s
    } else {
        place(key, sorted_by(key, s.drop_last()), s.last())
    }
}

pub open spec fn entry_metas(v: Seq<FileEntry>) -> Seq<MetaT> {
    v.map_values(|e: FileEntry| e.meta.meta())
}

fn sorts_before(key: u8, a: &FileMeta, b: &FileMeta) -> (r: bool)
    ensures
        r == before(key, a.meta(), b.meta()),
{
    if key == 0 {
        if a.is_dir != b.is_dir {
            a.is_dir && !b.is_dir
        } else {
            let la: String = to_lowercase(a.name.as_str());
            let lb: String = to_lowercase(b.name.as_str());
            crate::fs::name_lt(la.as_str(), lb.as_str())
        }
    } else if key == 1 {
        a.size > b.size
    } else if key == 2 {
        a.created_at > b.created_at
    } else {
        false
    }
}

proof fn lemma_place_at(key: u8, s: Seq<MetaT>, x: MetaT, i: int)
    requires
        0 <= i <= s.len(),
        forall|k: int| 0 <= k < i ==> !before(key, x, #[trigger] s[k]),
    ensures
        place(key, s, x) == s.subrange(0, i) + place(key, s.subrange(i, s.len() as int), x),
    decreases i,
{
    if i == 0 {
        assert(s.subrange(0, s.len() as int) =~= s);
        assert(s.subrange(0, 0) + place(key, s, x) =~= place(key, s, x));
    } else {
        let t = s.drop_first();
        assert forall|k: int| 0 <= k < i - 1 implies !before(key, x, #[trigger] t[k]) by {
            assert(t[k] == s[k + 1]);
        }
        lemma_place_at(key, t, x, i - 1);
        assert(t.subrange(i - 1, t.len() as int) =~= s.subrange(i, s.len() as int));
        assert(seq![s[0]] + (t.subrange(0, i - 1) + place(key, s.subrange(i, s.len() as int), x)) =~= s.subrange(0, i)
            + place(key, s.subrange(i, s.len() as int), x));
    }
}

impl FileManager {
    /// An empty manager at "/" with twenty visible rows, sorted by name.
    pub fn new() -> (r: FileManager)
        ensures
            r.entries@.len() == 0,
            r.current_idx == 0,
            r.scroll_offset == 0,
            r.view_height == 20,
            r.current_path@ == "/"@,
            r.sort_by == 0,
            r.dirty,
    {
        FileManager {
            entries: Vec::new(),
            current_idx: 0,
            scroll_offset: 0,
            view_height: 20,
            current_path: crate::text::string_of("/"),
            sort_by: 0,
            dirty: true,
        }
    }

    /// Rereads the entries from the metadata table, unselected, in the
    /// order of the sort key.
    pub fn refresh(&mut self, fs: &FsState)
        ensures
            entry_metas(final(self).entries@) == sorted_by(old(self).sort_by, metas(fs.db@)),
            forall|i: int| 0 <= i < final(self).entries@.len() ==> !(#[trigger] final(self).entries@[i]).selected,
            !final(self).dirty,
            final(self).sort_by == old(self).sort_by,
            final(self).current_path == old(self).current_path,
            final(self).current_idx == old(self).current_idx,
    {
        let files: Vec<FileMeta> = crate::fs::list_dir(fs);
        let ghost src = metas(files@);
        let key: u8 = self.sort_by;
        let mut sorted: Vec<FileEntry> = Vec::new();
        let mut files = files;
        let mut taken: Vec<FileMeta> = Vec::new();
        let n: usize = files.len();
        let mut k: usize = 0;
        assert(src.subrange(0, 0) =~= Seq::<MetaT>::empty());
        while k < n
            invariant
                n == files@.len(),
                src == metas(files@),
                k <= n,
                entry_metas(sorted@) == sorted_by(key, src.subrange(0, k as int)),
                forall|i: int| 0 <= i < sorted@.len() ==> !(#[trigger] sorted@[i]).selected,
            decreases n - k,
        {
            let m: FileMeta = crate::fs::copy_meta(&files[k]);
            let ghost cur = entry_metas(sorted@);
            let mut i: usize = 0;
            while i < sorted.len()
                invariant
                    i <= sorted@.len(),
                    cur == entry_metas(sorted@),
                    forall|j: int| 0 <= j < i ==> !before(key, m.meta(), #[trigger] cur[j]),
                ensures
                    i <= sorted@.len(),
                    cur == entry_metas(sorted@),
                    forall|j: int| 0 <= j < i ==> !before(key, m.meta(), #[trigger] cur[j]),
                    i < sorted@.len() ==> before(key, m.meta(), cur[i as int]),
                decreases sorted@.len() - i,
            {
                if sorts_before(key, &m, &sorted[i].meta) {
                    break;
                }
                i = i + 1;
            }
            proof {
                lemma_place_at(key, cur, m.meta(), i as int);
            }
            let ghost mv = m.meta();
            let ghost rest = cur.subrange(i as int, cur.len() as int);
            sorted.insert(i, FileEntry { meta: m, selected: false });
            assert(entry_metas(sorted@) =~= cur.subrange(0, i as int) + (seq![mv] + rest));
            assert(src.subrange(0, k + 1).drop_last() =~= src.subrange(0, k as int));
            assert(src.subrange(0, k + 1).last() == mv);
            k = k + 1;
        }
        assert(src.subrange(0, n as int) =~= src);
        self.entries = sorted;
        self.dirty = false;
    }

    /// Steps into directory `name` under the current path: from "/",
    /// entering "a" gives "/a/", and then "b" gives "/a/b/".
    pub fn enter_directory(&mut self, name: &str)
        ensures
            final(self).current_path@ == trim_end_slashes(old(self).current_path@) + "/"@ + name@ + "/"@,
            final(self).current_idx == 0,
            final(self).dirty,
            final(self).sort_by == old(self).sort_by,
    {
        let cs: Vec<char> = crate::text::chars_of(self.current_path.as_str());
        let mut end: usize = cs.len();
        assert(cs@.subrange(0, end as int) =~= cs@);
        while end > 0 && cs[end - 1] == '/'
            invariant
                end <= cs@.len(),
                trim_end_slashes(cs@.subrange(0, end as int)) == trim_end_slashes(cs@),
            decreases end,
        {
            assert(cs@.subrange(0, end - 1) =~= cs@.subrange(0, end as int).drop_last());
            end = end - 1;
        }
        let mut p: String = crate::text::string_from_chars(cs.as_slice(), 0, end);
        crate::text::push_str(&mut p, "/");
        crate::text::push_str(&mut p, name);
        crate::text::push_str(&mut p, "/");
        self.current_path = p;
        self.current_idx = 0;
        self.dirty = true;
    }

    /// Steps up one directory; at "/" nothing changes.
    pub fn go_up(&mut self)
        ensures
            old(self).current_path@ == "/"@ ==> final(self).current_path == old(self).current_path && final(self).current_idx
                == old(self).current_idx && final(self).dirty == old(self).dirty,
            old(self).current_path@ != "/"@ ==> final(self).current_path@ == parent_path(old(self).current_path@)
                && final(self).current_idx == 0 && final(self).dirty,
            final(self).sort_by == old(self).sort_by,
    {
        if crate::text::str_eq(self.current_path.as_str(), "/") {
            return;
        }
        let cs: Vec<char> = crate::text::chars_of(self.current_path.as_str());
        let mut lo: usize = 0;
        let mut hi: usize = cs.len();
        assert(cs@.subrange(0, hi as int) =~= cs@);
        while hi > 0 && cs[hi - 1] == '/'
            invariant
                hi <= cs@.len(),
                trim_end_slashes(cs@.subrange(0, hi as int)) == trim_end_slashes(cs@),
            decreases hi,
        {
            assert(cs@.subrange(0, hi - 1) =~= cs@.subrange(0, hi as int).drop_last());
            hi = hi - 1;
        }
        assert(cs@.subrange(lo as int, hi as int) =~= trim_end_slashes(cs@));
        while lo < hi && cs[lo] == '/'
            invariant
                lo <= hi <= cs@.len(),
                trim_start_slashes(cs@.subrange(lo as int, hi as int)) == trim_slashes(cs@),
            decreases hi - lo,
        {
            assert(cs@.subrange(lo + 1, hi as int) =~= cs@.subrange(lo as int, hi as int).drop_first());
            lo = lo + 1;
        }
        let parts: Vec<String> = crate::text::split_chars(cs.as_slice(), lo, hi, '/');
        if parts.len() <= 1 {
            self.current_path = crate::text::string_of("/");
        } else {
            let mut p: String = crate::text::string_of("/");
            let mut k: usize = 0;
            while k < parts.len() - 1
                invariant
                    1 < parts@.len(),
                    k <= parts@.len() - 1,
                    p@ == "/"@ + joined(views(parts@).subrange(0, k as int)),
                decreases parts@.len() - 1 - k,
            {
                let ghost before_p = p@;
                if k > 0 {
                    crate::text::push_str(&mut p, "/");
                }
                crate::text::push_str(&mut p, parts[k].as_str());
                assert(views(parts@).subrange(0, k + 1).drop_last() =~= views(parts@).subrange(0, k as int));
                assert(views(parts@)[k as int] == parts@[k as int]@);
                k = k + 1;
            }
            crate::text::push_str(&mut p, "/");
            self.current_path = p;
        }
        self.current_idx = 0;
        self.dirty = true;
    }
}

/// `s` without trailing '/'.
pub open spec fn trim_end_slashes(s: Seq<char>) -> Seq<char>
    decreases s.len(),
{
    if s.len() > 0 && s.last() == '/' {
        trim_end_slashes(s.drop_last())
    } else {
        s
    }
}

/// `s` without leading '/'.
pub open spec fn trim_start_slashes(s: Seq<char>) -> Seq<char>
    decreases s.len(),
{
    if s.len() > 0 && s[0] == '/' {
        trim_start_slashes(s.drop_first())
    } else {
        s
    }
}

pub open spec fn trim_slashes(s: Seq<char>) -> Seq<char> {
    trim_start_slashes(trim_end_slashes(s))
}

/// Pieces joined with '/' between them.
pub open spec fn joined(parts: Seq<Seq<char>>) -> Seq<char>
    decreases parts.len(),
{
    if parts.len() == 0 {
        Seq::empty()
    } else if parts.len() == 1 {
        parts[0]
    } else {
        joined(parts.drop_last()) + "/"@ + parts.last()
    }
}

/// The path one level up: "/" for a single component, else "/" and the
/// components but the last, joined with '/', and a final '/'.
pub open spec fn parent_path(path: Seq<char>) -> Seq<char> {
    let parts = split_on(trim_slashes(path), '/');
    if parts.len() <= 1 {
        "/"@
    } else {
        "/"@ + joined(parts.subrange(0, parts.len() - 1)) + "/"@
    }
}

/// What the file manager's loop does after a key: stop, nothing more,
/// show the refreshed list, open a file, or ask for a directory name, a
/// delete confirmation or a new file's name.
pub enum FmAction {
    Quit,
    Stay,
    Refreshed,
    OpenFile(String),
    PromptMkdir,
    ConfirmDelete(String),
    PromptCreate,
}

/// The view of an action: its kind and, for a file, its name.
pub open spec fn action_view(a: FmAction) -> (u8, Seq<char>) {
    match a {
        FmAction::Quit => (0, Seq::empty()),
        FmAction::Stay => (1, Seq::empty()),
        FmAction::Refreshed => (2, Seq::empty()),
        FmAction::OpenFile(n) => (3, n@),
        FmAction::PromptMkdir => (4, Seq::empty()),
        FmAction::ConfirmDelete(n) => (5, n@),
        FmAction::PromptCreate => (6, Seq::empty()),
    }
}

/// Handles one key of the file manager: q, Q or Esc quits; Enter opens the
/// selected entry (a directory is entered and the list refreshed, a file is
/// handed out to be shown); the arrows move the selection inside the list;
/// Backspace goes up and refreshes; 7 asks for a directory, 8 asks to
/// delete the selected entry, t asks for a new file; s moves to the next
/// sort key and refreshes. Other keys change nothing.
pub fn on_key(fm: &mut FileManager, fs: &FsState, key: u8) -> (r: FmAction)
    ensures
        (key == 0x71 || key == 0x51 || key == 27) ==> action_view(r) == (0u8, Seq::<char>::empty()) && *final(fm) == *old(fm),
        (key == 0x0D || key == 0x0A) ==> if old(fm).current_idx < old(fm).entries@.len() {
            let e = old(fm).entries@[old(fm).current_idx as int];
            if e.meta.is_dir {
                &&& action_view(r) == (2u8, Seq::<char>::empty())
                &&& final(fm).current_path@ == trim_end_slashes(old(fm).current_path@) + "/"@ + e.meta.name@ + "/"@
                &&& final(fm).current_idx == 0
                &&& entry_metas(final(fm).entries@) == sorted_by(old(fm).sort_by, metas(fs.db@))
                &&& final(fm).sort_by == old(fm).sort_by
            } else {
                action_view(r) == (3u8, e.meta.name@) && *final(fm) == *old(fm)
            }
        } else {
            action_view(r) == (1u8, Seq::<char>::empty()) && *final(fm) == *old(fm)
        },
        key == crate::keyboard::ARROW_UP ==> action_view(r) == (1u8, Seq::<char>::empty()) && final(fm).current_idx == (if old(
            fm,
        ).current_idx > 0 {
            old(fm).current_idx - 1
        } else {
            old(fm).current_idx as int
        }) && final(fm).entries == old(fm).entries && final(fm).current_path == old(fm).current_path,
        key == crate::keyboard::ARROW_DOWN ==> action_view(r) == (1u8, Seq::<char>::empty()) && final(fm).current_idx == (if old(
            fm,
        ).current_idx + 1 < old(fm).entries@.len() {
            old(fm).current_idx + 1
        } else {
            old(fm).current_idx as int
        }) && final(fm).entries == old(fm).entries && final(fm).current_path == old(fm).current_path,
        key == 0x08 ==> action_view(r) == (2u8, Seq::<char>::empty()) && (old(fm).current_path@ != "/"@ ==> final(fm).current_path@
            == parent_path(old(fm).current_path@)) && (old(fm).current_path@ == "/"@ ==> final(fm).current_path
            == old(fm).current_path) && entry_metas(final(fm).entries@) == sorted_by(old(fm).sort_by, metas(fs.db@)),
        key == 0x37 ==> action_view(r) == (4u8, Seq::<char>::empty()) && *final(fm) == *old(fm),
        key == 0x38 ==> *final(fm) == *old(fm) && if old(fm).current_idx < old(fm).entries@.len() {
            action_view(r) == (5u8, old(fm).entries@[old(fm).current_idx as int].meta.name@)
        } else {
            action_view(r) == (1u8, Seq::<char>::empty())
        },
        key == 0x74 ==> action_view(r) == (6u8, Seq::<char>::empty()) && *final(fm) == *old(fm),
        key == 0x73 ==> action_view(r) == (2u8, Seq::<char>::empty()) && final(fm).sort_by == (old(fm).sort_by + 1) % 3
            && entry_metas(final(fm).entries@) == sorted_by(((old(fm).sort_by + 1) % 3) as u8, metas(fs.db@))
            && final(fm).current_path == old(fm).current_path,
        !(key == 0x71 || key == 0x51 || key == 27 || key == 0x0D || key == 0x0A || key == crate::keyboard::ARROW_UP || key
            == crate::keyboard::ARROW_DOWN || key == 0x08 || key == 0x37 || key == 0x38 || key == 0x74 || key == 0x73)
            ==> action_view(r) == (1u8, Seq::<char>::empty()) && *final(fm) == *old(fm),
{
    if key == 0x71 || key == 0x51 || key == 27 {
        return FmAction::Quit;
    }
    if key == 0x0D || key == 0x0A {
        if fm.current_idx < fm.entries.len() {
            let idx: usize = fm.current_idx;
            let name: String = crate::text::string_of(fm.entries[idx].meta.name.as_str());
            if fm.entries[idx].meta.is_dir {
                fm.enter_directory(name.as_str());
                fm.refresh(fs);
                return FmAction::Refreshed;
            }
            return FmAction::OpenFile(name);
        }
        return FmAction::Stay;
    }
    if key == crate::keyboard::ARROW_UP {
        if fm.current_idx > 0 {
            fm.current_idx = fm.current_idx - 1;
        }
        return FmAction::Stay;
    }
    if key == crate::keyboard::ARROW_DOWN {
        if fm.current_idx < fm.entries.len() && fm.current_idx + 1 < fm.entries.len() {
            fm.current_idx = fm.current_idx + 1;
        }
        return FmAction::Stay;
    }
    if key == 0x08 {
        fm.go_up();
        fm.refresh(fs);
        return FmAction::Refreshed;
    }
    if key == 0x37 {
        return FmAction::PromptMkdir;
    }
    if key == 0x38 {
        if fm.current_idx < fm.entries.len() {
            let idx: usize = fm.current_idx;
            let name: String = crate::text::string_of(fm.entries[idx].meta.name.as_str());
            return FmAction::ConfirmDelete(name);
        }
        return FmAction::Stay;
    }
    if key == 0x74 {
        return FmAction::PromptCreate;
    }
    if key == 0x73 {
        fm.sort_by = ((fm.sort_by as u16 + 1) % 3) as u8;
        fm.dirty = true;
        fm.refresh(fs);
        return FmAction::Refreshed;
    }
    FmAction::Stay
}

} // verus!

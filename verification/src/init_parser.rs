//! The `init.deix` boot script: stages, mount and service commands, the
//! per-stage command registry and the parse report.
use vstd::prelude::*;
use vstd::utf8::encode_utf8;
use crate::text::{decimal, push_decimal, push_str, string_of, str_eq};

verus! {

/// Longest meaningful line, in UTF-8 bytes.
pub const MAX_CONFIG_LINE_LEN: usize = 256;

/// Most commands one stage may hold.
pub const MAX_STAGE_COMMANDS: usize = 512;

/// Boot phases; the key of the command registry.
#[derive(Debug, Clone, Copy, PartialEq, Eq, Structural, Hash)]
pub enum BootStage {
    InitBoot,
    VendorBoot,
    Boot,
    Recovery,
    Fastbootd,
    Edl,
}

/// The script token of each stage.
pub open spec fn stage_token(s: BootStage) -> Seq<char> {
    match s {
        BootStage::InitBoot => "init_boot"@,
        BootStage::VendorBoot => "vendor_boot"@,
        BootStage::Boot => "boot"@,
        BootStage::Recovery => "recovery"@,
        BootStage::Fastbootd => "fastbootd"@,
        BootStage::Edl => "edl"@,
    }
}

/// The stage a token names, if any.
pub open spec fn stage_of_token(t: Seq<char>) -> Option<BootStage> {
    if t == "init_boot"@ {
        Some(BootStage::InitBoot)
    } else if t == "vendor_boot"@ {
        Some(BootStage::VendorBoot)
    } else if t == "boot"@ {
        Some(BootStage::Boot)
    } else if t == "recovery"@ {
        Some(BootStage::Recovery)
    } else if t == "fastbootd"@ {
        Some(BootStage::Fastbootd)
    } else if t == "edl"@ {
        Some(BootStage::Edl)
    } else {
        None
    }
}

/// Position of a stage in the registry (declaration order of the enum).
pub open spec fn stage_index(s: BootStage) -> int {
    match s {
        BootStage::InitBoot => 0,
        BootStage::VendorBoot => 1,
        BootStage::Boot => 2,
        BootStage::Recovery => 3,
        BootStage::Fastbootd => 4,
        BootStage::Edl => 5,
    }
}

impl BootStage {
    /// Parses a stage token; exactly six literals are accepted.
    pub fn from_token(token: &str) -> (r: Result<BootStage, ParseError>)
        ensures
            match stage_of_token(token@) {
                Some(s) => r == Ok::<BootStage, ParseError>(s),
                None => r matches Err(ParseError::UnknownStage(t)) && t@ == token@,
            },
    {
        if str_eq(token, "init_boot") {
            Ok(BootStage::InitBoot)
        } else if str_eq(token, "vendor_boot") {
            Ok(BootStage::VendorBoot)
        } else if str_eq(token, "boot") {
            Ok(BootStage::Boot)
        } else if str_eq(token, "recovery") {
            Ok(BootStage::Recovery)
        } else if str_eq(token, "fastbootd") {
            Ok(BootStage::Fastbootd)
        } else if str_eq(token, "edl") {
            Ok(BootStage::Edl)
        } else {
            Err(ParseError::UnknownStage(string_of(token)))
        }
    }

    /// The token that names this stage.
    pub fn as_token(&self) -> (r: &'static str)
        ensures
            r@ == stage_token(*self),
    {
        match self {
            BootStage::InitBoot => "init_boot",
            BootStage::VendorBoot => "vendor_boot",
            BootStage::Boot => "boot",
            BootStage::Recovery => "recovery",
            BootStage::Fastbootd => "fastbootd",
            BootStage::Edl => "edl",
        }
    }

    /// Stages in which system partitions may be mounted writable:
    /// Fastbootd, Edl and Recovery.
    pub fn is_flash_authorized(&self) -> (r: bool)
        ensures
            r == (*self == BootStage::Fastbootd || *self == BootStage::Edl || *self
                == BootStage::Recovery),
    {
        match self {
            BootStage::Fastbootd => true,
            BootStage::Edl => true,
            BootStage::Recovery => true,
            BootStage::InitBoot => false,
            BootStage::VendorBoot => false,
            BootStage::Boot => false,
        }
    }

    /// Stages in which /userdata may be mounted writable: all but InitBoot
    /// and VendorBoot.
    pub fn allows_userdata_rw(&self) -> (r: bool)
        ensures
            r == !(*self == BootStage::InitBoot || *self == BootStage::VendorBoot),
    {
        match self {
            BootStage::Boot => true,
            BootStage::Recovery => true,
            BootStage::Fastbootd => true,
            BootStage::Edl => true,
            BootStage::InitBoot => false,
            BootStage::VendorBoot => false,
        }
    }

    /// Position of the stage in the registry.
    pub fn index(&self) -> (r: usize)
        ensures
            r == stage_index(*self),
    {
        match self {
            BootStage::InitBoot => 0,
            BootStage::VendorBoot => 1,
            BootStage::Boot => 2,
            BootStage::Recovery => 3,
            BootStage::Fastbootd => 4,
            BootStage::Edl => 5,
        }
    }
}

/// Access mode of a mount.
#[derive(Debug, Clone, Copy, PartialEq, Eq, Structural)]
pub enum MountMode {
    ReadOnly,
    ReadWrite,
}

pub open spec fn mode_token(m: MountMode) -> Seq<char> {
    match m {
        MountMode::ReadOnly => "ro"@,
        MountMode::ReadWrite => "rw"@,
    }
}

impl MountMode {
    /// Parses a mode token: only "ro" and "rw".
    pub fn from_token(token: &str) -> (r: Result<MountMode, ParseError>)
        ensures
            token@ == "ro"@ ==> r == Ok::<MountMode, ParseError>(MountMode::ReadOnly),
            token@ == "rw"@ ==> r == Ok::<MountMode, ParseError>(MountMode::ReadWrite),
            token@ != "ro"@ && token@ != "rw"@ ==> (r matches Err(
                ParseError::InvalidMountMode(t),
            ) && t@ == token@),
    {
        proof {
            reveal_strlit("ro");
            reveal_strlit("rw");
            assert("ro"@[1] != "rw"@[1]);
        }
        if str_eq(token, "ro") {
            Ok(MountMode::ReadOnly)
        } else if str_eq(token, "rw") {
            Ok(MountMode::ReadWrite)
        } else {
            Err(ParseError::InvalidMountMode(string_of(token)))
        }
    }

    pub fn as_token(&self) -> (r: &'static str)
        ensures
            r@ == mode_token(*self),
    {
        match self {
            MountMode::ReadOnly => "ro",
            MountMode::ReadWrite => "rw",
        }
    }
}

/// Binding of a block device to a mount point.
#[derive(Debug, Clone, PartialEq, Eq)]
pub struct MountCmd {
    pub fs_type: String,
    pub src: String,
    pub dst: String,
    pub mode: MountMode,
}

impl MountCmd {
    pub fn new(fs_type: String, src: String, dst: String, mode: MountMode) -> (r: MountCmd)
        ensures
            r == (MountCmd { fs_type, src, dst, mode }),
    {
        MountCmd { fs_type, src, dst, mode }
    }
}

/// A service started by init: name, executable and protection ring.
#[derive(Debug, Clone, PartialEq, Eq)]
pub struct ServiceCmd {
    pub name: String,
    pub path: String,
    pub execution_ring: u8,
}

impl ServiceCmd {
    pub fn new(name: String, path: String, execution_ring: u8) -> (r: ServiceCmd)
        ensures
            r == (ServiceCmd { name, path, execution_ring }),
    {
        ServiceCmd { name, path, execution_ring }
    }
}

/// One accepted instruction of a stage.
#[derive(Debug, Clone, PartialEq, Eq)]
pub enum Command {
    Mount(MountCmd),
    Service(ServiceCmd),
}

/// A command with its text fields as character sequences.
pub enum CommandSpec {
    Mount { fs_type: Seq<char>, src: Seq<char>, dst: Seq<char>, mode: MountMode },
    Service { name: Seq<char>, path: Seq<char>, ring: u8 },
}

impl View for Command {
    type V = CommandSpec;

    open spec fn view(&self) -> CommandSpec {
        match self {
            Command::Mount(m) => CommandSpec::Mount {
                fs_type: m.fs_type@,
                src: m.src@,
                dst: m.dst@,
                mode: m.mode,
            },
            Command::Service(s) => CommandSpec::Service {
                name: s.name@,
                path: s.path@,
                ring: s.execution_ring,
            },
        }
    }
}

/// Text of `describe`.
pub open spec fn describe_text(c: CommandSpec) -> Seq<char> {
    match c {
        CommandSpec::Mount { fs_type, src, dst, mode } => "mount "@ + fs_type + " "@ + src + " "@
            + dst + " "@ + mode_token(mode),
        CommandSpec::Service { name, path, ring } => "service "@ + name + " "@ + path
            + " ring="@ + decimal(ring as nat),
    }
}

impl Command {
    /// One-line text of the command.
    pub fn describe(&self) -> (r: String)
        ensures
            r@ == describe_text(self@),
    {
        match self {
            Command::Mount(m) => {
                let mut s = string_of("mount ");
                push_str(&mut s, m.fs_type.as_str());
                push_str(&mut s, " ");
                push_str(&mut s, m.src.as_str());
                push_str(&mut s, " ");
                push_str(&mut s, m.dst.as_str());
                push_str(&mut s, " ");
                push_str(&mut s, m.mode.as_token());
                s
            },
            Command::Service(c) => {
                let mut s = string_of("service ");
                push_str(&mut s, c.name.as_str());
                push_str(&mut s, " ");
                push_str(&mut s, c.path.as_str());
                push_str(&mut s, " ring=");
                push_decimal(&mut s, c.execution_ring as u64);
                s
            },
        }
    }

    /// A copy with the same text fields.
    pub fn duplicate(&self) -> (r: Command)
        ensures
            r@ == self@,
    {
        match self {
            Command::Mount(m) => Command::Mount(
                MountCmd {
                    fs_type: m.fs_type.clone(),
                    src: m.src.clone(),
                    dst: m.dst.clone(),
                    mode: m.mode,
                },
            ),
            Command::Service(c) => Command::Service(
                ServiceCmd { name: c.name.clone(), path: c.path.clone(), execution_ring: c.execution_ring },
            ),
        }
    }
}

/// Syntax errors of one line; each becomes a warning and the line is dropped.
#[derive(Debug, Clone, PartialEq, Eq)]
pub enum ParseError {
    MissingStageContext,
    UnknownStage(String),
    TooFewArguments { keyword: String, expected: usize, got: usize },
    TooManyArguments { keyword: String, expected: usize, got: usize },
    InvalidMountMode(String),
    InvalidExecutionRing(String),
    EmptyCommand,
    LineTooLong { len: usize, limit: usize },
    MalformedStageHeader { detail: String },
}

pub open spec fn missing_stage_text() -> Seq<char> {
    "команда встречена до первого объявления стадии 'on'"@
}

pub open spec fn unknown_stage_text(tok: Seq<char>) -> Seq<char> {
    "неизвестная стадия загрузки '"@ + tok + "'"@
}

/// Text for a wrong argument count (the same words for too few and too many).
pub open spec fn arg_count_text(keyword: Seq<char>, expected: nat, got: nat) -> Seq<char> {
    "команда '"@ + keyword + "': ожидалось "@ + decimal(expected) + " аргумента, получено "@
        + decimal(got)
}

pub open spec fn invalid_mode_text(tok: Seq<char>) -> Seq<char> {
    "недопустимый режим монтирования '"@ + tok + "' (допустимы только 'ro' и 'rw')"@
}

pub open spec fn invalid_ring_text(tok: Seq<char>) -> Seq<char> {
    "недопустимое кольцо исполнения '"@ + tok + "' (допустимы 0..=3)"@
}

pub open spec fn empty_command_text() -> Seq<char> {
    "пустая команда (нет токенов)"@
}

pub open spec fn line_too_long_text(len: nat, limit: nat) -> Seq<char> {
    "длина строки "@ + decimal(len) + " байт превышает лимит "@ + decimal(limit) + " байт"@
}

pub open spec fn malformed_header_text(detail: Seq<char>) -> Seq<char> {
    "некорректный заголовок стадии: "@ + detail
}

impl ParseError {
    /// What `message` returns.
    pub open spec fn text(&self) -> Seq<char> {
        match self {
            ParseError::MissingStageContext => missing_stage_text(),
            ParseError::UnknownStage(t) => unknown_stage_text(t@),
            ParseError::TooFewArguments { keyword, expected, got } => arg_count_text(
                keyword@,
                *expected as nat,
                *got as nat,
            ),
            ParseError::TooManyArguments { keyword, expected, got } => arg_count_text(
                keyword@,
                *expected as nat,
                *got as nat,
            ),
            ParseError::InvalidMountMode(t) => invalid_mode_text(t@),
            ParseError::InvalidExecutionRing(t) => invalid_ring_text(t@),
            ParseError::EmptyCommand => empty_command_text(),
            ParseError::LineTooLong { len, limit } => line_too_long_text(*len as nat, *limit as nat),
            ParseError::MalformedStageHeader { detail } => malformed_header_text(detail@),
        }
    }

    /// Human-readable description of the error.
    pub fn message(&self) -> (r: String)
        ensures
            r@ == self.text(),
    {
        match self {
            ParseError::MissingStageContext => string_of(
                "команда встречена до первого объявления стадии 'on'",
            ),
            ParseError::UnknownStage(t) => {
                let mut s = string_of("неизвестная стадия загрузки '");
                push_str(&mut s, t.as_str());
                push_str(&mut s, "'");
                s
            },
            ParseError::TooFewArguments { keyword, expected, got } => count_message(
                keyword.as_str(),
                *expected,
                *got,
            ),
            ParseError::TooManyArguments { keyword, expected, got } => count_message(
                keyword.as_str(),
                *expected,
                *got,
            ),
            ParseError::InvalidMountMode(t) => {
                let mut s = string_of("недопустимый режим монтирования '");
                push_str(&mut s, t.as_str());
                push_str(&mut s, "' (допустимы только 'ro' и 'rw')");
                s
            },
            ParseError::InvalidExecutionRing(t) => {
                let mut s = string_of("недопустимое кольцо исполнения '");
                push_str(&mut s, t.as_str());
                push_str(&mut s, "' (допустимы 0..=3)");
                s
            },
            ParseError::EmptyCommand => string_of("пустая команда (нет токенов)"),
            ParseError::LineTooLong { len, limit } => {
                let mut s = string_of("длина строки ");
                push_decimal(&mut s, *len as u64);
                push_str(&mut s, " байт превышает лимит ");
                push_decimal(&mut s, *limit as u64);
                push_str(&mut s, " байт");
                s
            },
            ParseError::MalformedStageHeader { detail } => {
                let mut s = string_of("некорректный заголовок стадии: ");
                push_str(&mut s, detail.as_str());
                s
            },
        }
    }
}

fn count_message(keyword: &str, expected: usize, got: usize) -> (r: String)
    ensures
        r@ == arg_count_text(keyword@, expected as nat, got as nat),
{
    let mut s = string_of("команда '");
    push_str(&mut s, keyword);
    push_str(&mut s, "': ожидалось ");
    push_decimal(&mut s, expected as u64);
    push_str(&mut s, " аргумента, получено ");
    push_decimal(&mut s, got as u64);
    s
}

/// Category of a rejected line.
#[derive(Debug, Clone, Copy, PartialEq, Eq, Structural)]
pub enum ParseWarningKind {
    EmptyCommand,
    LineTooLong,
    MalformedStageHeader,
    UnknownKeyword,
    UnknownStage,
    TooFewArguments,
    TooManyArguments,
    InvalidMountMode,
    InvalidExecutionRing,
    MissingStageContext,
    TooManyStageCommands,
    UserdataPolicyViolation,
    NonExt4Userdata,
    TpmPartitionDenied,
}

pub open spec fn kind_text(k: ParseWarningKind) -> Seq<char> {
    match k {
        ParseWarningKind::EmptyCommand => "пустая команда"@,
        ParseWarningKind::LineTooLong => "строка превышает лимит длины"@,
        ParseWarningKind::MalformedStageHeader => "некорректный заголовок стадии 'on'"@,
        ParseWarningKind::UnknownKeyword => "неизвестное ключевое слово"@,
        ParseWarningKind::UnknownStage => "неизвестная стадия загрузки"@,
        ParseWarningKind::TooFewArguments => "недостаточно аргументов"@,
        ParseWarningKind::TooManyArguments => "лишние аргументы"@,
        ParseWarningKind::InvalidMountMode => "неверный флаг режима монтирования"@,
        ParseWarningKind::InvalidExecutionRing => "недопустимое кольцо исполнения"@,
        ParseWarningKind::MissingStageContext => "команда вне контекста стадии"@,
        ParseWarningKind::TooManyStageCommands => "переполнение вектора команд стадии"@,
        ParseWarningKind::UserdataPolicyViolation => "rw-монтирование /userdata вне разрешённых стадий"@,
        ParseWarningKind::NonExt4Userdata => "файловая система /userdata отличается от ext4"@,
        ParseWarningKind::TpmPartitionDenied => "доступ к скрытому разделу /TPM запрещён"@,
    }
}

impl ParseWarningKind {
    pub fn describe(&self) -> (r: &'static str)
        ensures
            r@ == kind_text(*self),
    {
        match self {
            ParseWarningKind::EmptyCommand => "пустая команда",
            ParseWarningKind::LineTooLong => "строка превышает лимит длины",
            ParseWarningKind::MalformedStageHeader => "некорректный заголовок стадии 'on'",
            ParseWarningKind::UnknownKeyword => "неизвестное ключевое слово",
            ParseWarningKind::UnknownStage => "неизвестная стадия загрузки",
            ParseWarningKind::TooFewArguments => "недостаточно аргументов",
            ParseWarningKind::TooManyArguments => "лишние аргументы",
            ParseWarningKind::InvalidMountMode => "неверный флаг режима монтирования",
            ParseWarningKind::InvalidExecutionRing => "недопустимое кольцо исполнения",
            ParseWarningKind::MissingStageContext => "команда вне контекста стадии",
            ParseWarningKind::TooManyStageCommands => "переполнение вектора команд стадии",
            ParseWarningKind::UserdataPolicyViolation => "rw-монтирование /userdata вне разрешённых стадий",
            ParseWarningKind::NonExt4Userdata => "файловая система /userdata отличается от ext4",
            ParseWarningKind::TpmPartitionDenied => "доступ к скрытому разделу /TPM запрещён",
        }
    }
}


/// Characters stripped from both ends of a line.
pub open spec fn is_trim_char(c: char) -> bool {
    c == ' ' || c == '\t' || c == '\r' || c == '\n' || c == ')'
}

/// Unicode White_Space, the separators of tokens.
pub open spec fn is_space(c: char) -> bool {
    let u = c as u32;
    (0x09 <= u <= 0x0d) || u == 0x20 || u == 0x85 || u == 0xa0 || u == 0x1680 || (0x2000 <= u
        <= 0x200a) || u == 0x2028 || u == 0x2029 || u == 0x202f || u == 0x205f || u == 0x3000
}

/// Index of the first character at or after `i` that is not stripped.
pub open spec fn first_kept(s: Seq<char>, i: int) -> int
    decreases s.len() - i,
{
    if i >= s.len() || i < 0 {
        s.len() as int
    } else if is_trim_char(s[i]) {
        first_kept(s, i + 1)
    } else {
        i
    }
}

/// One past the last character before `j` that is not stripped (0 if none).
pub open spec fn last_kept_end(s: Seq<char>, j: int) -> int
    decreases j,
{
    if j <= 0 || j > s.len() {
        0
    } else if is_trim_char(s[j - 1]) {
        last_kept_end(s, j - 1)
    } else {
        j
    }
}

proof fn lemma_last_kept_bound(s: Seq<char>, j: int)
    requires
        0 <= j <= s.len(),
    ensures
        0 <= last_kept_end(s, j) <= j,
    decreases j,
{
    if j > 0 && is_trim_char(s[j - 1]) {
        lemma_last_kept_bound(s, j - 1);
    }
}

/// `s` without stripped characters at either end.
pub open spec fn trim(s: Seq<char>) -> Seq<char> {
    let a = first_kept(s, 0);
    let b = last_kept_end(s, s.len() as int);
    if a < b {
        s.subrange(a, b)
    } else {
        Seq::empty()
    }
}

/// Where a comment starts: the first '#' outside single or double quotes,
/// scanning from `i` in the given quote state; the length if there is none.
pub open spec fn comment_cut(s: Seq<char>, i: int, sq: bool, dq: bool) -> int
    decreases s.len() - i,
{
    if i >= s.len() || i < 0 {
        s.len() as int
    } else if s[i] == '\'' && !dq {
        comment_cut(s, i + 1, !sq, dq)
    } else if s[i] == '"' && !sq {
        comment_cut(s, i + 1, sq, !dq)
    } else if s[i] == '#' && !sq && !dq {
        i
    } else {
        comment_cut(s, i + 1, sq, dq)
    }
}

/// The meaningful part of a raw line: trimmed, comment cut off, trimmed again.
pub open spec fn cleaned(raw: Seq<char>) -> Seq<char> {
    let t = trim(raw);
    trim(t.subrange(0, comment_cut(t, 0, false, false)))
}

/// Tokens completed so far and the token being read, after reading `s`.
pub open spec fn token_scan(s: Seq<char>) -> (Seq<Seq<char>>, Seq<char>)
    decreases s.len(),
{
    if s.len() == 0 {
        (Seq::empty(), Seq::empty())
    } else {
        let (done, cur) = token_scan(s.drop_last());
        if is_space(s.last()) {
            if cur.len() > 0 {
                (done.push(cur), Seq::empty())
            } else {
                (done, cur)
            }
        } else {
            (done, cur.push(s.last()))
        }
    }
}

/// The whitespace-separated tokens of `s`.
pub open spec fn tokens(s: Seq<char>) -> Seq<Seq<char>> {
    let (done, cur) = token_scan(s);
    if cur.len() > 0 {
        done.push(cur)
    } else {
        done
    }
}

fn is_trim(c: char) -> (r: bool)
    ensures
        r == is_trim_char(c),
{
    c == ' ' || c == '\t' || c == '\r' || c == '\n' || c == ')'
}

fn is_space_char(c: char) -> (r: bool)
    ensures
        r == is_space(c),
{
    let u: u32 = c as u32;
    (0x09 <= u && u <= 0x0d) || u == 0x20 || u == 0x85 || u == 0xa0 || u == 0x1680 || (0x2000 <= u
        && u <= 0x200a) || u == 0x2028 || u == 0x2029 || u == 0x202f || u == 0x205f || u == 0x3000
}

/// Bounds of the trimmed part of `cs`.
fn trim_bounds(cs: &[char]) -> (r: (usize, usize))
    ensures
        r.0 <= r.1 <= cs@.len(),
        cs@.subrange(r.0 as int, r.1 as int) == trim(cs@),
{
    let n: usize = cs.len();
    let mut i: usize = 0;
    while i < n && is_trim(cs[i])
        invariant
            n == cs@.len(),
            i <= n,
            first_kept(cs@, 0) == first_kept(cs@, i as int),
        decreases n - i,
    {
        i = i + 1;
    }
    if i == n {
        proof {
            lemma_last_kept_bound(cs@, n as int);
        }
        return (n, n);
    }
    let mut j: usize = n;
    while j > i && is_trim(cs[j - 1])
        invariant
            n == cs@.len(),
            i < n,
            !is_trim_char(cs@[i as int]),
            first_kept(cs@, 0) == i,
            i < j <= n,
            last_kept_end(cs@, n as int) == last_kept_end(cs@, j as int),
        decreases j,
    {
        j = j - 1;
    }
    (i, j)
}

/// Index of the first '#' outside quotes, or the length.
fn comment_start(cs: &[char]) -> (r: usize)
    ensures
        r == comment_cut(cs@, 0, false, false),
        r <= cs@.len(),
{
    let n: usize = cs.len();
    let mut sq: bool = false;
    let mut dq: bool = false;
    let mut i: usize = 0;
    while i < n
        invariant
            n == cs@.len(),
            i <= n,
            comment_cut(cs@, 0, false, false) == comment_cut(cs@, i as int, sq, dq),
        decreases n - i,
    {
        let c: char = cs[i];
        if c == '\'' && !dq {
            sq = !sq;
        } else if c == '"' && !sq {
            dq = !dq;
        } else if c == '#' && !sq && !dq {
            return i;
        }
        i = i + 1;
    }
    n
}

/// The meaningful characters of a raw line.
pub fn clean_line(raw: &[char]) -> (r: Vec<char>)
    ensures
        r@ == cleaned(raw@),
{
    let (a, b) = trim_bounds(raw);
    let t: Vec<char> = copy_chars(raw, a, b);
    let cut: usize = comment_start(t.as_slice());
    let u: Vec<char> = copy_chars(t.as_slice(), 0, cut);
    let (c, d) = trim_bounds(u.as_slice());
    copy_chars(u.as_slice(), c, d)
}

fn copy_chars(cs: &[char], lo: usize, hi: usize) -> (r: Vec<char>)
    requires
        lo <= hi <= cs@.len(),
    ensures
        r@ == cs@.subrange(lo as int, hi as int),
{
    let mut r: Vec<char> = Vec::new();
    let mut i: usize = lo;
    while i < hi
        invariant
            lo <= i <= hi <= cs@.len(),
            r@ == cs@.subrange(lo as int, i as int),
        decreases hi - i,
    {
        r.push(cs[i]);
        i = i + 1;
        assert(r@ =~= cs@.subrange(lo as int, i as int));
    }
    r
}

pub open spec fn string_views(v: Seq<String>) -> Seq<Seq<char>> {
    v.map_values(|t: String| t@)
}

/// The tokens of `cs` as strings.
pub fn split_tokens(cs: &[char]) -> (r: Vec<String>)
    ensures
        string_views(r@) == tokens(cs@),
{
    let n: usize = cs.len();
    let mut done: Vec<String> = Vec::new();
    let mut cur: String = String::new();
    let mut i: usize = 0;
    while i < n
        invariant
            n == cs@.len(),
            i <= n,
            (string_views(done@), cur@) == token_scan(cs@.subrange(0, i as int)),
        decreases n - i,
    {
        let c: char = cs[i];
        assert(cs@.subrange(0, i + 1).drop_last() =~= cs@.subrange(0, i as int));
        if is_space_char(c) {
            if cur.as_str().unicode_len() > 0 {
                let t: String = cur;
                done.push(t);
                cur = String::new();
                assert(string_views(done@) =~= token_scan(cs@.subrange(0, i as int)).0.push(t@));
            }
        } else {
            crate::text::push_char(&mut cur, c);
        }
        i = i + 1;
    }
    assert(cs@.subrange(0, n as int) =~= cs@);
    if cur.as_str().unicode_len() > 0 {
        let t: String = cur;
        done.push(t);
        assert(string_views(done@) =~= token_scan(cs@).0.push(t@));
    }
    done
}


/// The digits of a ring token, after an optional leading '+'.
pub open spec fn ring_digits(t: Seq<char>) -> Seq<char> {
    if t.len() > 0 && t[0] == '+' {
        t.drop_first()
    } else {
        t
    }
}

pub open spec fn all_digits(t: Seq<char>) -> bool {
    forall|i: int| 0 <= i < t.len() ==> '0' <= #[trigger] t[i] <= '9'
}

/// Value of a string of decimal digits.
pub open spec fn digits_value(t: Seq<char>) -> nat
    decreases t.len(),
{
    if t.len() == 0 {
        0
    } else {
        digits_value(t.drop_last()) * 10 + ((t.last() as nat) - 48) as nat
    }
}

/// The execution ring a token names: a decimal `u8` (optionally with '+')
/// in 0..=3.
pub open spec fn ring_of(t: Seq<char>) -> Option<u8> {
    let d = ring_digits(t);
    if d.len() > 0 && all_digits(d) && digits_value(d) <= 3 {
        Some(digits_value(d) as u8)
    } else {
        None
    }
}

/// Reads an execution ring from a token.
fn parse_ring(t: &str) -> (r: Option<u8>)
    ensures
        r == ring_of(t@),
{
    let cs: Vec<char> = crate::text::chars_of(t);
    let n: usize = cs.len();
    let mut i: usize = 0;
    if n > 0 && cs[0] == '+' {
        i = 1;
    }
    let start: usize = i;
    let ghost d = ring_digits(t@);
    assert(d =~= cs@.subrange(start as int, n as int));
    if start == n {
        return None;
    }
    let mut v: u8 = 0;
    while i < n
        invariant
            n == cs@.len(),
            start <= i <= n,
            d == cs@.subrange(start as int, n as int),
            d == ring_digits(t@),
            all_digits(cs@.subrange(start as int, i as int)),
            v <= 3 ==> v == digits_value(cs@.subrange(start as int, i as int)),
            v > 3 ==> digits_value(cs@.subrange(start as int, i as int)) > 3,
            v <= 39,
        decreases n - i,
    {
        let c: char = cs[i];
        if !('0' <= c && c <= '9') {
            assert(!all_digits(d)) by {
                assert(d[i - start] == c);
            }
            return None;
        }
        assert(cs@.subrange(start as int, i + 1).drop_last() =~= cs@.subrange(start as int, i as int));
        if v <= 3 {
            v = v * 10 + ((c as u32 - 48) as u8);
        }
        i = i + 1;
        assert(all_digits(cs@.subrange(start as int, i as int))) by {
            assert forall|k: int| 0 <= k < i - start implies '0' <= #[trigger] cs@.subrange(start as int, i as int)[k] <= '9' by {
                if k < i - 1 - start {
                    assert(cs@.subrange(start as int, i as int)[k] == cs@.subrange(start as int, i - 1)[k]);
                }
            }
        }
    }
    if v <= 3 {
        Some(v)
    } else {
        None
    }
}

/// What one line of the script asks for.
pub enum ActionSpec {
    Skip,
    Reject(ParseWarningKind, Seq<char>),
    Stage(BootStage),
    Cmd(CommandSpec),
}

pub open spec fn stage_line(t: Seq<Seq<char>>) -> ActionSpec {
    if t.len() == 2 {
        match stage_of_token(t[1]) {
            Some(s) => ActionSpec::Stage(s),
            None => ActionSpec::Reject(ParseWarningKind::UnknownStage, unknown_stage_text(t[1])),
        }
    } else if t.len() < 2 {
        ActionSpec::Reject(
            ParseWarningKind::MalformedStageHeader,
            malformed_header_text("после 'on' ожидалось ровно одно имя стадии"@),
        )
    } else {
        ActionSpec::Reject(
            ParseWarningKind::TooManyArguments,
            arg_count_text("on"@, 1, (t.len() - 1) as nat),
        )
    }
}

pub open spec fn mount_line(t: Seq<Seq<char>>) -> ActionSpec {
    if t.len() == 5 {
        if t[4] == "ro"@ || t[4] == "rw"@ {
            ActionSpec::Cmd(
                CommandSpec::Mount {
                    fs_type: t[1],
                    src: t[2],
                    dst: t[3],
                    mode: if t[4] == "ro"@ { MountMode::ReadOnly } else { MountMode::ReadWrite },
                },
            )
        } else {
            ActionSpec::Reject(ParseWarningKind::InvalidMountMode, invalid_mode_text(t[4]))
        }
    } else if t.len() < 5 {
        ActionSpec::Reject(
            ParseWarningKind::TooFewArguments,
            arg_count_text("mount"@, 4, (t.len() - 1) as nat),
        )
    } else {
        ActionSpec::Reject(
            ParseWarningKind::TooManyArguments,
            arg_count_text("mount"@, 4, (t.len() - 1) as nat),
        )
    }
}

pub open spec fn service_line(t: Seq<Seq<char>>) -> ActionSpec {
    if t.len() < 4 {
        ActionSpec::Reject(
            ParseWarningKind::TooFewArguments,
            arg_count_text("service"@, 3, (t.len() - 1) as nat),
        )
    } else if t.len() == 4 {
        match ring_of(t[3]) {
            Some(r) => ActionSpec::Cmd(CommandSpec::Service { name: t[1], path: t[2], ring: r }),
            None => ActionSpec::Reject(
                ParseWarningKind::InvalidExecutionRing,
                invalid_ring_text(t[3]),
            ),
        }
    } else {
        ActionSpec::Reject(
            ParseWarningKind::TooManyArguments,
            arg_count_text("service"@, 3, (t.len() - 1) as nat),
        )
    }
}

/// The action of a raw line.
pub open spec fn classify(raw: Seq<char>) -> ActionSpec {
    let c = cleaned(raw);
    if c.len() == 0 {
        ActionSpec::Skip
    } else if encode_utf8(c).len() > MAX_CONFIG_LINE_LEN {
        ActionSpec::Reject(
            ParseWarningKind::LineTooLong,
            line_too_long_text(encode_utf8(c).len(), MAX_CONFIG_LINE_LEN as nat),
        )
    } else {
        let t = tokens(c);
        if t.len() == 0 {
            ActionSpec::Reject(ParseWarningKind::EmptyCommand, empty_command_text())
        } else if t[0] == "on"@ {
            stage_line(t)
        } else if t[0] == "mount"@ {
            mount_line(t)
        } else if t[0] == "service"@ {
            service_line(t)
        } else {
            ActionSpec::Reject(
                ParseWarningKind::UnknownKeyword,
                "неизвестная команда '"@ + t[0] + "' — строка отброшена"@,
            )
        }
    }
}

/// One classified line.
pub enum LineAction {
    Skip,
    Reject(ParseWarningKind, String),
    Stage(BootStage),
    Mount(MountCmd),
    Service(ServiceCmd),
}

impl View for LineAction {
    type V = ActionSpec;

    open spec fn view(&self) -> ActionSpec {
        match self {
            LineAction::Skip => ActionSpec::Skip,
            LineAction::Reject(k, d) => ActionSpec::Reject(*k, d@),
            LineAction::Stage(s) => ActionSpec::Stage(*s),
            LineAction::Mount(m) => ActionSpec::Cmd(Command::Mount(*m)@),
            LineAction::Service(c) => ActionSpec::Cmd(Command::Service(*c)@),
        }
    }
}

fn error_action(kind: ParseWarningKind, e: ParseError) -> (r: LineAction)
    ensures
        r@ == ActionSpec::Reject(kind, e.text()),
{
    LineAction::Reject(kind, e.message())
}

fn classify_tokens(t: &Vec<String>) -> (r: LineAction)
    requires
        t@.len() > 0,
    ensures
        string_views(t@)[0] == "on"@ ==> r@ == stage_line(string_views(t@)),
        string_views(t@)[0] == "mount"@ ==> r@ == mount_line(string_views(t@)),
        string_views(t@)[0] == "service"@ ==> r@ == service_line(string_views(t@)),
        string_views(t@)[0] != "on"@ && string_views(t@)[0] != "mount"@ && string_views(t@)[0]
            != "service"@ ==> r@ == ActionSpec::Reject(
            ParseWarningKind::UnknownKeyword,
            "неизвестная команда '"@ + string_views(t@)[0] + "' — строка отброшена"@,
        ),
{
    let ghost tv = string_views(t@);
    let n: usize = t.len();
    let kw: &str = t[0].as_str();
    proof {
        reveal_strlit("on");
        reveal_strlit("mount");
        reveal_strlit("service");
        reveal_strlit("ro");
        reveal_strlit("rw");
        assert("ro"@[1] != "rw"@[1]);
        assert("on"@ != "mount"@ && "on"@ != "service"@ && "mount"@ != "service"@);
    }
    if str_eq(kw, "on") {
        if n == 2 {
            match BootStage::from_token(t[1].as_str()) {
                Ok(s) => LineAction::Stage(s),
                Err(e) => error_action(ParseWarningKind::UnknownStage, e),
            }
        } else if n < 2 {
            error_action(
                ParseWarningKind::MalformedStageHeader,
                ParseError::MalformedStageHeader {
                    detail: string_of("после 'on' ожидалось ровно одно имя стадии"),
                },
            )
        } else {
            error_action(
                ParseWarningKind::TooManyArguments,
                ParseError::TooManyArguments { keyword: string_of("on"), expected: 1, got: n - 1 },
            )
        }
    } else if str_eq(kw, "mount") {
        if n == 5 {
            match MountMode::from_token(t[4].as_str()) {
                Ok(mode) => LineAction::Mount(
                    MountCmd::new(t[1].clone(), t[2].clone(), t[3].clone(), mode),
                ),
                Err(e) => error_action(ParseWarningKind::InvalidMountMode, e),
            }
        } else if n < 5 {
            error_action(
                ParseWarningKind::TooFewArguments,
                ParseError::TooFewArguments {
                    keyword: string_of("mount"),
                    expected: 4,
                    got: n - 1,
                },
            )
        } else {
            error_action(
                ParseWarningKind::TooManyArguments,
                ParseError::TooManyArguments {
                    keyword: string_of("mount"),
                    expected: 4,
                    got: n - 1,
                },
            )
        }
    } else if str_eq(kw, "service") {
        if n < 4 {
            error_action(
                ParseWarningKind::TooFewArguments,
                ParseError::TooFewArguments {
                    keyword: string_of("service"),
                    expected: 3,
                    got: n - 1,
                },
            )
        } else if n == 4 {
            match parse_ring(t[3].as_str()) {
                Some(ring) => LineAction::Service(
                    ServiceCmd::new(t[1].clone(), t[2].clone(), ring),
                ),
                None => error_action(
                    ParseWarningKind::InvalidExecutionRing,
                    ParseError::InvalidExecutionRing(t[3].clone()),
                ),
            }
        } else {
            error_action(
                ParseWarningKind::TooManyArguments,
                ParseError::TooManyArguments {
                    keyword: string_of("service"),
                    expected: 3,
                    got: n - 1,
                },
            )
        }
    } else {
        let mut d = string_of("неизвестная команда '");
        push_str(&mut d, kw);
        push_str(&mut d, "' — строка отброшена");
        LineAction::Reject(ParseWarningKind::UnknownKeyword, d)
    }
}

/// Classifies one raw line: its meaningful text and what it asks for.
pub fn classify_line(raw: &[char]) -> (r: (String, LineAction))
    ensures
        r.0@ == cleaned(raw@),
        r.1@ == classify(raw@),
{
    let c: Vec<char> = clean_line(raw);
    let text: String = crate::text::string_from_chars(c.as_slice(), 0, c.len());
    assert(c@.subrange(0, c@.len() as int) =~= c@);
    if c.len() == 0 {
        return (text, LineAction::Skip);
    }
    let blen: usize = text.as_str().as_bytes().len();
    assert(blen == encode_utf8(c@).len());
    assert(c@ == cleaned(raw@));
    if blen > MAX_CONFIG_LINE_LEN {
        let a = error_action(
            ParseWarningKind::LineTooLong,
            ParseError::LineTooLong { len: blen, limit: MAX_CONFIG_LINE_LEN },
        );
        return (text, a);
    }
    let t: Vec<String> = split_tokens(c.as_slice());
    if t.len() == 0 {
        return (text, error_action(ParseWarningKind::EmptyCommand, ParseError::EmptyCommand));
    }
    let a = classify_tokens(&t);
    (text, a)
}


/// A rejected line: number, text, category and details.
#[derive(Debug, Clone)]
pub struct ParseWarning {
    pub line_no: usize,
    pub raw_line: String,
    pub kind: ParseWarningKind,
    pub detail: String,
}

pub struct WarningSpec {
    pub line_no: usize,
    pub raw_line: Seq<char>,
    pub kind: ParseWarningKind,
    pub detail: Seq<char>,
}

impl View for ParseWarning {
    type V = WarningSpec;

    open spec fn view(&self) -> WarningSpec {
        WarningSpec {
            line_no: self.line_no,
            raw_line: self.raw_line@,
            kind: self.kind,
            detail: self.detail@,
        }
    }
}

/// Counters of one run: every line is accepted, rejected or skipped.
#[derive(Debug, Clone, Copy)]
pub struct ParseReport {
    pub total_lines: usize,
    pub accepted_lines: usize,
    pub rejected_lines: usize,
    pub skipped_lines: usize,
}

impl Default for ParseReport {
    fn default() -> (r: ParseReport)
        ensures
            r.total_lines == 0 && r.accepted_lines == 0 && r.rejected_lines == 0 && r.skipped_lines
                == 0,
    {
        ParseReport { total_lines: 0, accepted_lines: 0, rejected_lines: 0, skipped_lines: 0 }
    }
}

/// Why the mount policy refused a mount; each carries its message.
#[derive(Debug, Clone, PartialEq, Eq)]
pub enum VaultRejection {
    UserdataPolicy(String),
    NonExt4Userdata(String),
    TpmPartitionDenied(String),
}

/// Warning category and message of a refusal.
pub open spec fn rejection_view(r: VaultRejection) -> (ParseWarningKind, Seq<char>) {
    match r {
        VaultRejection::UserdataPolicy(m) => (ParseWarningKind::UserdataPolicyViolation, m@),
        VaultRejection::NonExt4Userdata(m) => (ParseWarningKind::NonExt4Userdata, m@),
        VaultRejection::TpmPartitionDenied(m) => (ParseWarningKind::TpmPartitionDenied, m@),
    }
}

pub open spec fn verdict_view(v: Option<Result<(), VaultRejection>>) -> Option<
    Result<(), (ParseWarningKind, Seq<char>)>,
> {
    match v {
        None => None,
        Some(Ok(())) => Some(Ok(())),
        Some(Err(r)) => Some(Err(rejection_view(r))),
    }
}

pub open spec fn bucket_view(b: Option<Vec<Command>>) -> Option<Seq<CommandSpec>> {
    match b {
        Some(v) => Some(v@.map_values(|c: Command| c@)),
        None => None,
    }
}

/// Commands of each stage, by stage index; a stage that was never declared
/// has no entry.
pub struct StageRegistry {
    pub slots: Vec<Option<Vec<Command>>>,
}

impl View for StageRegistry {
    type V = Seq<Option<Seq<CommandSpec>>>;

    open spec fn view(&self) -> Seq<Option<Seq<CommandSpec>>> {
        self.slots@.map_values(|b: Option<Vec<Command>>| bucket_view(b))
    }
}

pub open spec fn empty_registry() -> Seq<Option<Seq<CommandSpec>>> {
    Seq::new(6, |i: int| None)
}

impl StageRegistry {
    pub open spec fn wf(&self) -> bool {
        self.slots@.len() == 6
    }

    /// A registry with no stage.
    pub fn new() -> (r: StageRegistry)
        ensures
            r.wf(),
            r@ == empty_registry(),
    {
        let mut slots: Vec<Option<Vec<Command>>> = Vec::new();
        let mut i: usize = 0;
        while i < 6
            invariant
                i <= 6,
                slots@.len() == i,
                forall|k: int| 0 <= k < i ==> slots@[k] is None,
            decreases 6 - i,
        {
            slots.push(None);
            i = i + 1;
        }
        let r = StageRegistry { slots };
        assert(r@ =~= empty_registry());
        r
    }

    /// The commands of `stage`, if it was declared.
    pub fn get(&self, stage: BootStage) -> (r: Option<&Vec<Command>>)
        requires
            self.wf(),
        ensures
            match r {
                Some(v) => self@[stage_index(stage)] == Some(v@.map_values(|c: Command| c@)),
                None => self@[stage_index(stage)] is None,
            },
    {
        match &self.slots[stage.index()] {
            Some(v) => Some(v),
            None => None,
        }
    }

    /// A copy holding the same commands.
    pub fn duplicate(&self) -> (r: StageRegistry)
        requires
            self.wf(),
        ensures
            r.wf(),
            r@ == self@,
    {
        let mut slots: Vec<Option<Vec<Command>>> = Vec::new();
        let mut i: usize = 0;
        while i < 6
            invariant
                self.wf(),
                i <= 6,
                slots@.len() == i,
                forall|k: int| 0 <= k < i ==> bucket_view(#[trigger] slots@[k]) == bucket_view(
                    self.slots@[k],
                ),
            decreases 6 - i,
        {
            match &self.slots[i] {
                Some(v) => {
                    let mut c: Vec<Command> = Vec::new();
                    let mut j: usize = 0;
                    while j < v.len()
                        invariant
                            j <= v@.len(),
                            c@.len() == j,
                            forall|k: int| 0 <= k < j ==> (#[trigger] c@[k])@ == v@[k]@,
                        decreases v@.len() - j,
                    {
                        c.push(v[j].duplicate());
                        j = j + 1;
                    }
                    assert(c@.map_values(|x: Command| x@) =~= v@.map_values(|x: Command| x@));
                    slots.push(Some(c));
                },
                None => {
                    slots.push(None);
                },
            }
            i = i + 1;
        }
        let r = StageRegistry { slots };
        assert(r@ =~= self@);
        r
    }

    /// Declares `stage`, keeping its commands if it already has an entry.
    fn declare(&mut self, stage: BootStage)
        requires
            old(self).wf(),
        ensures
            final(self).wf(),
            final(self)@ == declared(old(self)@, stage),
    {
        let i: usize = stage.index();
        if self.slots[i].is_none() {
            let e: Vec<Command> = Vec::new();
            assert(bucket_view(Some(e)) =~~= Some(Seq::<CommandSpec>::empty())) by {
                assert(e@.map_values(|c: Command| c@) =~= Seq::<CommandSpec>::empty());
            }
            self.slots.set(i, Some(e));
            assert(self@ =~~= declared(old(self)@, stage));
        } else {
            assert(self@ =~= declared(old(self)@, stage));
        }
    }

    /// Number of commands of `stage` (0 if it has no entry).
    fn count(&self, stage: BootStage) -> (r: usize)
        requires
            self.wf(),
        ensures
            r == bucket_len(self@[stage_index(stage)]),
    {
        match &self.slots[stage.index()] {
            Some(v) => v.len(),
            None => 0,
        }
    }

    /// Appends `cmd` to the commands of `stage`.
    fn append(&mut self, stage: BootStage, cmd: Command)
        requires
            old(self).wf(),
        ensures
            final(self).wf(),
            final(self)@ == appended(old(self)@, stage, cmd@),
    {
        let i: usize = stage.index();
        let slot: Option<Vec<Command>> = self.slots.remove(i);
        let mut v: Vec<Command> = match slot {
            Some(v) => v,
            None => Vec::new(),
        };
        let ghost before = v@;
        v.push(cmd);
        assert(v@.map_values(|x: Command| x@) =~= before.map_values(|x: Command| x@).push(cmd@));
        self.slots.insert(i, Some(v));
        assert(self.slots@ =~= old(self).slots@.update(i as int, Some(v)));
        assert(bucket_view(Some(v)) =~~= Some(before.map_values(|x: Command| x@).push(cmd@)));
        assert(self@ =~~= appended(old(self)@, stage, cmd@));
    }
}

pub open spec fn bucket_len(b: Option<Seq<CommandSpec>>) -> nat {
    match b {
        Some(v) => v.len(),
        None => 0,
    }
}

pub open spec fn declared(reg: Seq<Option<Seq<CommandSpec>>>, stage: BootStage) -> Seq<
    Option<Seq<CommandSpec>>,
> {
    if reg[stage_index(stage)] is None {
        reg.update(stage_index(stage), Some(Seq::empty()))
    } else {
        reg
    }
}

pub open spec fn appended(
    reg: Seq<Option<Seq<CommandSpec>>>,
    stage: BootStage,
    c: CommandSpec,
) -> Seq<Option<Seq<CommandSpec>>> {
    let b = match reg[stage_index(stage)] {
        Some(v) => v,
        None => Seq::empty(),
    };
    reg.update(stage_index(stage), Some(b.push(c)))
}


/// Parser state in terms of plain values.
pub struct ParserState {
    pub registry: Seq<Option<Seq<CommandSpec>>>,
    pub order: Seq<BootStage>,
    pub warnings: Seq<WarningSpec>,
    pub report: ParseReport,
}

pub open spec fn warned(
    st: ParserState,
    line_no: usize,
    line: Seq<char>,
    kind: ParseWarningKind,
    detail: Seq<char>,
) -> ParserState {
    ParserState {
        warnings: st.warnings.push(
            WarningSpec { line_no, raw_line: line, kind, detail },
        ),
        report: ParseReport { rejected_lines: (st.report.rejected_lines + 1) as usize, ..st.report },
        ..st
    }
}

pub open spec fn overflow_text() -> Seq<char> {
    "стадия переполнена: лимит "@ + decimal(MAX_STAGE_COMMANDS as nat) + " команд на стадию"@
}

/// Adding an accepted command to the active stage.
pub open spec fn committed(
    st: ParserState,
    stage: BootStage,
    c: CommandSpec,
    line_no: usize,
    line: Seq<char>,
) -> ParserState {
    if bucket_len(st.registry[stage_index(stage)]) >= MAX_STAGE_COMMANDS {
        warned(st, line_no, line, ParseWarningKind::TooManyStageCommands, overflow_text())
    } else {
        ParserState {
            registry: appended(st.registry, stage, c),
            report: ParseReport {
                accepted_lines: (st.report.accepted_lines + 1) as usize,
                ..st.report
            },
            ..st
        }
    }
}

/// The effect of one classified line, given the active stage and, for a
/// mount inside a stage, the verdict of the mount policy.
pub open spec fn step(
    st: ParserState,
    active: Option<BootStage>,
    line_no: usize,
    line: Seq<char>,
    a: ActionSpec,
    verdict: Option<Result<(), (ParseWarningKind, Seq<char>)>>,
) -> (ParserState, Option<BootStage>) {
    match a {
        ActionSpec::Skip => (
            ParserState {
                report: ParseReport {
                    skipped_lines: (st.report.skipped_lines + 1) as usize,
                    ..st.report
                },
                ..st
            },
            active,
        ),
        ActionSpec::Reject(k, d) => (warned(st, line_no, line, k, d), active),
        ActionSpec::Stage(s) => (
            ParserState {
                registry: declared(st.registry, s),
                order: if st.order.contains(s) {
                    st.order
                } else {
                    st.order.push(s)
                },
                report: ParseReport {
                    accepted_lines: (st.report.accepted_lines + 1) as usize,
                    ..st.report
                },
                ..st
            },
            Some(s),
        ),
        ActionSpec::Cmd(c) => match active {
            None => (
                warned(
                    st,
                    line_no,
                    line,
                    ParseWarningKind::MissingStageContext,
                    missing_stage_text(),
                ),
                active,
            ),
            Some(stage) => match c {
                CommandSpec::Mount { .. } => match verdict {
                    Some(Ok(())) => (committed(st, stage, c, line_no, line), active),
                    Some(Err((k, m))) => (warned(st, line_no, line, k, m), active),
                    None => (st, active),
                },
                CommandSpec::Service { .. } => (committed(st, stage, c, line_no, line), active),
            },
        },
    }
}

/// Lines of `s` read so far and the line being read.
pub open spec fn line_scan(s: Seq<char>) -> (Seq<Seq<char>>, Seq<char>)
    decreases s.len(),
{
    if s.len() == 0 {
        (Seq::empty(), Seq::empty())
    } else {
        let (done, cur) = line_scan(s.drop_last());
        if s.last() == '\n' {
            (done.push(cur), Seq::empty())
        } else {
            (done, cur.push(s.last()))
        }
    }
}

/// The lines of a text: split at '\n', a final empty line not counted.
pub open spec fn lines(s: Seq<char>) -> Seq<Seq<char>> {
    let (done, cur) = line_scan(s);
    if cur.len() > 0 {
        done.push(cur)
    } else {
        done
    }
}

/// Splits `cs` into its lines.
pub fn split_lines(cs: &[char]) -> (r: Vec<Vec<char>>)
    ensures
        r@.map_values(|l: Vec<char>| l@) == lines(cs@),
{
    let n: usize = cs.len();
    let mut done: Vec<Vec<char>> = Vec::new();
    let mut cur: Vec<char> = Vec::new();
    let mut i: usize = 0;
    while i < n
        invariant
            n == cs@.len(),
            i <= n,
            (done@.map_values(|l: Vec<char>| l@), cur@) == line_scan(cs@.subrange(0, i as int)),
        decreases n - i,
    {
        let c: char = cs[i];
        assert(cs@.subrange(0, i + 1).drop_last() =~= cs@.subrange(0, i as int));
        if c == '\n' {
            let l: Vec<char> = cur;
            done.push(l);
            cur = Vec::new();
            assert(done@.map_values(|l: Vec<char>| l@) =~= line_scan(
                cs@.subrange(0, i as int),
            ).0.push(l@));
        } else {
            cur.push(c);
        }
        i = i + 1;
    }
    assert(cs@.subrange(0, n as int) =~= cs@);
    if cur.len() > 0 {
        let l: Vec<char> = cur;
        done.push(l);
        assert(done@.map_values(|l: Vec<char>| l@) =~= line_scan(cs@).0.push(l@));
    }
    done
}

/// The state after each of `ls` in turn, with `vs[k]` the verdict for line `k`.
pub open spec fn run(
    st: ParserState,
    active: Option<BootStage>,
    ls: Seq<Seq<char>>,
    vs: Seq<Option<Result<(), (ParseWarningKind, Seq<char>)>>>,
    first_line: nat,
) -> (ParserState, Option<BootStage>)
    decreases ls.len(),
{
    if ls.len() == 0 {
        (st, active)
    } else {
        let (st1, a1) = run(st, active, ls.drop_last(), vs.drop_last(), first_line);
        let k = ls.len() - 1;
        step(
            ParserState {
                report: ParseReport {
                    total_lines: (st1.report.total_lines + 1) as usize,
                    ..st1.report
                },
                ..st1
            },
            a1,
            (first_line + k) as usize,
            cleaned(ls.last()),
            classify(ls.last()),
            vs.last(),
        )
    }
}

pub open spec fn initial_state() -> ParserState {
    ParserState {
        registry: empty_registry(),
        order: Seq::empty(),
        warnings: Seq::empty(),
        report: ParseReport { total_lines: 0, accepted_lines: 0, rejected_lines: 0, skipped_lines: 0 },
    }
}

/// The parser: command registry, order of stage declarations, warnings
/// and counters.
pub struct InitParser {
    pub registry: StageRegistry,
    pub stage_order: Vec<BootStage>,
    pub warnings: Vec<ParseWarning>,
    pub report: ParseReport,
}

impl InitParser {
    pub open spec fn wf(&self) -> bool {
        self.registry.wf()
    }

    pub open spec fn state(&self) -> ParserState {
        ParserState {
            registry: self.registry@,
            order: self.stage_order@,
            warnings: self.warnings@.map_values(|w: ParseWarning| w@),
            report: self.report,
        }
    }

    /// A parser with nothing parsed.
    pub fn new() -> (r: InitParser)
        ensures
            r.wf(),
            r.state() == initial_state(),
    {
        let r = InitParser {
            registry: StageRegistry::new(),
            stage_order: Vec::new(),
            warnings: Vec::new(),
            report: ParseReport::default(),
        };
        assert(r.state().warnings =~= Seq::<WarningSpec>::empty());
        r
    }

    fn push_warning(&mut self, line_no: usize, line: &str, kind: ParseWarningKind, detail: String)
        requires
            old(self).report.rejected_lines < usize::MAX,
        ensures
            final(self).registry == old(self).registry,
            final(self).state() == warned(old(self).state(), line_no, line@, kind, detail@),
    {
        let w = ParseWarning { line_no, raw_line: string_of(line), kind, detail };
        self.warnings.push(w);
        self.report.rejected_lines = self.report.rejected_lines + 1;
        assert(self.state().warnings =~= old(self).state().warnings.push(w@));
    }

    fn commit(&mut self, stage: BootStage, cmd: Command, line_no: usize, line: &str)
        requires
            old(self).wf(),
            old(self).report.rejected_lines < usize::MAX,
            old(self).report.accepted_lines < usize::MAX,
        ensures
            final(self).wf(),
            final(self).state() == committed(old(self).state(), stage, cmd@, line_no, line@),
    {
        if self.registry.count(stage) >= MAX_STAGE_COMMANDS {
            let mut d = string_of("стадия переполнена: лимит ");
            push_decimal(&mut d, MAX_STAGE_COMMANDS as u64);
            push_str(&mut d, " команд на стадию");
            self.push_warning(line_no, line, ParseWarningKind::TooManyStageCommands, d);
        } else {
            let ghost c = cmd@;
            self.registry.append(stage, cmd);
            self.report.accepted_lines = self.report.accepted_lines + 1;
        }
    }

    /// Applies one classified line to the parser state.
    pub fn apply_action(
        &mut self,
        active: &mut Option<BootStage>,
        line_no: usize,
        line: &str,
        action: LineAction,
        verdict: Option<Result<(), VaultRejection>>,
    )
        requires
            old(self).wf(),
            old(self).report.accepted_lines < usize::MAX,
            old(self).report.rejected_lines < usize::MAX,
            old(self).report.skipped_lines < usize::MAX,
        ensures
            final(self).wf(),
            (final(self).state(), *final(active)) == step(
                old(self).state(),
                *old(active),
                line_no,
                line@,
                action@,
                verdict_view(verdict),
            ),
    {
        match action {
            LineAction::Skip => {
                self.report.skipped_lines = self.report.skipped_lines + 1;
            },
            LineAction::Reject(kind, detail) => {
                self.push_warning(line_no, line, kind, detail);
            },
            LineAction::Stage(stage) => {
                *active = Some(stage);
                let mut seen: bool = false;
                let mut i: usize = 0;
                while i < self.stage_order.len()
                    invariant
                        i <= self.stage_order@.len(),
                        seen == self.stage_order@.subrange(0, i as int).contains(stage),
                    decreases self.stage_order@.len() - i,
                {
                    proof {
                        let a = self.stage_order@.subrange(0, i as int);
                        let b = self.stage_order@.subrange(0, i + 1);
                        if b.contains(stage) {
                            let j = choose|j: int| 0 <= j < b.len() && b[j] == stage;
                            if j < i {
                                assert(a[j] == stage);
                            }
                        }
                        if a.contains(stage) {
                            let j = choose|j: int| 0 <= j < a.len() && a[j] == stage;
                            assert(b[j] == stage);
                        }
                        if self.stage_order@[i as int] == stage {
                            assert(b[i as int] == stage);
                        }
                    }
                    if self.stage_order[i] == stage {
                        seen = true;
                    }
                    i = i + 1;
                }
                assert(self.stage_order@.subrange(0, i as int) =~= self.stage_order@);
                if !seen {
                    self.stage_order.push(stage);
                }
                self.registry.declare(stage);
                self.report.accepted_lines = self.report.accepted_lines + 1;
            },
            LineAction::Mount(m) => {
                match *active {
                    None => {
                        self.push_warning(
                            line_no,
                            line,
                            ParseWarningKind::MissingStageContext,
                            string_of("команда встречена до первого объявления стадии 'on'"),
                        );
                    },
                    Some(stage) => {
                        match verdict {
                            Some(Ok(())) => {
                                self.commit(stage, Command::Mount(m), line_no, line);
                            },
                            Some(Err(rej)) => {
                                let (kind, msg) = match rej {
                                    VaultRejection::UserdataPolicy(msg) => (
                                        ParseWarningKind::UserdataPolicyViolation,
                                        msg,
                                    ),
                                    VaultRejection::NonExt4Userdata(msg) => (
                                        ParseWarningKind::NonExt4Userdata,
                                        msg,
                                    ),
                                    VaultRejection::TpmPartitionDenied(msg) => (
                                        ParseWarningKind::TpmPartitionDenied,
                                        msg,
                                    ),
                                };
                                self.push_warning(line_no, line, kind, msg);
                            },
                            None => {},
                        }
                    },
                }
            },
            LineAction::Service(c) => {
                match *active {
                    None => {
                        self.push_warning(
                            line_no,
                            line,
                            ParseWarningKind::MissingStageContext,
                            string_of("команда встречена до первого объявления стадии 'on'"),
                        );
                    },
                    Some(stage) => {
                        self.commit(stage, Command::Service(c), line_no, line);
                    },
                }
            },
        }
    }
}


/// Each line is accepted, rejected or skipped, and counted.
pub open spec fn report_balanced(r: ParseReport) -> bool {
    r.accepted_lines + r.rejected_lines + r.skipped_lines == r.total_lines
}

/// The mount policy of the boot script: a destination under /TPM is never
/// mounted; /userdata must be ext4; any other destination is mounted
/// read-write only in the stages allowed to flash (fastbootd, EDL,
/// recovery).
pub open spec fn policy_verdict(dst: Seq<char>, fs: Seq<char>, mode: MountMode, stage: BootStage) -> Result<
    (),
    (ParseWarningKind, Seq<char>),
> {
    if dst.len() >= 4 && dst.subrange(0, 4) == "/TPM"@ {
        Err((ParseWarningKind::TpmPartitionDenied, "монтирование "@ + dst + " запрещено"@))
    } else if dst == "/userdata"@ && fs != "ext4"@ {
        Err((ParseWarningKind::NonExt4Userdata, "/userdata: "@ + fs + " вместо ext4"@))
    } else if dst != "/userdata"@ && mode == MountMode::ReadWrite && !(stage == BootStage::Fastbootd || stage
        == BootStage::Edl || stage == BootStage::Recovery) {
        Err((ParseWarningKind::UserdataPolicyViolation, "rw-монтирование "@ + dst + " на стадии "@ + stage_token(stage)))
    } else {
        Ok(())
    }
}

/// Decides a mount of the boot script by `policy_verdict`; the verdict
/// `parse` takes for each mount.
pub fn mount_policy(dst: &str, fs: &str, mode: MountMode, stage: BootStage) -> (r: Result<(), VaultRejection>)
    ensures
        verdict_view(Some(r)) == Some(policy_verdict(dst@, fs@, mode, stage)),
{
    let cs: Vec<char> = crate::text::chars_of(dst);
    proof {
        reveal_strlit("/TPM");
        reveal_strlit("/userdata");
        reveal_strlit("ext4");
    }
    if cs.len() >= 4 && cs[0] == '/' && cs[1] == 'T' && cs[2] == 'P' && cs[3] == 'M' {
        assert(dst@.subrange(0, 4) =~= "/TPM"@);
        let mut m: String = crate::text::string_of("монтирование ");
        crate::text::push_str(&mut m, dst);
        crate::text::push_str(&mut m, " запрещено");
        return Err(VaultRejection::TpmPartitionDenied(m));
    }
    assert(!(dst@.len() >= 4 && dst@.subrange(0, 4) == "/TPM"@)) by {
        if dst@.len() >= 4 && dst@.subrange(0, 4) == "/TPM"@ {
            assert(dst@[0] == dst@.subrange(0, 4)[0]);
            assert(dst@[1] == dst@.subrange(0, 4)[1]);
            assert(dst@[2] == dst@.subrange(0, 4)[2]);
            assert(dst@[3] == dst@.subrange(0, 4)[3]);
        }
    }
    let is_userdata: bool = crate::text::str_eq(dst, "/userdata");
    if is_userdata && !crate::text::str_eq(fs, "ext4") {
        let mut m: String = crate::text::string_of("/userdata: ");
        crate::text::push_str(&mut m, fs);
        crate::text::push_str(&mut m, " вместо ext4");
        return Err(VaultRejection::NonExt4Userdata(m));
    }
    let rw: bool = match mode {
        MountMode::ReadWrite => true,
        MountMode::ReadOnly => false,
    };
    if !is_userdata && rw && !stage.is_flash_authorized() {
        let mut m: String = crate::text::string_of("rw-монтирование ");
        crate::text::push_str(&mut m, dst);
        crate::text::push_str(&mut m, " на стадии ");
        crate::text::push_str(&mut m, stage.as_token());
        return Err(VaultRejection::UserdataPolicy(m));
    }
    Ok(())
}

/// The verdict recorded for a line with action `a`, taken while `active`
/// is the stage: for a mount inside a stage, the view of what `vault`
/// answered for its destination, file system, mode and that stage; for
/// any other line, none.
pub open spec fn verdict_fits<F: Fn(&str, &str, MountMode, BootStage) -> Result<(), VaultRejection>>(
    vault: F,
    a: ActionSpec,
    active: Option<BootStage>,
    v: Option<Result<(), (ParseWarningKind, Seq<char>)>>,
) -> bool {
    match (a, active) {
        (ActionSpec::Cmd(CommandSpec::Mount { fs_type, src, dst, mode }), Some(stage)) => exists|
            d: &str,
            f: &str,
            res: Result<(), VaultRejection>,
        |
            d@ == dst && f@ == fs_type && #[trigger] call_ensures(vault, (d, f, mode, stage), res) && v == verdict_view(
                Some(res),
            ),
        _ => v is None,
    }
}

/// Each verdict of `vs` is what `vault` answered for its line of `ls`.
pub open spec fn verdicts_from<F: Fn(&str, &str, MountMode, BootStage) -> Result<(), VaultRejection>>(
    vault: F,
    ls: Seq<Seq<char>>,
    vs: Seq<Option<Result<(), (ParseWarningKind, Seq<char>)>>>,
) -> bool {
    forall|i: int|
        0 <= i < ls.len() ==> #[trigger] verdict_fits(
            vault,
            classify(ls[i]),
            run(initial_state(), None, ls.subrange(0, i), vs.subrange(0, i), 1).1,
            vs[i],
        )
}

/// A vault whose answer is fixed by the destination and file system text,
/// the mode and the stage.
pub open spec fn vault_deterministic<F: Fn(&str, &str, MountMode, BootStage) -> Result<(), VaultRejection>>(
    vault: F,
) -> bool {
    forall|d1: &str, d2: &str, f1: &str, f2: &str, m: MountMode, s: BootStage, r1: Result<(), VaultRejection>, r2: Result<(), VaultRejection>|
        d1@ == d2@ && f1@ == f2@ && #[trigger] call_ensures(vault, (d1, f1, m, s), r1) && #[trigger] call_ensures(vault, (d2, f2, m, s), r2)
            ==> verdict_view(Some(r1)) == verdict_view(Some(r2))
}

/// The first `i` verdicts of two explanations of one script agree.
proof fn lemma_verdict_prefix<F: Fn(&str, &str, MountMode, BootStage) -> Result<(), VaultRejection>>(
    vault: F,
    ls: Seq<Seq<char>>,
    vs1: Seq<Option<Result<(), (ParseWarningKind, Seq<char>)>>>,
    vs2: Seq<Option<Result<(), (ParseWarningKind, Seq<char>)>>>,
    i: int,
)
    requires
        0 <= i <= ls.len(),
        vault_deterministic(vault),
        vs1.len() == ls.len(),
        vs2.len() == ls.len(),
        verdicts_from(vault, ls, vs1),
        verdicts_from(vault, ls, vs2),
    ensures
        vs1.subrange(0, i) == vs2.subrange(0, i),
    decreases i,
{
    if i > 0 {
        let j = i - 1;
        lemma_verdict_prefix(vault, ls, vs1, vs2, j);
        let pre = ls.subrange(0, j);
        let a = run(initial_state(), None, pre, vs1.subrange(0, j), 1).1;
        assert(verdict_fits(vault, classify(ls[j]), a, vs1[j]));
        assert(verdict_fits(vault, classify(ls[j]), run(initial_state(), None, pre, vs2.subrange(0, j), 1).1, vs2[j]));
        assert(vs1[j] == vs2[j]);
        assert(vs1.subrange(0, i) =~= vs1.subrange(0, j).push(vs1[j]));
        assert(vs2.subrange(0, i) =~= vs2.subrange(0, j).push(vs2[j]));
    }
}

/// The verdicts that explain a parse are fixed by the script when the
/// vault answers alike for alike mounts: two parses of one script, from
/// any starting states, end in the same state.
pub proof fn lemma_parse_depends_on_script<F: Fn(&str, &str, MountMode, BootStage) -> Result<(), VaultRejection>>(
    vault: F,
    ls: Seq<Seq<char>>,
    vs1: Seq<Option<Result<(), (ParseWarningKind, Seq<char>)>>>,
    vs2: Seq<Option<Result<(), (ParseWarningKind, Seq<char>)>>>,
)
    requires
        vault_deterministic(vault),
        vs1.len() == ls.len(),
        vs2.len() == ls.len(),
        verdicts_from(vault, ls, vs1),
        verdicts_from(vault, ls, vs2),
    ensures
        vs1 == vs2,
        run(initial_state(), None, ls, vs1, 1) == run(initial_state(), None, ls, vs2, 1),
{
    lemma_verdict_prefix(vault, ls, vs1, vs2, ls.len() as int);
    assert(vs1 =~= vs1.subrange(0, ls.len() as int));
    assert(vs2 =~= vs2.subrange(0, ls.len() as int));
}

impl InitParser {
    /// Parses a whole script, line by line, from a fresh state. Each mount
    /// inside a stage is handed to `vault` (destination, file system, mode,
    /// stage), whose verdict decides whether the command is registered.
    /// Returns a copy of the registry.
    pub fn parse<F>(&mut self, source: &str, vault: F) -> (r: StageRegistry) where
        F: Fn(&str, &str, MountMode, BootStage) -> Result<(), VaultRejection>,

        requires
            forall|d: &str, f: &str, m: MountMode, s: BootStage| vault.requires((d, f, m, s)),
        ensures
            final(self).wf(),
            r.wf(),
            r@ == final(self).registry@,
            final(self).report.total_lines == lines(source@).len(),
            report_balanced(final(self).report),
            stages_consistent(final(self).state()),
            exists|vs: Seq<Option<Result<(), (ParseWarningKind, Seq<char>)>>>|
                vs.len() == lines(source@).len() && verdicts_from(vault, lines(source@), vs) && #[trigger] run(
                    initial_state(),
                    None,
                    lines(source@),
                    vs,
                    1,
                ).0 == final(self).state(),
    {
        self.registry = StageRegistry::new();
        self.stage_order = Vec::new();
        self.warnings = Vec::new();
        self.report = ParseReport::default();
        assert(self.state().warnings =~= Seq::<WarningSpec>::empty());
        assert(stages_consistent(self.state())) by {
            assert(self.stage_order@ =~= Seq::<BootStage>::empty());
        }
        let cs: Vec<char> = crate::text::chars_of(source);
        let ls: Vec<Vec<char>> = split_lines(cs.as_slice());
        let ghost all = lines(source@);
        let mut active: Option<BootStage> = None;
        let ghost mut vs: Seq<Option<Result<(), (ParseWarningKind, Seq<char>)>>> = Seq::empty();
        let mut k: usize = 0;
        assert(all.subrange(0, 0) =~= Seq::<Seq<char>>::empty());
        while k < ls.len()
            invariant
                self.wf(),
                k <= ls@.len(),
                vs.len() == k,
                ls@.map_values(|l: Vec<char>| l@) == all,
                all == lines(source@),
                (self.state(), active) == run(initial_state(), None, all.subrange(0, k as int), vs, 1),
                self.report.total_lines == k,
                report_balanced(self.report),
                stages_consistent(self.state()),
                active matches Some(s) ==> self.stage_order@.contains(s),
                forall|d: &str, f: &str, m: MountMode, s: BootStage| vault.requires((d, f, m, s)),
                verdicts_from(vault, all.subrange(0, k as int), vs),
            decreases ls@.len() - k,
        {
            let ghost st0 = self.state();
            let ghost a0 = active;
            self.report.total_lines = self.report.total_lines + 1;
            let (text, action) = classify_line(ls[k].as_slice());
            assert(ls@[k as int]@ == all[k as int]);
            let verdict: Option<Result<(), VaultRejection>> = match (&action, active) {
                (LineAction::Mount(m), Some(stage)) => {
                    let d: &str = m.dst.as_str();
                    let f: &str = m.fs_type.as_str();
                    let res = vault(d, f, m.mode, stage);
                    assert(verdict_fits(vault, action@, active, verdict_view(Some(res))));
                    Some(res)
                },
                _ => None,
            };
            assert(verdict_fits(vault, action@, active, verdict_view(verdict)));
            let ghost a_in = action@;
            let ghost st_in = self.state();
            let ghost act_in = active;
            proof {
                lemma_step_keeps_stages(st_in, act_in, (k + 1) as usize, text@, a_in, verdict_view(verdict));
            }
            self.apply_action(&mut active, k + 1, text.as_str(), action, verdict);
            proof {
                let vs0 = vs;
                vs = vs.push(verdict_view(verdict));
                let ls1 = all.subrange(0, k + 1);
                assert(ls1.drop_last() =~= all.subrange(0, k as int));
                assert(ls1.last() == all[k as int]);
                assert(vs.drop_last() =~= vs0);
                assert(vs.last() == verdict_view(verdict));
                assert forall|i: int| 0 <= i < ls1.len() implies #[trigger] verdict_fits(
                    vault,
                    classify(ls1[i]),
                    run(initial_state(), None, ls1.subrange(0, i), vs.subrange(0, i), 1).1,
                    vs[i],
                ) by {
                    if i < k {
                        let ls0 = all.subrange(0, k as int);
                        assert(ls1.subrange(0, i) =~= ls0.subrange(0, i));
                        assert(vs.subrange(0, i) =~= vs0.subrange(0, i));
                        assert(ls1[i] == ls0[i]);
                        assert(verdict_fits(vault, classify(ls0[i]), run(initial_state(), None, ls0.subrange(0, i), vs0.subrange(0, i), 1).1, vs0[i]));
                    } else {
                        assert(ls1.subrange(0, i) =~= all.subrange(0, k as int));
                        assert(vs.subrange(0, i) =~= vs0);
                    }
                }
            }
            k = k + 1;
        }
        assert(all.subrange(0, k as int) =~= all);
        assert(run(initial_state(), None, lines(source@), vs, 1).0 == self.state());
        self.registry.duplicate()
    }
}


/// The declaration order lists each declared stage once, and exactly the
/// stages that have a registry entry.
pub open spec fn stages_consistent(st: ParserState) -> bool {
    &&& st.registry.len() == 6
    &&& st.order.no_duplicates()
    &&& forall|s: BootStage|
        #![trigger st.order.contains(s)]
        #![trigger st.registry[stage_index(s)]]
        st.order.contains(s) <==> st.registry[stage_index(s)] is Some
}

/// One line keeps the declaration order consistent with the registry, and
/// the active stage declared.
pub proof fn lemma_step_keeps_stages(
    st: ParserState,
    active: Option<BootStage>,
    line_no: usize,
    line: Seq<char>,
    a: ActionSpec,
    verdict: Option<Result<(), (ParseWarningKind, Seq<char>)>>,
)
    requires
        stages_consistent(st),
        active matches Some(s) ==> st.order.contains(s),
    ensures
        stages_consistent(step(st, active, line_no, line, a, verdict).0),
        step(st, active, line_no, line, a, verdict).1 matches Some(s) ==> step(
            st,
            active,
            line_no,
            line,
            a,
            verdict,
        ).0.order.contains(s),
{
    let (st2, a2) = step(st, active, line_no, line, a, verdict);
    match a {
        ActionSpec::Stage(s) => {
            let o2 = st2.order;
            if !st.order.contains(s) {
                assert(o2 == st.order.push(s));
                assert(o2[o2.len() - 1] == s);
                assert forall|i: int, j: int| 0 <= i < o2.len() && 0 <= j < o2.len() && i != j implies o2[i] != o2[j] by {
                    if i < st.order.len() && j < st.order.len() {
                    } else if i < st.order.len() {
                        assert(st.order[i] == o2[i]);
                    } else {
                        assert(st.order[j] == o2[j]);
                    }
                }
                assert forall|s2: BootStage| o2.contains(s2) <==> st.order.contains(s2) || s2 == s by {
                    if o2.contains(s2) {
                        let j = choose|j: int| 0 <= j < o2.len() && o2[j] == s2;
                        if j < st.order.len() {
                            assert(st.order[j] == s2);
                        }
                    }
                    if st.order.contains(s2) {
                        let j = choose|j: int| 0 <= j < st.order.len() && st.order[j] == s2;
                        assert(o2[j] == s2);
                    }
                }
            }
            assert forall|s2: BootStage| o2.contains(s2) <==> st2.registry[stage_index(s2)] is Some by {
                if s2 != s {
                    assert(stage_index(s2) != stage_index(s));
                    assert(st2.registry[stage_index(s2)] == st.registry[stage_index(s2)]);
                }
            }
        },
        ActionSpec::Cmd(c) => {
            match active {
                Some(stage) => {
                    assert(st.registry[stage_index(stage)] is Some);
                    assert forall|s2: BootStage| st2.order.contains(s2) <==> st2.registry[stage_index(s2)] is Some by {
                        if s2 != stage {
                            assert(stage_index(s2) != stage_index(stage));
                        }
                    }
                },
                None => {},
            }
        },
        _ => {},
    }
}

} // verus!

//! fastbootd state that outlives one screen: the flash log and progress;
//! and the `fb` commands typed at its prompt.
use vstd::prelude::*;
use crate::init_parser::{split_tokens, string_views, tokens};

verus! {

/// The flash log and the progress shown.
pub struct FastbootdState {
    pub flash_log: Vec<String>,
    pub progress: u8,
}

/// Empties the flash log and resets the progress.
pub fn reset_fastbootd_state(st: &mut FastbootdState)
    ensures
        final(st).flash_log@.len() == 0,
        final(st).progress == 0,
{
    st.flash_log = Vec::new();
    st.progress = 0;
}

/// Where `fb reboot` sends the machine.
#[derive(Debug, Clone, Copy, PartialEq, Eq, Structural)]
pub enum RebootTarget {
    System,
    Recovery,
    Dsm,
}

/// A command typed at the fastbootd prompt (`fb <command> [args]`): a
/// usage hint when the command or its partition is missing, the action
/// with its partition or reboot target, or an unknown command word.
pub enum FbCommand {
    Usage,
    FlashUsage,
    Flash(String),
    EraseUsage,
    Erase(String),
    Format,
    Getvar,
    Unlock,
    Lock,
    Reboot(RebootTarget),
    Unknown(String),
}

/// What a command is, with its text argument as characters.
pub enum FbSpec {
    Usage,
    FlashUsage,
    Flash(Seq<char>),
    EraseUsage,
    Erase(Seq<char>),
    Format,
    Getvar,
    Unlock,
    Lock,
    Reboot(RebootTarget),
    Unknown(Seq<char>),
}

impl View for FbCommand {
    type V = FbSpec;

    open spec fn view(&self) -> FbSpec {
        match self {
            FbCommand::Usage => FbSpec::Usage,
            FbCommand::FlashUsage => FbSpec::FlashUsage,
            FbCommand::Flash(p) => FbSpec::Flash(p@),
            FbCommand::EraseUsage => FbSpec::EraseUsage,
            FbCommand::Erase(p) => FbSpec::Erase(p@),
            FbCommand::Format => FbSpec::Format,
            FbCommand::Getvar => FbSpec::Getvar,
            FbCommand::Unlock => FbSpec::Unlock,
            FbCommand::Lock => FbSpec::Lock,
            FbCommand::Reboot(t) => FbSpec::Reboot(*t),
            FbCommand::Unknown(w) => FbSpec::Unknown(w@),
        }
    }
}

/// The command the whitespace-separated words `t` give (the first word is
/// `fb` itself): the second word names it; flash and erase take the third
/// as partition; reboot goes to recovery, to dsm for "dsm" or "edl", and
/// to the system otherwise or without a third word.
pub open spec fn fb_command(t: Seq<Seq<char>>) -> FbSpec {
    if t.len() < 2 {
        FbSpec::Usage
    } else {
        let w = t[1];
        if w == "flash"@ {
            if t.len() < 3 { FbSpec::FlashUsage } else { FbSpec::Flash(t[2]) }
        } else if w == "erase"@ {
            if t.len() < 3 { FbSpec::EraseUsage } else { FbSpec::Erase(t[2]) }
        } else if w == "format"@ {
            FbSpec::Format
        } else if w == "getvar"@ {
            FbSpec::Getvar
        } else if w == "unlock"@ {
            FbSpec::Unlock
        } else if w == "lock"@ {
            FbSpec::Lock
        } else if w == "reboot"@ {
            if t.len() >= 3 && t[2] == "recovery"@ {
                FbSpec::Reboot(RebootTarget::Recovery)
            } else if t.len() >= 3 && (t[2] == "dsm"@ || t[2] == "edl"@) {
                FbSpec::Reboot(RebootTarget::Dsm)
            } else {
                FbSpec::Reboot(RebootTarget::System)
            }
        } else {
            FbSpec::Unknown(w)
        }
    }
}

/// Reads a command line of the fastbootd prompt.
pub fn handle_command(line: &str) -> (r: FbCommand)
    ensures
        r@ == fb_command(tokens(line@)),
{
    let cs: Vec<char> = crate::text::chars_of(line);
    let parts: Vec<String> = split_tokens(cs.as_slice());
    let ghost t = string_views(parts@);
    assert(t.len() == parts@.len());
    if parts.len() < 2 {
        return FbCommand::Usage;
    }
    assert(t[1] == parts@[1]@);
    let w: &str = parts[1].as_str();
    if crate::text::str_eq(w, "flash") {
        if parts.len() < 3 {
            return FbCommand::FlashUsage;
        }
        assert(t[2] == parts@[2]@);
        return FbCommand::Flash(crate::text::string_of(parts[2].as_str()));
    }
    if crate::text::str_eq(w, "erase") {
        if parts.len() < 3 {
            return FbCommand::EraseUsage;
        }
        assert(t[2] == parts@[2]@);
        return FbCommand::Erase(crate::text::string_of(parts[2].as_str()));
    }
    if crate::text::str_eq(w, "format") {
        return FbCommand::Format;
    }
    if crate::text::str_eq(w, "getvar") {
        return FbCommand::Getvar;
    }
    if crate::text::str_eq(w, "unlock") {
        return FbCommand::Unlock;
    }
    if crate::text::str_eq(w, "lock") {
        return FbCommand::Lock;
    }
    if crate::text::str_eq(w, "reboot") {
        if parts.len() >= 3 {
            assert(t[2] == parts@[2]@);
            let target: &str = parts[2].as_str();
            if crate::text::str_eq(target, "recovery") {
                return FbCommand::Reboot(RebootTarget::Recovery);
            }
            if crate::text::str_eq(target, "dsm") || crate::text::str_eq(target, "edl") {
                return FbCommand::Reboot(RebootTarget::Dsm);
            }
        }
        return FbCommand::Reboot(RebootTarget::System);
    }
    FbCommand::Unknown(crate::text::string_of(w))
}

} // verus!

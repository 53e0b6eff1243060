//! The interface language setting: English by default, or Russian.
use vstd::prelude::*;

verus! {

pub const LANG_EN: u8 = 0;
pub const LANG_RU: u8 = 1;

#[derive(Clone, Copy, Debug, PartialEq, Eq, Structural)]
pub enum Lang {
    En,
    Ru,
}

/// The stored setting: one byte.
pub struct LangSetting {
    pub value: u8,
}

impl LangSetting {
    /// English.
    pub fn new() -> (r: LangSetting)
        ensures
            r.value == LANG_EN,
    {
        LangSetting { value: LANG_EN }
    }
}

/// The current language: Russian when the stored byte says so, else English.
pub fn current(s: &LangSetting) -> (r: Lang)
    ensures
        r == (if s.value == LANG_RU { Lang::Ru } else { Lang::En }),
{
    if s.value == LANG_RU {
        Lang::Ru
    } else {
        Lang::En
    }
}

/// Stores `lang`.
pub fn set(s: &mut LangSetting, lang: Lang)
    ensures
        final(s).value == (match lang {
            Lang::En => LANG_EN,
            Lang::Ru => LANG_RU,
        }),
{
    let value: u8 = match lang {
        Lang::En => LANG_EN,
        Lang::Ru => LANG_RU,
    };
    s.value = value;
}

/// What `set` stores, `current` reads back.
pub proof fn lemma_set_then_current(lang: Lang, value: u8)
    requires
        value == (match lang {
            Lang::En => LANG_EN,
            Lang::Ru => LANG_RU,
        }),
    ensures
        (if value == LANG_RU { Lang::Ru } else { Lang::En }) == lang,
{
}

} // verus!

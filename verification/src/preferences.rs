//! The preferences of the user.
use vstd::prelude::*;

use crate::text::string_from;

verus! {

/// What the program may tell its author.
#[derive(Debug, Clone, Copy, PartialEq, Eq, Structural)]
pub enum Telemetry {
    All,
    OnlyVersionCheck,
    Nothing,
}

impl Default for Telemetry {
    fn default() -> (r: Self)
        ensures
            r == Telemetry::All,
    {
        Telemetry::All
    }
}

/// Light or dark colors.
#[derive(Debug, Clone, Copy, PartialEq, Eq, Structural)]
pub enum DarkModePref {
    FollowSystem,
    Dark,
    Light,
}

impl Default for DarkModePref {
    fn default() -> (r: Self)
        ensures
            r == DarkModePref::FollowSystem,
    {
        DarkModePref::FollowSystem
    }
}

/// How long saved world data is kept.
#[derive(Debug, Clone, Copy, PartialEq, Eq, Structural)]
pub enum AutoDeletePref {
    NoTime,
    OneDay,
    OneWeek,
    OneMonth,
    Eternity,
}

impl Default for AutoDeletePref {
    fn default() -> (r: Self)
        ensures
            r == AutoDeletePref::OneWeek,
    {
        AutoDeletePref::OneWeek
    }
}

/// How many answers the cache keeps.
#[derive(Debug, Clone, Copy, PartialEq, Eq, Structural)]
pub enum CacheSize {
    Disabled,
    Normal,
    Large,
}

impl Default for CacheSize {
    fn default() -> (r: Self)
        ensures
            r == CacheSize::Normal,
    {
        CacheSize::Normal
    }
}

impl CacheSize {
    /// How many answers the cache keeps.
    pub fn value(self) -> (r: usize)
        ensures
            r == match self {
                CacheSize::Disabled => 0usize,
                CacheSize::Normal => 100usize,
                CacheSize::Large => 10_000usize,
            },
    {
        match self {
            CacheSize::Disabled => 0,
            CacheSize::Normal => 100,
            CacheSize::Large => 10_000,
        }
    }

    /// The name of the size (`ToString`).
    pub fn to_string(self) -> (r: String)
        ensures
            r@ == match self {
                CacheSize::Disabled => "None"@,
                CacheSize::Normal => "Normal"@,
                CacheSize::Large => "Large"@,
            },
    {
        match self {
            CacheSize::Disabled => string_from("None"),
            CacheSize::Normal => string_from("Normal"),
            CacheSize::Large => string_from("Large"),
        }
    }
}

/// The language of the interface.
#[derive(Debug, Clone, Copy, PartialEq, Eq, Structural)]
pub enum Language {
    EN,
    DE,
    FR,
}

impl Default for Language {
    fn default() -> (r: Self)
        ensures
            r == Language::EN,
    {
        Language::EN
    }
}

impl Language {
    /// Every language, in declaration order.
    pub fn all() -> (r: Vec<Language>)
        ensures
            r@ == seq![Language::EN, Language::DE, Language::FR],
    {
        vec![Language::EN, Language::DE, Language::FR]
    }

    /// The locale the translations of this language are kept under (what
    /// `apply` switches to).
    pub fn locale(self) -> (r: &'static str)
        ensures
            r@ == match self {
                Language::EN => "en"@,
                Language::DE => "de"@,
                Language::FR => "fr"@,
            },
    {
        match self {
            Language::EN => "en",
            Language::DE => "de",
            Language::FR => "fr",
        }
    }

    /// The identifier used in the names of the locale files (`ToString`).
    pub fn to_string(self) -> (r: String)
        ensures
            r@ == match self {
                Language::EN => "EN"@,
                Language::DE => "DE"@,
                Language::FR => "FR"@,
            },
    {
        match self {
            Language::EN => string_from("EN"),
            Language::DE => string_from("DE"),
            Language::FR => string_from("FR"),
        }
    }
}

/// The preferences of the user.
#[derive(Debug, Clone, Copy, PartialEq, Eq, Structural)]
pub struct Preferences {
    pub darkmode: DarkModePref,
    pub auto_delete: AutoDeletePref,
    pub cache_size: CacheSize,
    pub language: Language,
    pub telemetry: Telemetry,
}

impl Default for Preferences {
    /// Follow the system's colors, keep saved data for ever, a normal
    /// cache, English, and all telemetry.
    fn default() -> (r: Self)
        ensures
            r == (Preferences {
                darkmode: DarkModePref::FollowSystem,
                auto_delete: AutoDeletePref::Eternity,
                cache_size: CacheSize::Normal,
                language: Language::EN,
                telemetry: Telemetry::All,
            }),
    {
        Preferences {
            darkmode: DarkModePref::FollowSystem,
            auto_delete: AutoDeletePref::Eternity,
            cache_size: CacheSize::Normal,
            language: Language::EN,
            telemetry: Telemetry::All,
        }
    }
}

} // verus!

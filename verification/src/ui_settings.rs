use vstd::prelude::*;

verus! {

/// The colour theme of the user interface.
#[derive(Debug, Clone, Copy, PartialEq, Eq, Structural)]
pub enum Theme {
    Dark,
    LightDark,
    Light,
}

impl Theme {
    /// The theme's name as shown.
    pub fn display(&self) -> (res: &'static str)
        ensures
            res@ == match self {
                Theme::Dark => "Dark"@,
                Theme::LightDark => "Light Dark"@,
                Theme::Light => "Light"@,
            },
    {
        match self {
            Theme::Dark => "Dark",
            Theme::LightDark => "Light Dark",
            Theme::Light => "Light",
        }
    }
}

impl Default for Theme {
    fn default() -> (res: Self)
        ensures
            res == Theme::LightDark,
    {
        Theme::LightDark
    }
}

/// The most detailed level of log messages that are written.
#[derive(Debug, Clone, Copy, PartialEq, Eq, Structural)]
pub enum LogLevelFilter {
    Off,
    Error,
    Warn,
    Info,
    Debug,
    Trace,
}

/// Whether a log is written, and at which level.
#[derive(Debug, Clone, Copy, PartialEq, Eq, Structural)]
pub struct DebugSettings {
    pub enable_log: bool,
    pub log_level_filter: LogLevelFilter,
}

impl Default for DebugSettings {
    fn default() -> (res: Self)
        ensures
            !res.enable_log,
            res.log_level_filter == LogLevelFilter::Info,
    {
        DebugSettings { enable_log: false, log_level_filter: LogLevelFilter::Info }
    }
}

/// Where combat logs are uploaded to.
#[derive(Debug, Clone)]
pub struct UploadSettings {
    pub oscr_url: String,
}

/// The diagram that the damage tab shows.
#[derive(Debug, Clone, Copy, PartialEq, Eq, Structural)]
pub enum ActiveDamageDiagram {
    Damage,
    Dps,
    DamageResistance,
}

impl ActiveDamageDiagram {
    /// The diagram's name as shown.
    pub fn display(&self) -> (res: &'static str)
        ensures
            res@ == match self {
                ActiveDamageDiagram::Damage => "Damage"@,
                ActiveDamageDiagram::Dps => "DPS"@,
                ActiveDamageDiagram::DamageResistance => "Damage Resistance"@,
            },
    {
        match self {
            ActiveDamageDiagram::Damage => "Damage",
            ActiveDamageDiagram::Dps => "DPS",
            ActiveDamageDiagram::DamageResistance => "Damage Resistance",
        }
    }
}

/// The diagram that the heal tab shows.
#[derive(Debug, Clone, Copy, PartialEq, Eq, Structural)]
pub enum ActiveHealDiagram {
    Heal,
    Hps,
}

impl ActiveHealDiagram {
    /// The diagram's name as shown.
    pub fn display(&self) -> (res: &'static str)
        ensures
            res@ == match self {
                ActiveHealDiagram::Heal => "Heal"@,
                ActiveHealDiagram::Hps => "HPS"@,
            },
    {
        match self {
            ActiveHealDiagram::Heal => "Heal",
            ActiveHealDiagram::Hps => "HPS",
        }
    }
}

} // verus!

//! A personal command-history store with search, import and streaming
//! candidate formatting.

pub mod format;
pub mod import;
pub mod store;
pub mod stream;
pub mod text;
pub mod time;

use vstd::prelude::*;

verus! {

/// The name a mode goes by at the boundary.
pub open spec fn spec_mode_name(mode: Mode) -> Seq<char> {
    match mode {
        Mode::Global => "global"@,
        Mode::Session => "session"@,
        Mode::Cwd => "cwd"@,
        Mode::Saved => "saved"@,
    }
}

/// The mode a name denotes, if any: anything but the four known names is
/// rejected at the boundary.
pub open spec fn spec_parse_mode(s: Seq<char>) -> Option<Mode> {
    if s == "global"@ {
        Some(Mode::Global)
    } else if s == "session"@ {
        Some(Mode::Session)
    } else if s == "cwd"@ {
        Some(Mode::Cwd)
    } else if s == "saved"@ {
        Some(Mode::Saved)
    } else {
        None
    }
}

/// User configuration, resolved at startup.
pub struct Config {
    pub default_mode: Option<String>,
    pub default_limit: Option<u32>,
    pub height: Option<String>,
}

/// The search mode: which slice of history a query looks at.
#[derive(Clone, Copy, PartialEq, Eq, Structural, Debug)]
pub enum Mode {
    Global,
    Session,
    Cwd,
    Saved,
}

impl Mode {
    /// The successor in the fixed mode cycle
    /// `global -> session -> cwd -> saved -> global`.
    pub fn next_in_cycle(self) -> (r: Mode)
        ensures
            r == (match self {
                Mode::Global => Mode::Session,
                Mode::Session => Mode::Cwd,
                Mode::Cwd => Mode::Saved,
                Mode::Saved => Mode::Global,
            }),
    {
        match self {
            Mode::Global => Mode::Session,
            Mode::Session => Mode::Cwd,
            Mode::Cwd => Mode::Saved,
            Mode::Saved => Mode::Global,
        }
    }

    /// The mode's name.
    pub fn name(self) -> (r: &'static str)
        ensures
            r@ == spec_mode_name(self),
    {
        match self {
            Mode::Global => "global",
            Mode::Session => "session",
            Mode::Cwd => "cwd",
            Mode::Saved => "saved",
        }
    }

    /// Reads a mode name, rejecting anything else.
    pub fn from_name(s: &str) -> (r: Option<Mode>)
        ensures
            r == spec_parse_mode(s@),
    {
        if crate::text::str_eq(s, "global") {
            Some(Mode::Global)
        } else if crate::text::str_eq(s, "session") {
            Some(Mode::Session)
        } else if crate::text::str_eq(s, "cwd") {
            Some(Mode::Cwd)
        } else if crate::text::str_eq(s, "saved") {
            Some(Mode::Saved)
        } else {
            None
        }
    }
}

impl Config {
    /// The mode a session starts in: the command line wins, then a valid
    /// configured default, then the global mode.
    pub fn effective_mode(&self, cli: Option<Mode>) -> (r: Mode)
        ensures
            r == (match cli {
                Some(m) => m,
                None => match self.default_mode {
                    Some(s) => match spec_parse_mode(s@) {
                        Some(m) => m,
                        None => Mode::Global,
                    },
                    None => Mode::Global,
                },
            }),
    {
        match cli {
            Some(m) => m,
            None => match &self.default_mode {
                Some(s) => match Mode::from_name(s.as_str()) {
                    Some(m) => m,
                    None => Mode::Global,
                },
                None => Mode::Global,
            },
        }
    }

    /// The result cap a session uses: the command line wins, then the
    /// configured default, then one thousand.
    pub fn effective_limit(&self, cli: Option<u32>) -> (r: u32)
        ensures
            r == (match cli {
                Some(v) => v,
                None => match self.default_limit {
                    Some(v) => v,
                    None => 1000u32,
                },
            }),
    {
        match cli {
            Some(v) => v,
            None => match self.default_limit {
                Some(v) => v,
                None => 1000,
            },
        }
    }
}

} // verus!

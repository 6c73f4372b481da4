//! Settings of the formatter.
use vstd::prelude::*;

verus! {

/// Line width used when nothing else is given.
pub const DEFAULT_MAX_WIDTH: usize = 100;

#[derive(Clone, Copy, Debug, PartialEq, Eq, Structural)]
pub struct Settings {
    /// Maximum width of each line.
    pub max_width: usize,
}

impl Default for Settings {
    fn default() -> (r: Settings)
        ensures
            r.max_width == DEFAULT_MAX_WIDTH,
    {
        Settings { max_width: DEFAULT_MAX_WIDTH }
    }
}

impl Settings {
    pub fn new() -> (r: Settings)
        ensures
            r.max_width == DEFAULT_MAX_WIDTH,
    {
        Settings { max_width: DEFAULT_MAX_WIDTH }
    }

    /// The settings in force: those of the configuration file, if one was
    /// read, else the defaults; a maximum width given on its own wins.
    pub fn from(config: Option<Settings>, max_width: Option<usize>) -> (r: Settings)
        ensures
            r.max_width == match max_width {
                Some(w) => w,
                None => match config {
                    Some(c) => c.max_width,
                    None => DEFAULT_MAX_WIDTH,
                },
            },
    {
        let mut settings = match config {
            Some(c) => c,
            None => Settings::new(),
        };
        match max_width {
            Some(w) => {
                settings.max_width = w;
            },
            None => {},
        }
        settings
    }
}

} // verus!

//! The parameters of one run.
use crate::detect::{detect_ext, most_used_extension};
use crate::entry::{listing, option_text, DirectoryEntry, EntryView};
use vstd::prelude::*;

verus! {

/// The direction in which the selected files are ordered by path.
#[derive(Clone, Copy, Debug, PartialEq, Eq, Structural)]
pub enum SortOrder {
    Ascending,
    Descending,
}

/// Whether the renames are only shown or also performed.
#[derive(Clone, Copy, Debug, PartialEq, Eq, Structural)]
pub enum Mode {
    DryRun,
    Apply,
}

impl SortOrder {
    /// The direction that a sort flag stands for: `1` is ascending, every
    /// other value descending.
    pub open spec fn of_flag(sort: u8) -> SortOrder {
        if sort == 1 {
            SortOrder::Ascending
        } else {
            SortOrder::Descending
        }
    }

    /// The direction that a sort flag stands for: `1` is ascending, every
    /// other value descending.
    pub fn from_flag(sort: u8) -> (order: SortOrder)
        ensures
            order == SortOrder::of_flag(sort),
    {
        if sort == 1 {
            SortOrder::Ascending
        } else {
            SortOrder::Descending
        }
    }

    /// The opposite direction.
    pub open spec fn reversed(self) -> SortOrder {
        match self {
            SortOrder::Ascending => SortOrder::Descending,
            SortOrder::Descending => SortOrder::Ascending,
        }
    }
}

impl Mode {
    /// The mode that a rename flag stands for: `0` is a dry run, every other
    /// value performs the renames.
    pub open spec fn of_flag(rename: u8) -> Mode {
        if rename == 0 {
            Mode::DryRun
        } else {
            Mode::Apply
        }
    }

    /// The mode that a rename flag stands for: `0` is a dry run, every other
    /// value performs the renames.
    pub fn from_flag(rename: u8) -> (mode: Mode)
        ensures
            mode == Mode::of_flag(rename),
    {
        if rename == 0 {
            Mode::DryRun
        } else {
            Mode::Apply
        }
    }
}

/// The parameters of a run as they are given.
#[derive(Debug, PartialEq, Eq)]
pub struct Args {
    /// The directory whose files are renamed.
    pub path: String,
    /// The name of the show.
    pub name: String,
    /// The extension of the files to rename; detected where it is absent.
    pub ext: Option<String>,
    /// The number of the season.
    pub season: u8,
    /// `1` orders the files by rising path, every other value by falling
    /// path.
    pub sort: u8,
    /// `0` shows the renames, every other value performs them.
    pub rename: u8,
}

/// What [`Args`] hold, as plain mathematical values.
pub struct ArgsView {
    pub path: Seq<char>,
    pub name: Seq<char>,
    pub ext: Option<Seq<char>>,
    pub season: u8,
    pub sort: u8,
    pub rename: u8,
}

impl View for Args {
    type V = ArgsView;

    open spec fn view(&self) -> ArgsView {
        ArgsView {
            path: self.path@,
            name: self.name@,
            ext: option_text(self.ext),
            season: self.season,
            sort: self.sort,
            rename: self.rename,
        }
    }
}

impl Args {
    /// The parameters for the show `name` in the directory `path`, the
    /// others at their defaults: the extension is detected, the season is
    /// `1`, the files are ordered by rising path, and nothing is renamed.
    pub fn new(path: String, name: String) -> (args: Args)
        ensures
            args@ == (ArgsView {
                path: path@,
                name: name@,
                ext: None,
                season: 1,
                sort: 1,
                rename: 0,
            }),
    {
        Args { path, name, ext: None, season: 1, sort: 1, rename: 0 }
    }
}

/// The parameters of a run once they are resolved: the extension is
/// present, and the flags are read.
#[derive(Debug, PartialEq, Eq)]
pub struct RunConfig {
    /// The directory whose files are renamed.
    pub path: String,
    /// The name of the show.
    pub name: String,
    /// The extension of the files to rename.
    pub ext: String,
    /// The number of the season.
    pub season: u8,
    /// The direction in which the files are ordered.
    pub order: SortOrder,
    /// Whether the renames are performed.
    pub mode: Mode,
}

/// What a [`RunConfig`] holds, as plain mathematical values.
pub struct ConfigView {
    pub path: Seq<char>,
    pub name: Seq<char>,
    pub ext: Seq<char>,
    pub season: u8,
    pub order: SortOrder,
    pub mode: Mode,
}

impl View for RunConfig {
    type V = ConfigView;

    open spec fn view(&self) -> ConfigView {
        ConfigView {
            path: self.path@,
            name: self.name@,
            ext: self.ext@,
            season: self.season,
            order: self.order,
            mode: self.mode,
        }
    }
}

/// The extension that a run uses: the one asked for, else the one that the
/// listing uses most, else the empty extension.
pub open spec fn resolved_extension(requested: Option<Seq<char>>, entries: Seq<EntryView>) -> Seq<
    char,
> {
    match requested {
        Some(ext) => ext,
        None => match most_used_extension(entries) {
            Some(ext) => ext,
            None => Seq::empty(),
        },
    }
}

/// The resolved parameters of a run on `entries`.
pub open spec fn resolved(args: ArgsView, entries: Seq<EntryView>) -> ConfigView {
    ConfigView {
        path: args.path,
        name: args.name,
        ext: resolved_extension(args.ext, entries),
        season: args.season,
        order: SortOrder::of_flag(args.sort),
        mode: Mode::of_flag(args.rename),
    }
}

impl RunConfig {
    /// Resolves the parameters of a run on `entries`: the extension is the
    /// one asked for, else the one that the files of `entries` use most,
    /// else empty.
    pub fn resolve(args: &Args, entries: &[DirectoryEntry]) -> (config: RunConfig)
        ensures
            config@ == resolved(args@, listing(entries@)),
    {
        let ext = match &args.ext {
            Some(ext) => ext.clone(),
            None => match detect_ext(entries) {
                Some(ext) => ext,
                None => String::new(),
            },
        };
        RunConfig::with_extension(args, ext)
    }

    /// The parameters of `args` with the extension `ext` and the flags
    /// read.
    pub fn with_extension(args: &Args, ext: String) -> (config: RunConfig)
        ensures
            config@ == (ConfigView {
                path: args@.path,
                name: args@.name,
                ext: ext@,
                season: args@.season,
                order: SortOrder::of_flag(args@.sort),
                mode: Mode::of_flag(args@.rename),
            }),
    {
        RunConfig {
            path: args.path.clone(),
            name: args.name.clone(),
            ext,
            season: args.season,
            order: SortOrder::from_flag(args.sort),
            mode: Mode::from_flag(args.rename),
        }
    }
}

} // verus!

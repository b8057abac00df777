use vstd::prelude::*;

verus! {

/// How much interaction is required from the user before destructive action.
#[derive(Copy, Clone, Debug, PartialEq, Eq, Structural)]
pub enum AutoConfirmLevel {
    /// Ask nothing: strictly superseded files are deleted without prompting,
    /// ambiguous groups are silently kept.
    Nothing,
    /// Ask once at the end, before any file is removed.
    Removal,
    /// Additionally ask whenever an ambiguity group must be resolved.
    Ambiguities,
    /// Reserve maximal per-decision interactivity.
    Everything,
}

impl AutoConfirmLevel {
    pub fn is_nothing(&self) -> (r: bool)
        ensures
            r <==> *self is Nothing,
    {
        matches!(self, AutoConfirmLevel::Nothing)
    }

    pub fn is_at_least_removal(&self) -> (r: bool)
        ensures
            r <==> (*self is Removal || *self is Ambiguities || *self is Everything),
    {
        matches!(self, AutoConfirmLevel::Removal) || self.is_at_least_ambiguities()
    }

    pub fn is_at_least_ambiguities(&self) -> (r: bool)
        ensures
            r <==> (*self is Ambiguities || *self is Everything),
    {
        matches!(self, AutoConfirmLevel::Ambiguities) || self.is_everything()
    }

    pub fn is_everything(&self) -> (r: bool)
        ensures
            r <==> *self is Everything,
    {
        matches!(self, AutoConfirmLevel::Everything)
    }
}

impl Default for AutoConfirmLevel {
    /// The default level asks on ambiguities, but not for every decision.
    fn default() -> (r: Self)
        ensures
            r is Ambiguities,
    {
        AutoConfirmLevel::Ambiguities
    }
}

/// Options for one run over one directory.
#[derive(Debug, Clone)]
pub struct Options {
    /// Path of the directory whose package files are examined.
    pub dir: String,
    /// How often the user is asked for confirmation.
    pub auto_confirm_level: AutoConfirmLevel,
    /// Compute and report, but never delete.
    pub dry_run: bool,
}

impl Default for Options {
    /// Defaults to the current directory (left for the caller to fill in),
    /// the default confirmation level, and a real (non-dry) run.
    fn default() -> (r: Self)
        ensures
            r.dir@ == Seq::<char>::empty(),
            r.auto_confirm_level is Ambiguities,
            !r.dry_run,
    {
        Options {
            dir: String::new(),
            auto_confirm_level: AutoConfirmLevel::Ambiguities,
            dry_run: false,
        }
    }
}

} // verus!

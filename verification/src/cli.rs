//! What the command line and `GIT_MEDIATE_OPTIONS` ask of a run: the
//! resolution flags, the colour flags, and the diff context.
use vstd::prelude::*;

use crate::mediate::ColorChoice;
use crate::resolve::ResolveOptions;

verus! {

/// The resolution flags of a command line: each option can be turned on,
/// and most can be turned off.
#[derive(Debug, Clone, Copy)]
pub struct ResolutionCliArgs {
    pub context: Option<usize>,
    pub untabify: Option<usize>,
    pub trivial: bool,
    pub no_trivial: bool,
    pub reduce: bool,
    pub no_reduce: bool,
    pub line_endings: bool,
    pub no_line_endings: bool,
    pub lines_added_around: bool,
    pub reduce_deleted: bool,
    pub split_markers: bool,
    pub no_split_markers: bool,
    pub indentation: bool,
    pub no_indentation: bool,
}

/// No flag given.
pub open spec fn no_flags() -> ResolutionCliArgs {
    ResolutionCliArgs {
        context: None,
        untabify: None,
        trivial: false,
        no_trivial: false,
        reduce: false,
        no_reduce: false,
        line_endings: false,
        no_line_endings: false,
        lines_added_around: false,
        reduce_deleted: false,
        split_markers: false,
        no_split_markers: false,
        indentation: false,
        no_indentation: false,
    }
}

impl Default for ResolutionCliArgs {
    fn default() -> (r: Self)
        ensures
            r == no_flags(),
    {
        ResolutionCliArgs {
            context: None,
            untabify: None,
            trivial: false,
            no_trivial: false,
            reduce: false,
            no_reduce: false,
            line_endings: false,
            no_line_endings: false,
            lines_added_around: false,
            reduce_deleted: false,
            split_markers: false,
            no_split_markers: false,
            indentation: false,
            no_indentation: false,
        }
    }
}

/// An option after its pair of flags: off when turned off, else on when
/// turned on, else as it was.
pub open spec fn flag_pair(on: bool, off: bool, current: bool) -> bool {
    if off {
        false
    } else if on {
        true
    } else {
        current
    }
}

/// The options with the flags applied.
pub open spec fn apply_spec(a: ResolutionCliArgs, o: ResolveOptions) -> ResolveOptions {
    ResolveOptions {
        trivial: flag_pair(a.trivial, a.no_trivial, o.trivial),
        reduce: flag_pair(a.reduce, a.no_reduce, o.reduce),
        untabify: if a.untabify is Some {
            a.untabify
        } else {
            o.untabify
        },
        line_endings: flag_pair(a.line_endings, a.no_line_endings, o.line_endings),
        lines_added_around: a.lines_added_around || o.lines_added_around,
        reduce_deleted: a.reduce_deleted || o.reduce_deleted,
        split_markers: flag_pair(a.split_markers, a.no_split_markers, o.split_markers),
        indentation: flag_pair(a.indentation, a.no_indentation, o.indentation),
    }
}

fn pick_flag(on: bool, off: bool, current: bool) -> (r: bool)
    ensures
        r == flag_pair(on, off, current),
{
    if off {
        false
    } else if on {
        true
    } else {
        current
    }
}

impl ResolutionCliArgs {
    /// The options with these flags applied: a flag that turns an option
    /// off wins over the one that turns it on; options without a flag
    /// keep their value.
    pub fn apply(&self, options: ResolveOptions) -> (r: ResolveOptions)
        ensures
            r == apply_spec(*self, options),
    {
        ResolveOptions {
            trivial: pick_flag(self.trivial, self.no_trivial, options.trivial),
            reduce: pick_flag(self.reduce, self.no_reduce, options.reduce),
            untabify: match self.untabify {
                Some(tabsize) => Some(tabsize),
                None => options.untabify,
            },
            line_endings: pick_flag(self.line_endings, self.no_line_endings, options.line_endings),
            lines_added_around: self.lines_added_around || options.lines_added_around,
            reduce_deleted: self.reduce_deleted || options.reduce_deleted,
            split_markers: pick_flag(self.split_markers, self.no_split_markers, options.split_markers),
            indentation: pick_flag(self.indentation, self.no_indentation, options.indentation),
        }
    }
}

/// Flags given on the command line win over those from the environment:
/// whatever options the environment's flags produced, an option that the
/// command line turns on or off ends up as the command line says.
pub proof fn law_command_line_wins(cli: ResolutionCliArgs, env: ResolutionCliArgs, o: ResolveOptions)
    ensures
        ({
            let r = apply_spec(cli, apply_spec(env, o));
            &&& (cli.trivial || cli.no_trivial) ==> r.trivial == !cli.no_trivial
            &&& (cli.reduce || cli.no_reduce) ==> r.reduce == !cli.no_reduce
            &&& cli.untabify is Some ==> r.untabify == cli.untabify
            &&& (cli.line_endings || cli.no_line_endings) ==> r.line_endings == !cli.no_line_endings
            &&& cli.lines_added_around ==> r.lines_added_around
            &&& cli.reduce_deleted ==> r.reduce_deleted
            &&& (cli.split_markers || cli.no_split_markers) ==> r.split_markers == !cli.no_split_markers
            &&& (cli.indentation || cli.no_indentation) ==> r.indentation == !cli.no_indentation
        }),
{
}

/// Applying the same flags twice changes nothing more than applying them
/// once.
pub proof fn law_apply_idempotent(a: ResolutionCliArgs, o: ResolveOptions)
    ensures
        apply_spec(a, apply_spec(a, o)) == apply_spec(a, o),
{
}

/// The colour choice of the flags: forced on wins over forced off, and
/// neither leaves it to the terminal.
pub fn color_choice_of(color: bool, no_color: bool) -> (r: ColorChoice)
    ensures
        r == (if color {
            ColorChoice::Always
        } else if no_color {
            ColorChoice::Never
        } else {
            ColorChoice::Auto
        }),
{
    if color {
        ColorChoice::Always
    } else if no_color {
        ColorChoice::Never
    } else {
        ColorChoice::Auto
    }
}

/// The lines of context in diffs: from the command line, else from the
/// environment, else three.
pub fn context_lines(cli: Option<usize>, env: Option<usize>) -> (r: usize)
    ensures
        r == match cli {
            Some(n) => n,
            None => match env {
                Some(n) => n,
                None => 3,
            },
        },
{
    match cli {
        Some(n) => n,
        None => match env {
            Some(n) => n,
            None => 3,
        },
    }
}

} // verus!

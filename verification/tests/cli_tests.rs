use git_mediate::cli::{color_choice_of, context_lines, ResolutionCliArgs};
use git_mediate::mediate::ColorChoice;
use git_mediate::resolve::ResolveOptions;

#[test]
fn no_flags_keep_the_options() {
    let o = ResolveOptions::default();
    assert_eq!(ResolutionCliArgs::default().apply(o.clone()), o);
}

#[test]
fn negative_flag_wins() {
    let args = ResolutionCliArgs {
        trivial: true,
        no_trivial: true,
        indentation: true,
        untabify: Some(8),
        reduce_deleted: true,
        ..ResolutionCliArgs::default()
    };
    let o = args.apply(ResolveOptions::default());
    assert!(!o.trivial);
    assert!(o.indentation);
    assert_eq!(o.untabify, Some(8));
    assert!(o.reduce_deleted);
    assert!(o.reduce);
}

#[test]
fn command_line_wins_over_environment() {
    let env = ResolutionCliArgs {
        no_reduce: true,
        indentation: true,
        ..ResolutionCliArgs::default()
    };
    let cli = ResolutionCliArgs {
        reduce: true,
        no_indentation: true,
        ..ResolutionCliArgs::default()
    };
    let o = cli.apply(env.apply(ResolveOptions::default()));
    assert!(o.reduce);
    assert!(!o.indentation);
    let twice = cli.apply(cli.apply(ResolveOptions::default()));
    assert_eq!(twice, cli.apply(ResolveOptions::default()));
}

#[test]
fn color_flags() {
    assert_eq!(color_choice_of(true, true), ColorChoice::Always);
    assert_eq!(color_choice_of(false, true), ColorChoice::Never);
    assert_eq!(color_choice_of(false, false), ColorChoice::Auto);
    assert!(ColorChoice::Always.enabled(false));
    assert!(!ColorChoice::Never.enabled(true));
    assert!(ColorChoice::Auto.enabled(true));
    assert!(!ColorChoice::Auto.enabled(false));
    assert_eq!(ColorChoice::default(), ColorChoice::Auto);
}

#[test]
fn context_precedence() {
    assert_eq!(context_lines(Some(1), Some(5)), 1);
    assert_eq!(context_lines(None, Some(5)), 5);
    assert_eq!(context_lines(None, None), 3);
}

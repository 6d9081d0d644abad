use mdbash::add_tutorial;
use mdbash::directive_path;
use mdbash::BashTutorial;
use mdbash::script::parse;
use mdbash::script::Step;

#[test]
fn round_trip() {
    let script = parse("#!/bin/bash\n# Test\necho \"test\"\n");
    assert_eq!(script.shebang, Some("#!/bin/bash\n"));
    assert_eq!(script.steps.len(), 1);
    assert_eq!(script.steps[0].comments, vec!["# Test\n"]);
    assert_eq!(script.steps[0].code, vec!["echo \"test\"\n"]);
    assert_eq!(script.render(), "1. Test\t```bash\n\techo \"test\"\n\t```\n");
}

#[test]
fn shebang_is_exact_first_line() {
    let script = parse("#!/bin/sh -e\n# a\nx\n");
    assert_eq!(script.shebang, Some("#!/bin/sh -e\n"));
}

#[test]
fn steps_same_with_or_without_shebang() {
    let with = parse("#!/bin/sh\n# a\nx\n");
    let without = parse("# a\nx\n");
    assert_eq!(without.shebang, None);
    assert_eq!(with.steps.len(), without.steps.len());
    for (a, b) in with.steps.iter().zip(without.steps.iter()) {
        assert_eq!(a.comments, b.comments);
        assert_eq!(a.code, b.code);
    }
}

#[test]
fn first_line_not_consumed_without_shebang() {
    let script = parse("# a\nx\n");
    assert_eq!(script.shebang, None);
    assert_eq!(script.steps.len(), 1);
    assert_eq!(script.steps[0].comments, vec!["# a\n"]);
}

#[test]
fn blank_lines_contribute_to_no_step() {
    let script = parse("# a\n\n\ncode\n\n");
    assert_eq!(script.steps.len(), 1);
    assert_eq!(script.steps[0].comments, vec!["# a\n"]);
    assert_eq!(script.steps[0].code, vec!["code\n"]);
}

#[test]
fn crlf_blank_line_is_blank() {
    let script = parse("# a\n\r\ncode\n");
    assert_eq!(script.steps.len(), 1);
    assert_eq!(script.steps[0].code, vec!["code\n"]);
}

#[test]
fn blank_lines_cause_no_boundary() {
    let plain = parse("# a\ncode\n");
    let spaced = parse("\n# a\n\ncode\n\n");
    assert_eq!(plain.steps.len(), spaced.steps.len());
    assert_eq!(plain.steps[0].comments, spaced.steps[0].comments);
    assert_eq!(plain.steps[0].code, spaced.steps[0].code);
}

#[test]
fn skip_marker_comment_is_dropped() {
    let script = parse("# keep\n# drop # mdbash: skip-line\ncode\n");
    assert_eq!(script.steps.len(), 1);
    assert_eq!(script.steps[0].comments, vec!["# keep\n"]);
    assert_eq!(script.steps[0].code, vec!["code\n"]);
}

#[test]
fn skip_marker_line_alone_is_dropped() {
    let script = parse("# a\n# mdbash: skip-line\nx\n");
    assert_eq!(script.steps.len(), 1);
    assert_eq!(script.steps[0].comments, vec!["# a\n"]);
    assert_eq!(script.steps[0].code, vec!["x\n"]);
}

#[test]
fn skip_marker_on_code_line_is_kept() {
    let script = parse("# c\nfoo # mdbash: skip-line\n");
    assert_eq!(script.steps.len(), 1);
    assert_eq!(script.steps[0].code, vec!["foo # mdbash: skip-line\n"]);
}

#[test]
fn skip_marker_comment_causes_no_boundary() {
    let with = parse("# a\n# x # mdbash: skip-line\n# b\n");
    let without = parse("# a\n# b\n");
    assert_eq!(with.steps.len(), without.steps.len());
    for (a, b) in with.steps.iter().zip(without.steps.iter()) {
        assert_eq!(a.comments, b.comments);
        assert_eq!(a.code, b.code);
    }
}

#[test]
fn adjacent_comment_blocks_split() {
    let script = parse("# a\n# b\n");
    assert_eq!(script.steps.len(), 2);
    assert_eq!(script.steps[0].comments, vec!["# a\n"]);
    assert!(script.steps[0].code.is_empty());
    assert_eq!(script.steps[1].comments, vec!["# b\n"]);
    assert!(script.steps[1].code.is_empty());
}

#[test]
fn comment_after_code_joins_the_step() {
    let script = parse("# a\ncode\n# b\nmore\n");
    assert_eq!(script.steps.len(), 1);
    assert_eq!(script.steps[0].comments, vec!["# a\n", "# b\n"]);
    assert_eq!(script.steps[0].code, vec!["code\n", "more\n"]);
}

#[test]
fn comment_boundary_only_before_code() {
    let script = parse("# a\n# b\nx\n# c\n");
    assert_eq!(script.steps.len(), 2);
    assert_eq!(script.steps[0].comments, vec!["# a\n"]);
    assert!(script.steps[0].code.is_empty());
    assert_eq!(script.steps[1].comments, vec!["# b\n", "# c\n"]);
    assert_eq!(script.steps[1].code, vec!["x\n"]);
}

#[test]
fn no_comments_no_steps() {
    let script = parse("x\ny\n");
    assert_eq!(script.shebang, None);
    assert_eq!(script.steps.len(), 0);
    assert_eq!(script.render(), "");
}

#[test]
fn empty_input() {
    let script = parse("");
    assert_eq!(script.shebang, None);
    assert_eq!(script.steps.len(), 0);
    assert_eq!(script.render(), "");
}

#[test]
fn code_without_terminator_kept_verbatim() {
    let script = parse("# a\ncode");
    assert_eq!(script.steps[0].code, vec!["code"]);
    assert_eq!(script.render(), "1. a\t```bash\n\tcode\t```\n");
}

#[test]
fn code_lines_joined_by_tabs() {
    let script = parse("# c\na\nb\n");
    assert_eq!(script.render(), "1. c\t```bash\n\ta\n\tb\n\t```\n");
}

#[test]
fn comment_markers_and_leading_space_stripped() {
    let step = Step { comments: vec!["##   hello  \n"], code: vec![], format: "bash" };
    assert_eq!(step.render(), "1. hello  \t```bash\n\t\t```\n");
}

#[test]
fn multiple_comment_lines_collapse_without_separator() {
    let step = Step { comments: vec!["# one\n", "# two\n"], code: vec!["x\n"], format: "bash" };
    assert_eq!(step.render(), "1. onetwo\t```bash\n\tx\n\t```\n");
}

#[test]
fn crlf_lines() {
    let script = parse("# a\r\ncode\r\n");
    assert_eq!(script.steps.len(), 1);
    assert_eq!(script.steps[0].comments, vec!["# a\r\n"]);
    assert_eq!(script.steps[0].code, vec!["code\r\n"]);
    assert_eq!(script.render(), "1. a\t```bash\n\tcode\r\n\t```\n");
}

#[test]
fn rendering_twice_is_identical() {
    let script = parse("#!/bin/sh\n# a\nx\ny\n# b\n");
    let first = script.render();
    let second = script.render();
    assert_eq!(first, second);
}

#[test]
fn directive_path_extracts_target() {
    assert_eq!(directive_path("{{#tutorial data/test.sh}}"), Some("data/test.sh"));
    assert_eq!(directive_path("plain text"), None);
    assert_eq!(directive_path("{{#tutorial a}} trailing"), None);
    assert_eq!(directive_path(" {{#tutorial a}}"), None);
}

#[test]
fn directive_path_trims_repeats() {
    assert_eq!(directive_path("{{#tutorial x}}}}"), Some("x"));
    assert_eq!(directive_path("{{#tutorial {{#tutorial x}}"), Some("x"));
}

#[test]
fn unknown_directive_path_passes_through() {
    let content = "before\n{{#tutorial data/none.sh}}\nafter";
    let out = add_tutorial(content, &vec![]);
    assert_eq!(out, "before\n{{#tutorial data/none.sh}}\nafter");
}

#[test]
fn directive_replaced_by_rendered_script() {
    let scripts = vec![(
        String::from("data/test.sh"),
        String::from("#!/bin/bash\n# Test\necho \"test\"\n"),
    )];
    let out = add_tutorial("{{#tutorial data/test.sh}}\n", &scripts);
    assert_eq!(out, "1. Test\t```bash\n\techo \"test\"\n\t```\n");
}

#[test]
fn other_lines_pass_through_around_directive() {
    let scripts = vec![(String::from("s.sh"), String::from("# a\nx\n"))];
    let out = add_tutorial("intro\n{{#tutorial s.sh}}\noutro", &scripts);
    assert_eq!(out, "intro\n1. a\t```bash\n\tx\n\t```\n\noutro");
}

#[test]
fn preprocessor_constructs() {
    let _p = BashTutorial::new();
    let out = add_tutorial("nothing here", &vec![]);
    assert_eq!(out, "nothing here");
}

#[test]
fn step_count_matches_comment_runs() {
    assert_eq!(parse("# a\n# b\n# c\n").steps.len(), 3);
    assert_eq!(parse("# a\nx\n").steps.len(), 1);
    assert_eq!(parse("x\ny\n").steps.len(), 0);
    assert_eq!(parse("# a\n# b\nx\n").steps.len(), 2);
}

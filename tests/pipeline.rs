use holo_cli::chain::FilterChain;
use holo_cli::filter::{decimal_bytes, Builtin};
use holo_cli::output::FilterWriter;
use holo_cli::plan::{plan_pipeline, teardown_steps, Teardown, TeardownStep, UnitPlan};
use holo_cli::pipe::{default_registry, PipeAction, PipeError, PipeRegistry};
use holo_cli::terminal::{complete_pipe, CliPrompt};

fn words(v: &[&str]) -> Vec<String> {
    v.iter().map(|s| s.to_string()).collect()
}

fn run_chain(stages: &[(Builtin, &[&str])], chunks: &[&str]) -> String {
    let mut chain = FilterChain::new();
    for (rule, args) in stages {
        chain.push_stage(*rule, &words(args));
    }
    let mut out = Vec::new();
    for c in chunks {
        assert!(chain.has_room(c.len()));
        out.extend(chain.write(c.as_bytes()));
    }
    out.extend(chain.finish());
    String::from_utf8(out).unwrap()
}

fn run_stage(rule: Builtin, args: &[&str], input: &str) -> String {
    run_chain(&[(rule, args)], &[input])
}

#[test]
fn scenario_include_then_count() {
    let out = run_chain(
        &[(Builtin::Include, &["error"]), (Builtin::Count, &[])],
        &["foo\nerror: bad\nbar\nerror: worse\n"],
    );
    assert_eq!(out, "2\n");
}

#[test]
fn scenario_exclude_debug() {
    let out = run_stage(Builtin::Exclude, &["DEBUG"], "DEBUG x\nINFO y\nDEBUG z\n");
    assert_eq!(out, "INFO y\n");
}

#[test]
fn scenario_begin_start() {
    let out = run_stage(Builtin::Begin, &["START"], "a\nSTART\nb\nc\n");
    assert_eq!(out, "START\nb\nc\n");
}

#[test]
fn begin_without_match_is_empty() {
    assert_eq!(run_stage(Builtin::Begin, &["START"], "a\nb\n"), "");
}

#[test]
fn ambiguous_prefix_lists_both_names() {
    let reg = PipeRegistry::new()
        .builtin("include", "keep", &["pattern"], Builtin::Include)
        .builtin("increment", "other", &[], Builtin::Count)
        .build();
    match reg.find("inc") {
        Err(PipeError::Ambiguous(name, names)) => {
            assert_eq!(name, "inc");
            assert_eq!(names, vec!["include".to_string(), "increment".to_string()]);
        }
        other => panic!("unexpected {:?}", other),
    }
    assert!(matches!(reg.find("incl"), Ok(0)));
    assert!(matches!(reg.find("incr"), Ok(1)));
}

#[test]
fn exact_name_wins_over_longer_names() {
    let reg = PipeRegistry::new()
        .builtin("count", "a", &[], Builtin::Count)
        .builtin("counter", "b", &[], Builtin::Count)
        .build();
    assert!(matches!(reg.find("count"), Ok(0)));
    assert!(matches!(reg.find("coun"), Err(PipeError::Ambiguous(_, _))));
}

#[test]
fn unknown_name_is_not_found() {
    let reg = default_registry();
    match reg.find("zzz") {
        Err(PipeError::NotFound(n)) => assert_eq!(n, "zzz"),
        other => panic!("unexpected {:?}", other),
    }
}

#[test]
fn teardown_waits_for_pager_last() {
    let mut t = Teardown::new(0, 3, true);
    let mut seen = Vec::new();
    while let Some(step) = t.next_step() {
        seen.push(step);
        t.record(Ok(()));
    }
    assert_eq!(
        seen,
        vec![
            TeardownStep::CloseEntry,
            TeardownStep::Join(0),
            TeardownStep::Join(1),
            TeardownStep::Join(2),
            TeardownStep::WaitPager,
        ]
    );
    assert!(t.result().is_ok());
}

#[test]
fn teardown_keeps_first_error() {
    let mut t = Teardown::new(0, 2, false);
    t.record(Ok(()));
    t.record(Err("broken pipe".to_string()));
    t.record(Err("later".to_string()));
    assert_eq!(t.next_step(), None);
    assert_eq!(t.result(), Err("broken pipe".to_string()));
}

#[test]
fn rollback_tears_down_only_built_units() {
    assert_eq!(
        teardown_steps(2, 4, true),
        vec![
            TeardownStep::CloseEntry,
            TeardownStep::Join(2),
            TeardownStep::Join(3),
            TeardownStep::WaitPager,
        ]
    );
    assert_eq!(teardown_steps(0, 0, false), vec![TeardownStep::CloseEntry]);
}

#[test]
fn composition_matches_stage_by_stage() {
    let input = "alpha one\nbeta two\nalpha three\ngamma\nalpha beta\n";
    let whole = run_chain(
        &[(Builtin::Include, &["alpha"]), (Builtin::Exclude, &["beta"]), (Builtin::Count, &[])],
        &["alpha o", "ne\nbeta two\nal", "pha three\ngamma\nalpha beta\n"],
    );
    let s1 = run_stage(Builtin::Include, &["alpha"], input);
    let s2 = run_stage(Builtin::Exclude, &["beta"], &s1);
    let s3 = run_stage(Builtin::Count, &[], &s2);
    assert_eq!(s1, "alpha one\nalpha three\nalpha beta\n");
    assert_eq!(s2, "alpha one\nalpha three\n");
    assert_eq!(whole, s3);
    assert_eq!(whole, "2\n");
}

#[test]
fn include_then_exclude_same_pattern_is_empty() {
    let out = run_chain(
        &[(Builtin::Include, &["A"]), (Builtin::Exclude, &["A"])],
        &["A1\nB\nxAx\n\nlast A"],
    );
    assert_eq!(out, "");
}

#[test]
fn include_empty_pattern_passes_every_line() {
    assert_eq!(run_stage(Builtin::Include, &[""], "a\n\nb c\n"), "a\n\nb c\n");
    let mut w = FilterWriter::new(String::new(), true);
    let mut out = w.feed(b"x\r\n\ny");
    out.extend(w.finish());
    assert_eq!(out, b"x\r\n\ny".to_vec());
}

#[test]
fn stage_ends_every_kept_line_with_a_line_feed() {
    assert_eq!(run_stage(Builtin::Include, &[""], "x\ny"), "x\ny\n");
    assert_eq!(run_stage(Builtin::Include, &["a"], "a\r\nb\r\nca"), "a\nca\n");
    assert_eq!(run_stage(Builtin::Exclude, &["b"], "a\r\nb\r\n"), "a\n");
    assert_eq!(run_stage(Builtin::Begin, &["S"], "x\r\nS\r\ny\r\n"), "S\ny\n");
    assert_eq!(run_stage(Builtin::Count, &[], "a\r\nb\r\n"), "2\n");
}

#[test]
fn zero_stages_pass_bytes_unchanged() {
    let mut chain = FilterChain::new();
    assert_eq!(chain.write(b"raw \x01 bytes"), b"raw \x01 bytes".to_vec());
    assert_eq!(chain.write(b"no newline"), b"no newline".to_vec());
    assert_eq!(chain.finish(), Vec::<u8>::new());
}

#[test]
fn no_data_run_ends_cleanly() {
    assert_eq!(run_chain(&[(Builtin::Count, &[])], &[]), "0\n");
    assert_eq!(run_chain(&[(Builtin::Include, &["x"]), (Builtin::Begin, &["y"])], &[]), "");
    let mut t = Teardown::new(0, 2, true);
    let mut n = 0;
    while t.next_step().is_some() {
        t.record(Ok(()));
        n += 1;
    }
    assert_eq!(n, 4);
}

#[test]
fn count_counts_unterminated_last_line() {
    assert_eq!(run_stage(Builtin::Count, &[], "a\nb"), "2\n");
    assert_eq!(run_stage(Builtin::Count, &[], "a\nb\n"), "2\n");
    assert_eq!(run_stage(Builtin::Count, &[], ""), "0\n");
    assert_eq!(run_stage(Builtin::Count, &[], "\n\n\n"), "3\n");
}

#[test]
fn no_more_copies_bytes() {
    assert_eq!(run_stage(Builtin::NoMore, &[], "a\nb"), "a\nb");
}

#[test]
fn filter_writer_releases_complete_lines() {
    let mut w = FilterWriter::new("error".to_string(), true);
    assert_eq!(w.feed(b"er"), Vec::<u8>::new());
    assert_eq!(w.feed(b"ror one\nfo"), b"error one\n".to_vec());
    assert_eq!(w.feed(b"o\nlast error"), Vec::<u8>::new());
    assert_eq!(w.finish(), b"last error".to_vec());
    let mut x = FilterWriter::new("error".to_string(), false);
    assert_eq!(x.feed(b"error\r\nok\r\n"), b"ok\r\n".to_vec());
    assert_eq!(x.finish(), Vec::<u8>::new());
}

#[test]
fn decimal_digits() {
    assert_eq!(decimal_bytes(0), b"0".to_vec());
    assert_eq!(decimal_bytes(1234), b"1234".to_vec());
    assert_eq!(decimal_bytes(u64::MAX), u64::MAX.to_string().into_bytes());
}

#[test]
fn wrong_argument_count() {
    let reg = default_registry();
    match reg.parse_pipe("include") {
        Err(PipeError::WrongArgCount { command, expected, got }) => {
            assert_eq!(command, "include");
            assert_eq!(expected, 1);
            assert_eq!(got, 0);
        }
        other => panic!("unexpected {:?}", other.err()),
    }
    assert!(matches!(
        reg.parse_pipe("count extra"),
        Err(PipeError::WrongArgCount { expected: 0, got: 1, .. })
    ));
    assert!(matches!(reg.parse_pipe("grep"), Err(PipeError::WrongArgCount { .. })));
}

#[test]
fn parse_prefix_and_arguments() {
    let reg = default_registry();
    let p = reg.parse_pipe("  inc   error ").unwrap();
    assert_eq!(p.command_idx, 0);
    assert_eq!(p.args, words(&["error"]));
    let g = reg.parse_pipe("grep -i -v foo").unwrap();
    assert_eq!(g.command_idx, 2);
    assert_eq!(g.args, words(&["-i", "-v", "foo"]));
    assert!(matches!(reg.parse_pipe(""), Err(PipeError::Ambiguous(_, _))));
}

#[test]
fn parse_line_splits_and_checks() {
    let reg = default_registry();
    let (base, pipes) = reg.parse_line("show state | include up | count", true).unwrap();
    assert_eq!(base, "show state");
    assert_eq!(pipes.len(), 2);
    assert_eq!(pipes[0].command_idx, 0);
    assert_eq!(pipes[1].command_idx, 3);
    assert!(matches!(reg.parse_line("show state | count", false), Err(PipeError::NotAllowed)));
    let (b2, p2) = reg.parse_line(" configure ", false).unwrap();
    assert_eq!(b2, "configure");
    assert!(p2.is_empty());
    assert!(matches!(reg.parse_line("x | bogus | zzz", true), Err(PipeError::NotFound(n)) if n == "bogus"));
}

#[test]
fn split_on_pipes_trims_each_part() {
    let (base, pipes) = holo_cli::text::split_on_pipes("  show x |  include foo | count ");
    assert_eq!(base, "show x");
    assert_eq!(pipes, words(&["include foo", "count"]));
    let (b, p) = holo_cli::text::split_on_pipes("\u{3000}show\t");
    assert_eq!(b, "show");
    assert!(p.is_empty());
    let (b3, p3) = holo_cli::text::split_on_pipes("a||");
    assert_eq!(b3, "a");
    assert_eq!(p3, words(&["", ""]));
}

#[test]
fn split_words_on_white_space() {
    assert_eq!(holo_cli::text::split_words("  a  bc\u{a0}d "), words(&["a", "bc", "d"]));
    assert!(holo_cli::text::split_words(" \t ").is_empty());
}

#[test]
fn default_registry_order() {
    let reg = default_registry();
    let names: Vec<&str> = reg.commands().iter().map(|c| c.name.as_str()).collect();
    assert_eq!(reg.commands()[2].args, words(&["args"]));
    assert_eq!(reg.commands()[4].args, words(&["pattern"]));
    assert_eq!(reg.commands()[3].help, "Count output lines");
    assert_eq!(names, vec!["include", "exclude", "grep", "count", "begin", "no-more"]);
    assert!(matches!(reg.commands()[2].action, PipeAction::External { .. }));
    assert!(reg.contains_name("begin"));
    assert!(!reg.contains_name("beg"));
}

#[test]
fn plan_runs_no_more_and_turns_pager_off() {
    let reg = default_registry();
    let pipes = reg
        .parse_pipes(&words(&["include x", "no-more", "grep -v y"]))
        .unwrap();
    let plan = plan_pipeline(&reg, &pipes, true);
    assert!(!plan.pager);
    assert_eq!(plan.units.len(), 3);
    assert!(matches!(&plan.units[1], UnitPlan::Task { rule: Builtin::NoMore, args } if args.is_empty()));
    match &plan.units[0] {
        UnitPlan::Task { rule, args } => {
            assert_eq!(*rule, Builtin::Include);
            assert_eq!(args, &words(&["x"]));
        }
        _ => panic!("expected a task"),
    }
    match &plan.units[2] {
        UnitPlan::Process { binary, args } => {
            assert_eq!(binary, "grep");
            assert_eq!(args, &words(&["-v", "y"]));
        }
        _ => panic!("expected a process"),
    }
    let plain = plan_pipeline(&reg, &reg.parse_pipes(&words(&["count"])).unwrap(), true);
    assert!(plain.pager);
    let none = plan_pipeline(&reg, &Vec::new(), false);
    assert!(!none.pager);
    assert!(none.units.is_empty());
}

#[test]
fn external_fixed_arguments_come_first() {
    let reg = PipeRegistry::new()
        .external("sortit", "sort", &["args"], "sort", &["-k"])
        .build();
    let pipes = reg.parse_pipes(&words(&["sortit 2"])).unwrap();
    let plan = plan_pipeline(&reg, &pipes, false);
    match &plan.units[0] {
        UnitPlan::Process { binary, args } => {
            assert_eq!(binary, "sort");
            assert_eq!(args, &words(&["-k", "2"]));
        }
        _ => panic!("expected a process"),
    }
}

#[test]
fn completes_stage_names_by_prefix() {
    let reg = default_registry();
    let line = "show state | inc";
    let s = complete_pipe(&reg, " inc".trim_start(), line.len());
    assert_eq!(s.len(), 1);
    assert_eq!(s[0].value, "include");
    assert_eq!(s[0].description.as_deref(), Some("Keep only lines matching PATTERN"));
    assert_eq!(s[0].start, line.len() - 3);
    assert_eq!(s[0].end, line.len());
    let all = complete_pipe(&reg, "", 10);
    let names: Vec<String> = all.iter().map(|x| x.value.clone()).collect();
    assert_eq!(names, words(&["include", "exclude", "grep", "count", "begin", "no-more"]));
    assert!(all.iter().all(|x| x.start == 10 && x.end == 10));
}

#[test]
fn completes_missing_argument_names_in_upper_case() {
    let reg = default_registry();
    let s = complete_pipe(&reg, "include ", 20);
    assert_eq!(s.len(), 1);
    assert_eq!(s[0].value, "PATTERN");
    assert_eq!(s[0].start, 20);
    assert!(complete_pipe(&reg, "include foo ", 20).is_empty());
    assert!(complete_pipe(&reg, "count ", 20).is_empty());
    let spaced = complete_pipe(&reg, "  ", 0);
    assert_eq!(spaced.len(), 6);
    assert!(spaced.iter().all(|x| x.start == 0 && x.end == 0));
    let partial = complete_pipe(&reg, "count", 20);
    assert_eq!(partial.len(), 1);
    assert_eq!(partial[0].value, "count");
    assert_eq!(partial[0].start, 15);
}

#[test]
fn prompt_text_and_indicators() {
    let mut p = CliPrompt::new("router".to_string());
    assert_eq!(p.render_prompt_left(), "router");
    p.update("router(config)".to_string());
    assert_eq!(p.render_prompt_left(), "router(config)");
    assert_eq!(p.render_prompt_indicator(), "# ");
    assert_eq!(p.render_prompt_multiline_indicator(), "::: ");
    assert_eq!(p.render_prompt_right(), "");
}

#[test]
fn history_search_indicator_text() {
    let p = CliPrompt::new("r".to_string());
    assert_eq!(p.render_prompt_history_search_indicator(false, "show"), "(reverse-search: show) ");
    assert_eq!(p.render_prompt_history_search_indicator(true, "x"), "(failing reverse-search: x) ");
}

#[test]
fn chain_passes_lines_on_as_they_end() {
    let mut chain = FilterChain::new();
    chain.push_stage(Builtin::Include, &words(&["err"]));
    chain.push_stage(Builtin::Exclude, &words(&["skip"]));
    assert_eq!(chain.write(b"err one\nerr skip\nok\nerr t"), b"err one\n".to_vec());
    assert_eq!(chain.write(b"wo\n"), b"err two\n".to_vec());
    assert_eq!(chain.write(b"err three"), Vec::<u8>::new());
    assert_eq!(chain.finish(), b"err three\n".to_vec());
}

#[test]
fn every_error_variant_has_an_input() {
    let reg = default_registry();
    assert!(matches!(reg.parse_pipe("nothing"), Err(PipeError::NotFound(_))));
    assert!(matches!(reg.parse_pipe(" "), Err(PipeError::Ambiguous(_, _))));
    assert!(matches!(reg.parse_pipe("e x"), Ok(p) if p.command_idx == 1));
    assert!(matches!(reg.parse_pipe("c"), Ok(p) if p.command_idx == 3));
    assert!(matches!(reg.parse_line("a | b", false), Err(PipeError::NotAllowed)));
    assert!(matches!(reg.parse_pipe("count 1"), Err(PipeError::WrongArgCount { .. })));
}

#[test]
fn include_then_exclude_of_a_carriage_return_pattern() {
    let out = run_chain(
        &[(Builtin::Include, &["\r"]), (Builtin::Exclude, &["\r"])],
        &["x\r"],
    );
    assert_eq!(out, "x\n");
}

#[test]
fn zero_stages_take_any_length() {
    let mut chain = FilterChain::new();
    assert!(chain.has_room(usize::MAX));
    assert_eq!(chain.write(b"a\r\nb"), b"a\r\nb".to_vec());
    assert_eq!(chain.finish(), Vec::<u8>::new());
}

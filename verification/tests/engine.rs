use hanumail::engine::reformat;
use hanumail::quote::parse_line;
use hanumail::wrap::{do_wrap, wrap, LINE_LENGTH};

#[test]
fn parse_line_counts_markers_and_trims() {
    assert_eq!(parse_line("> > hello  "), (2, "hello".to_string()));
    assert_eq!(parse_line(">>hello"), (2, "hello".to_string()));
    assert_eq!(parse_line("  >  > x > y"), (2, "x > y".to_string()));
    assert_eq!(parse_line("plain text"), (0, "plain text".to_string()));
}

#[test]
fn parse_line_of_blank_lines() {
    assert_eq!(parse_line(""), (0, String::new()));
    assert_eq!(parse_line("   "), (0, String::new()));
    assert_eq!(parse_line(">>>"), (3, String::new()));
    assert_eq!(parse_line("> > \t "), (2, String::new()));
    assert_eq!(parse_line("\u{a0}"), (0, String::new()));
}

#[test]
fn parse_line_stops_at_first_other_character() {
    assert_eq!(parse_line("> a > b"), (1, "a > b".to_string()));
    assert_eq!(parse_line("\t> a"), (0, "> a".to_string()));
}

#[test]
fn wrap_empty_content_gives_the_markers_alone() {
    assert_eq!(wrap("", 0, 78), vec![String::new()]);
    assert_eq!(wrap("", 1, 78), vec![">".to_string()]);
    assert_eq!(wrap("   ", 3, 78), vec!["> > >".to_string()]);
}

#[test]
fn wrap_packs_greedily() {
    let content = vec!["aaaa"; 20].join(" ");
    let lines = wrap(&content, 0, 78);
    assert_eq!(lines, vec![vec!["aaaa"; 15].join(" "), vec!["aaaa"; 5].join(" ")]);
    assert_eq!(lines[0].len(), 74);
}

#[test]
fn wrap_fills_a_line_to_the_budget_exactly() {
    let content = format!("{} {}", "b".repeat(8), vec!["aaaa"; 15].join(" "));
    let lines = wrap(&content, 0, 78);
    assert_eq!(lines.len(), 2);
    assert_eq!(lines[0].len(), 78);
    assert_eq!(lines[0], format!("{} {}", "b".repeat(8), vec!["aaaa"; 14].join(" ")));
    assert_eq!(lines[1], "aaaa");
}

#[test]
fn wrap_counts_the_markers_in_the_budget() {
    let content = vec!["aaaa"; 20].join(" ");
    let lines = wrap(&content, 2, 78);
    assert_eq!(lines.len(), 2);
    assert_eq!(lines[0], format!("> > {}", vec!["aaaa"; 15].join(" ")));
    assert_eq!(lines[0].len(), 78);
    assert_eq!(lines[1], format!("> > {}", vec!["aaaa"; 5].join(" ")));
    let deeper = wrap(&content, 3, 78);
    assert_eq!(deeper[0], format!("> > > {}", vec!["aaaa"; 14].join(" ")));
    assert_eq!(deeper[1], format!("> > > {}", vec!["aaaa"; 6].join(" ")));
}

#[test]
fn wrap_lets_a_long_word_stand_alone() {
    let long = "x".repeat(100);
    let content = format!("ab {} cd", long);
    assert_eq!(
        wrap(&content, 1, 78),
        vec!["> ab".to_string(), format!("> {}", long), "> cd".to_string()]
    );
    assert_eq!(wrap(&long, 0, 78), vec![long.clone()]);
}

#[test]
fn wrap_with_a_small_budget_puts_one_word_on_each_line() {
    assert_eq!(wrap("a b c", 0, 1), vec!["a".to_string(), "b".to_string(), "c".to_string()]);
    assert_eq!(wrap("a b c", 0, 3), vec!["a b".to_string(), "c".to_string()]);
    assert_eq!(wrap("a b c", 1, 0), vec!["> a".to_string(), "> b".to_string(), "> c".to_string()]);
}

#[test]
fn wrap_measures_bytes() {
    // Each word takes four bytes and two characters.
    let content = vec!["\u{e9}\u{e9}"; 20].join(" ");
    let lines = wrap(&content, 0, 78);
    assert_eq!(lines, vec![vec!["\u{e9}\u{e9}"; 15].join(" "), vec!["\u{e9}\u{e9}"; 5].join(" ")]);
}

#[test]
fn wrap_collapses_runs_of_whitespace() {
    assert_eq!(wrap("  a \t b\n\nc  ", 1, 78), vec!["> a b c".to_string()]);
}

#[test]
fn do_wrap_appends_lines_with_line_feeds() {
    let mut ret = String::from("kept\n");
    do_wrap(&mut ret, "hello world", 1);
    assert_eq!(ret, "kept\n> hello world\n");
    do_wrap(&mut ret, "", 2);
    assert_eq!(ret, "kept\n> hello world\n> >\n");
    do_wrap(&mut ret, "", 0);
    assert_eq!(ret, "kept\n> hello world\n> >\n\n");
}

#[test]
fn do_wrap_uses_the_fixed_budget() {
    assert_eq!(LINE_LENGTH, 78);
    let mut ret = String::new();
    do_wrap(&mut ret, &vec!["aaaa"; 16].join(" "), 0);
    assert_eq!(ret, format!("{}\naaaa\n", vec!["aaaa"; 15].join(" ")));
}

#[test]
fn reformat_joins_lines_of_one_depth() {
    let out = reformat(&["> hello", "> world", "", "> > deep one", "> > deep two"]);
    assert_eq!(out, "> hello world\n\n> > deep one deep two\n");
}

#[test]
fn reformat_of_nothing_is_empty() {
    assert_eq!(reformat(&[]), "");
}

#[test]
fn reformat_keeps_every_blank_line() {
    let out = reformat(&["a", "", "", "", "b"]);
    assert_eq!(out, "a\n\n\n\nb\n");
    assert_eq!(reformat(&["", ""]), "\n\n");
}

#[test]
fn reformat_keeps_the_depth_of_a_blank_line() {
    let out = reformat(&["> a", ">", "> b", "> >", ">> c"]);
    assert_eq!(out, "> a\n>\n> b\n> >\n> > c\n");
}

#[test]
fn reformat_never_joins_across_a_depth_change() {
    let out = reformat(&["a", "> b", "> c", "d", ">> e"]);
    assert_eq!(out, "a\n> b c\nd\n> > e\n");
}

#[test]
fn reformat_wraps_a_long_paragraph() {
    let line = vec!["word"; 10].join(" ");
    let out = reformat(&[&format!("> {}", line), &format!("> {}", line)]);
    let first = format!("> {}", vec!["word"; 15].join(" "));
    let second = format!("> {}", vec!["word"; 5].join(" "));
    assert_eq!(first.len(), 76);
    assert_eq!(out, format!("{}\n{}\n", first, second));
}

#[test]
fn reformat_is_stable_on_its_own_output() {
    let line = vec!["word"; 12].join(" ");
    let quoted = format!("> {}", line);
    let input = ["Hi,", line.as_str(), line.as_str(), "", quoted.as_str(), ">", quoted.as_str()];
    let once = reformat(&input);
    let lines: Vec<&str> = once.lines().collect();
    assert_eq!(reformat(&lines), once);
}

#[test]
fn reformat_output_lines_fit_the_budget() {
    let line = vec!["wordy"; 40].join(" ");
    let deep = format!("> > > {}", line);
    let out = reformat(&[line.as_str(), deep.as_str()]);
    for l in out.lines() {
        assert!(l.len() <= 78);
    }
}

#[test]
fn wrap_trims_other_whitespace_at_the_ends_of_a_line() {
    assert_eq!(wrap("a \u{a0} b", 0, 78), vec!["a \u{a0} b".to_string()]);
    assert_eq!(wrap("a \u{a0} b", 0, 1), vec!["a".to_string(), String::new(), "b".to_string()]);
    assert_eq!(wrap("\u{a0}a b\u{a0}", 1, 78), vec!["> a b".to_string()]);
}

#[test]
fn wrap_at_great_depth_still_emits_the_markers() {
    let lines = wrap("", 40, 78);
    assert_eq!(lines, vec![format!("{}>", "> ".repeat(39))]);
    assert_eq!(lines[0].len(), 79);
    let lines = wrap("a b", 40, 78);
    assert_eq!(lines, vec![format!("{}a", "> ".repeat(40)), format!("{}b", "> ".repeat(40))]);
}

#[test]
fn reformat_keeps_each_word_at_its_depth() {
    let input = ["> one two", "> three", ">> four", "five", "> six"];
    let out = reformat(&input);
    let mut source: Vec<(usize, String)> = Vec::new();
    for l in input {
        let (depth, content) = parse_line(l);
        for w in content.split_ascii_whitespace() {
            source.push((depth, w.to_string()));
        }
    }
    let mut placed: Vec<(usize, String)> = Vec::new();
    for l in out.lines() {
        let (depth, content) = parse_line(l);
        for w in content.split_ascii_whitespace() {
            placed.push((depth, w.to_string()));
        }
    }
    assert_eq!(placed, source);
    assert_eq!(out, "> one two three\n> > four\nfive\n> six\n");
}

#[test]
fn reformat_blank_lines_between_paragraphs_keep_their_count() {
    let input = ["> a", "", ">", "> >", "", "> b"];
    let out = reformat(&input);
    assert_eq!(out, "> a\n\n>\n> >\n\n> b\n");
    assert_eq!(out.lines().count(), 6);
}

#[test]
fn reformat_twice_is_reformat_once() {
    let long = vec!["lorem"; 30].join(" ");
    let quoted = format!(">{}", long);
    let deep = format!("> >   {}  ", long);
    let input = [
        "Dear all,",
        "",
        long.as_str(),
        long.as_str(),
        ">",
        quoted.as_str(),
        "> ",
        deep.as_str(),
        "",
        "bye",
    ];
    let once = reformat(&input);
    let again: Vec<&str> = once.lines().collect();
    let twice = reformat(&again);
    assert_eq!(twice, once);
    let third: Vec<&str> = twice.lines().collect();
    assert_eq!(reformat(&third), once);
}

#[test]
fn reformat_reads_a_quote_sign_at_the_start_of_a_line_as_a_marker() {
    let filler = vec!["x"; 39].join(" ");
    let line = format!("{} >tail", filler);
    let once = reformat(&[line.as_str()]);
    assert_eq!(once, format!("{}\n>tail\n", filler));
    let again: Vec<&str> = once.lines().collect();
    assert_eq!(reformat(&again), format!("{}\n> tail\n", filler));
}

#[test]
fn reformat_treats_whitespace_only_lines_as_blank() {
    assert_eq!(reformat(&["a", " \t ", "b"]), "a\n\nb\n");
    assert_eq!(reformat(&["> a", "> \u{a0}", "> b"]), "> a\n>\n> b\n");
}

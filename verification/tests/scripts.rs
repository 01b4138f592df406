use lobby_router::cli::{Cli, Command, FormatCommand, Job, LobbyCommand, _format, _lobby};
use lobby_router::format::{
    breakpoint_lines, criticize_format_issue, filter_lines, find_breakpoints, find_start_labels,
    is_breakpoint, is_start_label, lines, Mark,
};
use lobby_router::template::{fill, find_row, generate_input, read_rows, replace_all, split};
use lobby_router::timing::{
    edge_file_name, edge_time, is_warp_source, parse_arc_name, parse_count, parse_time, read_arc,
    ArcName, EdgeTime, Reading,
};

fn owned(lines: &[(usize, &str)]) -> Vec<(usize, Vec<u8>)> {
    lines.iter().map(|(n, l)| (*n, l.as_bytes().to_vec())).collect()
}

#[test]
fn lines_end_at_newlines_and_drop_the_return() {
    let text = b"one\r\ntwo\n\nfour\r";
    let expect: Vec<Vec<u8>> =
        vec![b"one".to_vec(), b"two".to_vec(), b"".to_vec(), b"four\r".to_vec()];
    assert_eq!(lines(text), expect);
    assert_eq!(lines(b""), Vec::<Vec<u8>>::new());
    assert_eq!(lines(b"\n"), vec![b"".to_vec()]);
    assert_eq!(lines(b"a\n"), vec![b"a".to_vec()]);
    assert_eq!(lines(b"\r\n"), vec![b"".to_vec()]);
}

#[test]
fn breakpoints_and_start_labels_are_found_by_line() {
    let text = b"#Start\n  12,R\n***\n 5,J ***S\n**\n#Start again\n x#Start";
    assert_eq!(find_breakpoints(text), owned(&[(3, "***"), (4, " 5,J ***S")]));
    assert_eq!(find_start_labels(text), owned(&[(1, "#Start"), (6, "#Start again")]));
    assert_eq!(filter_lines(text, Mark::Breakpoint), find_breakpoints(text));
    assert_eq!(filter_lines(text, Mark::StartLabel), find_start_labels(text));
    assert_eq!(breakpoint_lines(text), owned(&[(2, "***"), (3, " 5,J ***S")]));
    assert!(is_breakpoint(b"a****"));
    assert!(!is_breakpoint(b"**a*"));
    assert!(is_start_label(b"#Start"));
    assert!(!is_start_label(b"#Star"));
    assert!(!is_start_label(b" #Start"));
}

#[test]
fn a_script_is_criticized() {
    let c = criticize_format_issue(b"#Start\n1\n***\n");
    assert!(c.mark_bp);
    assert!(!c.mark_sl);
    assert_eq!(c.breakpoints, owned(&[(3, "***")]));
    let c = criticize_format_issue(b"1\n2\n");
    assert!(!c.mark_bp);
    assert!(c.mark_sl);
    let c = criticize_format_issue(b"#Start\n#Start\n");
    assert!(c.mark_sl);
    assert_eq!(c.start_labels.len(), 2);
}

#[test]
fn file_names_name_arcs() {
    assert_eq!(parse_arc_name(b"lobby_1-2.tas"), ArcName::Arc(1, 2));
    assert_eq!(parse_arc_name(b"X_007-4294967295.tas"), ArcName::Arc(7, 4294967295));
    assert_eq!(parse_arc_name(b"X_1-4294967296.tas"), ArcName::TooLarge);
    assert_eq!(parse_arc_name(b"_1-2.tas"), ArcName::Other);
    assert_eq!(parse_arc_name(b"a1_1-2.tas"), ArcName::Other);
    assert_eq!(parse_arc_name(b"a_1-2.tas.bak"), ArcName::Other);
    assert_eq!(parse_arc_name(b"a_1-.tas"), ArcName::Other);
    assert_eq!(parse_arc_name(b"a_-2.tas"), ArcName::Other);
    assert_eq!(parse_arc_name(b"a_1_2.tas"), ArcName::Other);
    assert_eq!(parse_arc_name(b"a_1-2.TAS"), ArcName::Other);
    assert_eq!(parse_arc_name(b""), ArcName::Other);
}

#[test]
fn the_first_time_in_the_text_counts() {
    assert_eq!(parse_time(b"#Start\n  1:23.456(5000)\nlater 0.017(1)\n"), Some(5000));
    assert_eq!(parse_time(b"x(12) 3(4)"), Some(4));
    assert_eq!(parse_time(b"1.(2"), None);
    assert_eq!(parse_time(b":(0012)"), Some(12));
    assert_eq!(parse_time(b"5()\n6(7)"), Some(7));
    assert_eq!(parse_time(b"1(4294967296)\n1(5)"), None);
    assert_eq!(parse_time(b"1(4294967295)"), Some(4294967295));
    assert_eq!(parse_time(b""), None);
    assert_eq!(parse_time(b"(5)"), None);
}

#[test]
fn a_file_is_read_as_an_arc() {
    assert_eq!(read_arc(b"a_1-2.tas", Some(b"0:01(60)")), Reading::Timed(1, 2, 60));
    assert_eq!(read_arc(b"a_1-2.tas", Some(b"nothing")), Reading::Untimed(1, 2));
    assert_eq!(read_arc(b"a_1-2.tas", None), Reading::Untimed(1, 2));
    assert_eq!(read_arc(b"notes.txt", Some(b"0:01(60)")), Reading::Other);
    assert_eq!(read_arc(b"a_99999999999-2.tas", None), Reading::TooLarge);
}

#[test]
fn edge_files_name_two_places() {
    assert_eq!(edge_file_name(b"3-Warp.tas"), Some((b"3".to_vec(), b"Warp".to_vec())));
    assert_eq!(edge_file_name(b"a-b-c.tas"), Some((b"a".to_vec(), b"b".to_vec())));
    assert_eq!(edge_file_name(b"-.tas"), Some((b"".to_vec(), b"".to_vec())));
    assert_eq!(edge_file_name(b"ab.tas"), None);
    assert_eq!(edge_file_name(b"a-b.txt"), None);
    assert_eq!(edge_file_name(b"tas"), None);
    assert!(is_warp_source(b"Warp"));
    assert!(!is_warp_source(b""));
    assert!(!is_warp_source(b"W1"));
}

#[test]
fn an_edge_has_a_time() {
    assert_eq!(edge_time(b"# Time: 0:12.345(741)\n"), EdgeTime::Time(741));
    assert_eq!(edge_time(b"Time: none\nTime: (+5)x"), EdgeTime::Time(5));
    assert_eq!(edge_time(b"Time: )12(rest"), EdgeTime::Time(12));
    assert_eq!(edge_time(b"Time: (12"), EdgeTime::Time(12));
    assert_eq!(edge_time(b"Time: (1 2)"), EdgeTime::Malformed);
    assert_eq!(edge_time(b"Time: ()\nTime: (3)"), EdgeTime::Malformed);
    assert_eq!(edge_time(b"time: (3)"), EdgeTime::Missing);
    assert_eq!(edge_time(b"Time: (18446744073709551615)"), EdgeTime::Time(u64::MAX));
    assert_eq!(edge_time(b"Time: (18446744073709551616)"), EdgeTime::Malformed);
    assert_eq!(parse_count(b"+"), None);
    assert_eq!(parse_count(b""), None);
    assert_eq!(parse_count(b"-1"), None);
    assert_eq!(parse_count(b"0042"), Some(42));
}

#[test]
fn text_is_replaced_from_the_left() {
    assert_eq!(replace_all(b"aaa", b"aa", b"b"), b"ba".to_vec());
    assert_eq!(replace_all(b"x%src%y%src%", b"%src%", b"12"), b"x12y12".to_vec());
    assert_eq!(replace_all(b"abc", b"d", b"e"), b"abc".to_vec());
    assert_eq!(replace_all(b"", b"d", b"e"), b"".to_vec());
    assert_eq!(replace_all(b"abab", b"ab", b""), b"".to_vec());
    assert_eq!(split(b"a,,b,", b','), vec![b"a".to_vec(), b"".to_vec(), b"b".to_vec(), b"".to_vec()]);
    assert_eq!(split(b"", b','), vec![b"".to_vec()]);
}

#[test]
fn a_template_is_filled_for_each_step() {
    let csv = b"1,one,uno\n2,two\n1,ONE\n";
    let rows = read_rows(csv);
    assert_eq!(find_row(&rows, b"1"), Some(2));
    assert_eq!(find_row(&rows, b"2"), Some(1));
    assert_eq!(find_row(&rows, b"3"), None);
    let template = b"%src%->%dst% [%src:1%|%src:2%] [%dst:1%|%dst:2%]";
    assert_eq!(
        fill(template, b"1", b"2", &rows),
        b"1->2 [ONE|%src:2%] [two|%dst:2%]".to_vec()
    );
    let out = generate_input(b"1-2--3-1", csv, template);
    assert_eq!(
        out,
        vec![
            b"1->2 [ONE|%src:2%] [two|%dst:2%]".to_vec(),
            b"3->1 [%src:1%|%src:2%] [ONE|%dst:2%]".to_vec(),
        ]
    );
    assert!(generate_input(b"1", csv, template).is_empty());
    assert!(generate_input(b"", csv, template).is_empty());
}

#[test]
fn a_command_stands_for_a_job() {
    assert!(matches!(_format(FormatCommand::ScanBreakpoint), Job::ScanBreakpoints));
    assert!(matches!(
        _lobby(LobbyCommand::Route { dir: None, num: None, show_arc: true }),
        Job::Route { dir: None, buffer_size: 1, show_arc: true }
    ));
    assert!(matches!(
        _lobby(LobbyCommand::Route { dir: None, num: Some(7), show_arc: false }),
        Job::Route { dir: None, buffer_size: 7, show_arc: false }
    ));
    assert!(matches!(_lobby(LobbyCommand::Info { dir: None }), Job::Info { dir: None }));
    let cli = Cli {
        command: Command::Lobby {
            command: LobbyCommand::GenerateInput {
                string: "1-2".to_string(),
                csv: "a.csv".into(),
                template: "t.txt".into(),
            },
        },
    };
    match cli.job() {
        Job::GenerateInput { string, csv, template } => {
            assert_eq!(string, "1-2");
            assert_eq!(csv.to_str(), Some("a.csv"));
            assert_eq!(template.to_str(), Some("t.txt"));
        }
        other => panic!("{other:?}"),
    }
    let cli = Cli { command: Command::Format { command: FormatCommand::ScanBreakpoint } };
    assert!(matches!(cli.job(), Job::ScanBreakpoints));
}

use nginx_tail::Message;
use nginx_tail::dashboard::Dashboard;
use nginx_tail::passes_filter;
use nginx_tail::print_cadence;
use nginx_tail::textfmt::fmt_rate;
use nginx_tail::textfmt::u64_to_dec;

fn line_msg(text: &str, group: &str, bucket: Option<&str>) -> Message {
    Message::Line {
        text: text.to_owned(),
        updowngroup: group.to_owned(),
        leftrightgroup: bucket.map(|b| b.to_owned()),
        statuscode: bucket.map(|b| b.to_owned()),
    }
}

#[test]
fn test_print_skips_write_when_nothing_changed() {
    let mut dash = Dashboard::new(20, 0, Vec::new());
    let out = dash.handle(Message::RegisterGroup("a.log".to_owned()));
    assert!(out.is_none());
    // first render draws the (empty-rate) stats block for the group
    let first = dash.handle(Message::Print { include_lines: false });
    assert!(first.is_some());
    // nothing arrived in between: the second cycle writes no bytes at all
    let second = dash.handle(Message::Print { include_lines: false });
    assert!(second.is_none());
    let third = dash.handle(Message::Print { include_lines: true });
    assert!(third.is_none());
}

#[test]
fn test_print_writes_again_after_new_lines() {
    let mut dash = Dashboard::new(20, 0, Vec::new());
    // an unclassified line: queued for display (wrapped in orange), nothing
    // accounted
    assert!(dash.handle(line_msg("plain text line", "a.log", None)).is_none());
    let first = dash.handle(Message::Print { include_lines: true });
    let text = first.expect("raw lines were pending");
    assert!(text.contains("\u{1b}[93mplain text line\u{1b}[0m\n"));
    assert!(text.contains("-- Output sampled at 100%"));
    // the queue was flushed; an unchanged follow-up cycle stays silent
    let second = dash.handle(Message::Print { include_lines: true });
    assert!(second.is_none());
}

#[test]
fn test_stats_block_alignment_and_diffing() {
    let mut dash = Dashboard::new(30, 0, Vec::new());
    dash.handle(line_msg("x \"a\" 200 ok", "alpha.log", Some("200")));
    dash.handle(line_msg("x \"a\" 404 no", "beta.log", Some("404")));
    let out = dash.handle(Message::Print { include_lines: false }).expect("stats changed");
    // one stats line per group; cells for both codes appear in sorted order
    assert!(out.contains("[\u{1b}[32m200\u{1b}[0m]"));
    assert!(out.contains("[\u{1b}[33m404\u{1b}[0m]"));
    let lines: Vec<&str> = out.lines().filter(|l| l.contains("-- ")).collect();
    assert_eq!(lines.len(), 2);
}

#[test]
fn test_filters_hide_lines_but_not_accounting() {
    let mut dash = Dashboard::new(20, 0, vec!["5".to_owned()]);
    dash.handle(line_msg("x \"a\" 200 ok", "a.log", Some("200")));
    dash.handle(line_msg("x \"a\" 503 err", "a.log", Some("503")));
    // only the 503 line is queued for display
    assert_eq!(dash.pending_lines.len(), 1);
    // but both were counted
    assert_eq!(dash.groups.stats[0].stats.len(), 2);
    assert_eq!(dash.groups.stats[0].stats[0].pending, 1);
    assert_eq!(dash.groups.stats[0].stats[1].pending, 1);
}

#[test]
fn test_queue_eviction_reports_samplerate() {
    // height 4 with one group leaves room for exactly one raw line
    let mut dash = Dashboard::new(4, 0, Vec::new());
    dash.handle(Message::RegisterGroup("a.log".to_owned()));
    dash.handle(line_msg("first", "a.log", Some("200")));
    dash.handle(line_msg("second", "a.log", Some("200")));
    dash.handle(line_msg("third", "a.log", Some("200")));
    assert_eq!(dash.pending_lines.len(), 1);
    assert_eq!(dash.lines_skipped, 2);
    let out = dash.handle(Message::Print { include_lines: true }).expect("lines pending");
    // 1 kept of 3 seen: 100 * 1 / 3 = 33 percent
    assert!(out.contains("-- Output sampled at 33%"));
}

#[test]
fn test_width_change_truncates_raw_lines() {
    let mut dash = Dashboard::new(20, 0, Vec::new());
    dash.handle(Message::WinCh(5));
    assert_eq!(dash.cut_width, 5);
    dash.handle(line_msg("abcdefghij", "a.log", Some("200")));
    let out = dash.handle(Message::Print { include_lines: true }).expect("lines pending");
    assert!(out.contains("abcde\n"));
    assert!(!out.contains("abcdef"));
}

#[test]
fn test_passes_filter_rules() {
    let no_filters: Vec<String> = Vec::new();
    let filters = vec!["4".to_owned(), "50".to_owned()];
    assert!(passes_filter(&no_filters, &Some("200".to_owned())));
    assert!(passes_filter(&filters, &None));
    assert!(passes_filter(&filters, &Some("404".to_owned())));
    assert!(passes_filter(&filters, &Some("503".to_owned())));
    assert!(!passes_filter(&filters, &Some("200".to_owned())));
    assert!(!passes_filter(&filters, &Some("511".to_owned())));
}

#[test]
fn test_print_cadence_schedule() {
    assert_eq!(print_cadence(0), (100, false));
    assert_eq!(print_cadence(1), (200, false));
    assert_eq!(print_cadence(2), (300, false));
    assert_eq!(print_cadence(3), (500, true));
    assert_eq!(print_cadence(4), (333, false));
    assert_eq!(print_cadence(18), (333, false));
    assert_eq!(print_cadence(19), (333, true));
    assert_eq!(print_cadence(35), (333, true));
}

#[test]
fn test_rate_formatting() {
    assert_eq!(fmt_rate(40000, 2250), "   17.8");
    assert_eq!(fmt_rate(0, 1), "    0.0");
    assert_eq!(fmt_rate(30000, 3150), "    9.5");
    assert_eq!(fmt_rate(1, 0), "    inf");
    assert_eq!(fmt_rate(0, 0), "    NaN");
    assert_eq!(fmt_rate(123456789, 1), "123456789.0");
    assert_eq!(u64_to_dec(907), "907");
}

#[test]
fn test_stats_lines_use_trimmed_group_names() {
    let mut dash = Dashboard::new(30, 0, Vec::new());
    dash.handle(Message::RegisterGroup("/a/customer_project_0/access.log".to_owned()));
    dash.handle(Message::RegisterGroup("/a/customer_project_1/access.log".to_owned()));
    assert_eq!(dash.groups.shared_prefix, "/a/customer_p");
    assert_eq!(dash.groups.shared_suffix, "/access.log");
    let out = dash.handle(Message::Print { include_lines: false }).expect("stats changed");
    // names are shown with the shared prefix and suffix stripped
    assert!(out.contains("-- roject_0"));
    assert!(out.contains("-- roject_1"));
    assert!(!out.contains("customer"));
}

use nginx_tail::extract_statuscode;
use nginx_tail::get_statuscode_class;
use nginx_tail::parsing::ParsedLine;
use nginx_tail::parsing::parse_nginx_line;
use nginx_tail::parsing::code2color;
use nginx_tail::terminal;

#[test]
fn test_parsing() {
    let variant1 = r#"v2 1.22.3.44 - - [26/May/2025:00:00:01 +0200] "GET /v2/installations/74453/stats?interval=hours&type=evcs&start=1748210400 HTTP/1.0" 200 63 - 0.023 0.022 "-" "UserAgent/123" "https" "some.domain.example""#.to_owned();
    assert_eq!("200", extract_statuscode(&variant1).unwrap());
    let variant2 = r#"123.123.123.123 - - [26/May/2025:19:43:59 +0200] "GET /links.json HTTP/1.1" 200 91 "-" "Monit/5.34.3" 0.004 0.004 ."#.to_owned();
    assert_eq!("200", extract_statuscode(&variant2).unwrap());

    // Deconstructing the struct because it looks nicer with assert_eq
    let ParsedLine {
        head,
        head_date,
        date,
        date_method,
        method,
        method_url,
        url,
        url_lvl,
        protocollvl,
        lvl_statuscode,
        statuscode,
        tail,
    } = parse_nginx_line(&variant2);
    assert_eq!(head, "123.123.123.123 - - ");
    assert_eq!(head_date.unwrap(), "[");
    assert_eq!(date, "26/May/2025:19:43:59 +0200");
    assert_eq!(date_method.unwrap(), "] \"");
    assert_eq!(method, "GET");
    assert_eq!(method_url.unwrap(), " ");
    assert_eq!(url, "/links.json");
    assert_eq!(url_lvl.unwrap(), " ");
    assert_eq!(protocollvl, "HTTP/1.1");
    assert_eq!(lvl_statuscode.unwrap(), "\" ");
    assert_eq!(statuscode, "200");
    assert_eq!(tail, r#" 91 "-" "Monit/5.34.3" 0.004 0.004 ."#);
}

#[test]
fn test_formatting_v3() {
    let green = terminal::green();
    let reset = terminal::reset();
    assert_eq!(
        parse_nginx_line(
            r#"v3 1.22.3.44 - - [26/May/2025:00:00:01 +0200] 1a2b3c4d5e6f "GET /v2/installations/74453/stats?interval=hours&type=evcs&start=1748210400 HTTP/1.0" 200 63 - 0.023 0.022 "-" "UserAgent/123" "https" "some.domain.example""#
        )
        .render(),
        format!(
            r#"v3 1.22.3.44 - - [26/May/2025:00:00:01 +0200] 1a2b3c4d5e6f "GET /v2/installations/74453/stats?interval=hours&type=evcs&start=1748210400 HTTP/1.0" {green}200{reset} 63 - 0.023 0.022 "-" "UserAgent/123" "https" "some.domain.example""#
        ),
    );
}

#[test]
fn test_formatting_corruption() {
    assert_eq!(
        parse_nginx_line(
            r#"vx 1.22.3.44 - - [26/May/2025:00:00:01 +0200]"GET /v2/installations/74453/stats?interval=hours&type=evcs&start=1748210400 HTTP/1.0" 200 63 - 0.023 0.022 "-" "UserAgent/123" "https" "some.domain.example""#
        )
        .render(),
        format!(
            r#"vx 1.22.3.44 - - [26/May/2025:00:00:01 +0200]"GET /v2/installations/74453/stats?interval=hours&type=evcs&start=1748210400 HTTP/1.0" 200 63 - 0.023 0.022 "-" "UserAgent/123" "https" "some.domain.example""#
        ),
    );
}

#[test]
fn test_formatting_v2() {
    let green = terminal::green();
    let reset = terminal::reset();
    // every subsequent assert_eq cuts down the string to test boundary behavior
    assert_eq!(
        parse_nginx_line(
            r#"v2 1.22.3.44 - - [26/May/2025:00:00:01 +0200] "GET /v2/installations/74453/stats?interval=hours&type=evcs&start=1748210400 HTTP/1.0" 200 63 - 0.023 0.022 "-" "UserAgent/123" "https" "some.domain.example""#
        )
        .render(),
        format!(
            r#"v2 1.22.3.44 - - [26/May/2025:00:00:01 +0200] "GET /v2/installations/74453/stats?interval=hours&type=evcs&start=1748210400 HTTP/1.0" {green}200{reset} 63 - 0.023 0.022 "-" "UserAgent/123" "https" "some.domain.example""#
        ),
    );
    assert_eq!(
        parse_nginx_line(
            r#"v2 1.22.3.44 - - [26/May/2025:00:00:01 +0200] "GET /v2/installations/74453/stats?interval=hours&type=evcs&start=1748210400 HTTP/1.0" 200 "#
        )
        .render(),
        format!(
            r#"v2 1.22.3.44 - - [26/May/2025:00:00:01 +0200] "GET /v2/installations/74453/stats?interval=hours&type=evcs&start=1748210400 HTTP/1.0" {green}200{reset} "#
        ),
    );
    assert_eq!(
        parse_nginx_line(
            r#"v2 1.22.3.44 - - [26/May/2025:00:00:01 +0200] "GET /v2/installations/74453/stats?interval=hours&type=evcs&start=1748210400 HTTP/1.0" 20"#
        )
        .render(),
        format!(
            r#"v2 1.22.3.44 - - [26/May/2025:00:00:01 +0200] "GET /v2/installations/74453/stats?interval=hours&type=evcs&start=1748210400 HTTP/1.0" {green}20{reset}"#
        ),
    );
    assert_eq!(
        parse_nginx_line(
            r#"v2 1.22.3.44 - - [26/May/2025:00:00:01 +0200] "GET /v2/installations/74453/stats?interval=hours&type=evcs&start=1748210400 HTTP/1.0" 2"#
        )
        .render(),
        format!(
            r#"v2 1.22.3.44 - - [26/May/2025:00:00:01 +0200] "GET /v2/installations/74453/stats?interval=hours&type=evcs&start=1748210400 HTTP/1.0" {green}2{reset}"#
        ),
    );
    assert_eq!(
        parse_nginx_line(
            r#"v2 1.22.3.44 - - [26/May/2025:00:00:01 +0200] "GET /v2/installations/74453/stats?interval=hours&type=evcs&start=1748210400 HTTP/1.0" "#
        )
        .render(),
        format!(
            r#"v2 1.22.3.44 - - [26/May/2025:00:00:01 +0200] "GET /v2/installations/74453/stats?interval=hours&type=evcs&start=1748210400 HTTP/1.0" "#
        ),
    );
    assert_eq!(
        parse_nginx_line(
            r#"v2 1.22.3.44 - - [26/May/2025:00:00:01 +0200] "GET /v2/installations/74453/stats?interval=hours&type=evcs&start=1748210400 HTTP/1.0""#
        )
        .render(),
        format!(
            r#"v2 1.22.3.44 - - [26/May/2025:00:00:01 +0200] "GET /v2/installations/74453/stats?interval=hours&type=evcs&start=1748210400 HTTP/1.0""#
        ),
    );
    assert_eq!(
        parse_nginx_line(r#"v2 1.22.3.44 - - [26/May/2025:00:00:01 +0200] "G"#).render(),
        format!(r#"v2 1.22.3.44 - - [26/May/2025:00:00:01 +0200] "G"#),
    );
    assert_eq!(
        parse_nginx_line(r#"v2 1.22.3.44 - - [26/May/2025:00:00:01 +0200] ""#).render(),
        format!(r#"v2 1.22.3.44 - - [26/May/2025:00:00:01 +0200] ""#),
    );
    assert_eq!(
        parse_nginx_line(r#"v2 1.22.3.44 - - [26/May/2025:00:00:01 +0200] "#).render(),
        format!(r#"v2 1.22.3.44 - - [26/May/2025:00:00:01 +0200] "#),
    );
    assert_eq!(
        parse_nginx_line(r#"v2 1.22.3.44 - - [26/May/2025:00:00:01 +0200]"#).render(),
        format!(r#"v2 1.22.3.44 - - [26/May/2025:00:00:01 +0200]"#),
    );
    assert_eq!(
        parse_nginx_line(r#"v2 1.22.3.44 - - [26/May/2025:00:00:01 +0200"#).render(),
        format!(r#"v2 1.22.3.44 - - [26/May/2025:00:00:01 +0200"#),
    );
}

/// Remove every color sequence the renderer can insert.
fn strip_colors(s: &str) -> String {
    s.replace("\u{1b}[1\u{1b}[37m", "")
        .replace("\u{1b}[32m", "")
        .replace("\u{1b}[35m", "")
        .replace("\u{1b}[33m", "")
        .replace("\u{1b}[31m", "")
        .replace("\u{1b}[93m", "")
        .replace("\u{1b}[0m", "")
}

#[test]
fn test_parse_empty_and_truncated_prefixes_round_trip() {
    let full = r#"10.0.0.7 - - [26/May/2025:19:43:59 +0200] "POST /submit?q=1 HTTP/1.1" 503 91 "-" "curl/8.0" ."#;
    assert_eq!(parse_nginx_line("").render(), "");
    let mut cut_points: Vec<usize> = full.char_indices().map(|(i, _)| i).collect();
    cut_points.push(full.len());
    for cut in cut_points {
        let prefix = &full[..cut];
        let rendered = parse_nginx_line(prefix).render();
        assert_eq!(strip_colors(&rendered), prefix, "prefix of length {cut}");
    }
}

#[test]
fn test_parse_unstructured_round_trip() {
    for garbage in [
        "no structure at all",
        "][][][",
        "a[b]c",
        "a[b] \"m u p\"x",
        "[only a date]",
        "\"\"\"\"",
        "tab\tand ümlaut [ß] \"GET / HTTP/1.0\" 200 ",
    ] {
        let rendered = parse_nginx_line(garbage).render();
        assert_eq!(strip_colors(&rendered), garbage);
    }
}

#[test]
fn test_extract_statuscode_failures() {
    assert_eq!(extract_statuscode("no quotes here"), Err("?A".to_owned()));
    assert_eq!(extract_statuscode("one \" quote"), Err("?B".to_owned()));
    assert_eq!(extract_statuscode("pair \"q\""), Err("?E".to_owned()));
    assert_eq!(extract_statuscode("pair \"q\"X200-no-space"), Err("?C".to_owned()));
    assert_eq!(extract_statuscode("x \"a\" 404 rest"), Ok("404".to_owned()));
}

#[test]
fn test_statuscode_class() {
    assert_eq!(get_statuscode_class("404"), Some("4xx".to_owned()));
    assert_eq!(get_statuscode_class("200"), Some("2xx".to_owned()));
    assert_eq!(get_statuscode_class("x"), Some("xxx".to_owned()));
    assert_eq!(get_statuscode_class(""), None);
}

#[test]
fn test_code_colors() {
    assert_eq!(code2color("200"), (terminal::green(), terminal::reset()));
    assert_eq!(code2color("301"), (terminal::purple(), terminal::reset()));
    assert_eq!(code2color("404"), (terminal::yellow(), terminal::reset()));
    assert_eq!(code2color("503"), (terminal::red(), terminal::reset()));
    assert_eq!(code2color("slow"), (terminal::white(), terminal::reset()));
    assert_eq!(code2color(""), ("", ""));
}

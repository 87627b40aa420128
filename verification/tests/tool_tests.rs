use ksuid::civil::{civil_time, decimal_string, rfc3339};
use ksuid::cli::{
    format_ksuid, hex_upper, parse_args, parse_count, parse_format, payload_hex, render, Command,
    Format,
};
use ksuid::Ksuid;

fn args(list: &[&str]) -> Vec<String> {
    list.iter().map(|s| s.to_string()).collect()
}

fn run_options(list: &[&str]) -> (usize, Format, Option<String>, Vec<String>) {
    match parse_args(&args(list)) {
        Ok(Command::Run(o)) => (o.count, o.format, o.template, o.ksuids),
        Ok(Command::Help) => panic!("help"),
        Ok(Command::Version) => panic!("version"),
        Err(e) => panic!("error: {}", e),
    }
}

fn parse_error(list: &[&str]) -> String {
    match parse_args(&args(list)) {
        Err(e) => e,
        Ok(_) => panic!("accepted"),
    }
}

#[test]
fn civil_time_of_known_instant() {
    let c = civil_time(1495004740);
    assert_eq!((c.year, c.month, c.day), (2017, 5, 17));
    assert_eq!((c.hour, c.minute, c.second), (7, 5, 40));
}

#[test]
fn rfc3339_epoch_and_known_instants() {
    assert_eq!(rfc3339(0), "1970-01-01T00:00:00Z");
    assert_eq!(rfc3339(1495004740), "2017-05-17T07:05:40Z");
    assert_eq!(rfc3339(1400000000), "2014-05-13T16:53:20Z");
    assert_eq!(rfc3339(1400000000 + 4294967295), "2150-06-19T23:21:35Z");
}

#[test]
fn rfc3339_leap_day() {
    assert_eq!(rfc3339(951782400), "2000-02-29T00:00:00Z");
    assert_eq!(rfc3339(951782400 - 1), "2000-02-28T23:59:59Z");
    assert_eq!(rfc3339(951782400 + 86400), "2000-03-01T00:00:00Z");
}

#[test]
fn rfc3339_reads_high_values_as_negative() {
    assert_eq!(rfc3339(u64::MAX), "1969-12-31T23:59:59Z");
    assert_eq!(rfc3339(1u64 << 63), "-292277022657-01-27T08:29:52Z");
    assert_eq!(rfc3339((1u64 << 63) - 1), "292277026596-12-04T15:30:07Z");
    assert_eq!(rfc3339(18446744011510796416), "-001-01-01T00:00:00Z");
}

#[test]
fn decimal_string_values() {
    assert_eq!(decimal_string(0), "0");
    assert_eq!(decimal_string(107608047), "107608047");
    assert_eq!(decimal_string(u64::MAX), "18446744073709551615");
}

#[test]
fn parse_count_accepts_what_usize_parsing_accepts() {
    assert_eq!(parse_count("5"), Some(5));
    assert_eq!(parse_count("+7"), Some(7));
    assert_eq!(parse_count("0"), Some(0));
    assert_eq!(parse_count("007"), Some(7));
    assert_eq!(parse_count("18446744073709551615"), Some(usize::MAX));
    assert_eq!(parse_count(""), None);
    assert_eq!(parse_count("+"), None);
    assert_eq!(parse_count("-1"), None);
    assert_eq!(parse_count("12a"), None);
    assert_eq!(parse_count(" 1"), None);
    assert_eq!(parse_count("18446744073709551616"), None);
    assert_eq!(parse_count("99999999999999999999x"), None);
}

#[test]
fn parse_format_names() {
    assert_eq!(parse_format("string"), Ok(Format::String));
    assert_eq!(parse_format("inspect"), Ok(Format::Inspect));
    assert_eq!(parse_format("time"), Ok(Format::Time));
    assert_eq!(parse_format("timestamp"), Ok(Format::Timestamp));
    assert_eq!(parse_format("payload"), Ok(Format::Payload));
    assert_eq!(parse_format("raw"), Ok(Format::Raw));
    assert_eq!(parse_format("template"), Ok(Format::Template));
    assert_eq!(
        parse_format("json"),
        Err("unknown format 'json': expected string, inspect, time, timestamp, payload, raw, or template".to_string())
    );
}

#[test]
fn parse_args_defaults() {
    assert_eq!(run_options(&[]), (1, Format::String, None, vec![]));
}

#[test]
fn parse_args_settings_and_ksuids() {
    assert_eq!(
        run_options(&["-n", "3", "-f", "raw", "0ujtsYcgvSTl8PAuAdqWYSMnLOv"]),
        (3, Format::Raw, None, vec!["0ujtsYcgvSTl8PAuAdqWYSMnLOv".to_string()])
    );
    assert_eq!(
        run_options(&["-t", "{{.Raw}}", "-f", "template"]),
        (1, Format::Template, Some("{{.Raw}}".to_string()), vec![])
    );
    assert_eq!(
        run_options(&["-t", "-x", "-f", "template", "a", "b"]),
        (1, Format::Template, Some("-x".to_string()), vec!["a".to_string(), "b".to_string()])
    );
}

#[test]
fn parse_args_help_and_version() {
    assert!(matches!(parse_args(&args(&["-h"])), Ok(Command::Help)));
    assert!(matches!(parse_args(&args(&["--help", "-x"])), Ok(Command::Help)));
    assert!(matches!(parse_args(&args(&["-v"])), Ok(Command::Version)));
    assert!(matches!(parse_args(&args(&["-n", "2", "--version"])), Ok(Command::Version)));
}

#[test]
fn parse_args_errors() {
    assert_eq!(parse_error(&["-n"]), "-n requires a value");
    assert_eq!(parse_error(&["-n", "0"]), "-n must be a positive integer");
    assert_eq!(parse_error(&["-n", "abc"]), "-n must be a positive integer");
    assert_eq!(parse_error(&["-f"]), "-f requires a value");
    assert_eq!(
        parse_error(&["-f", "bogus"]),
        "unknown format 'bogus': expected string, inspect, time, timestamp, payload, raw, or template"
    );
    assert_eq!(parse_error(&["-t"]), "-t requires a value");
    assert_eq!(parse_error(&["-x"]), "unknown flag '-x'");
    assert_eq!(parse_error(&["-x", "-h"]), "unknown flag '-x'");
    assert_eq!(parse_error(&["-f", "template"]), "-f template requires -t <template>");
}

#[test]
fn hex_upper_digits() {
    assert_eq!(hex_upper(0), '0');
    assert_eq!(hex_upper(9), '9');
    assert_eq!(hex_upper(10), 'A');
    assert_eq!(hex_upper(15), 'F');
}

#[test]
fn payload_hex_of_known_ksuid() {
    let k = Ksuid::parse("0ujtsYcgvSTl8PAuAdqWYSMnLOv").unwrap();
    assert_eq!(payload_hex(&k), "B5A1CD34B5F99D1154FB6853345C9735");
}

#[test]
fn format_ksuid_simple_formats() {
    let k = Ksuid::parse("0ujtsYcgvSTl8PAuAdqWYSMnLOv").unwrap();
    assert_eq!(format_ksuid(&k, Format::String, None), "0ujtsYcgvSTl8PAuAdqWYSMnLOv");
    assert_eq!(
        format_ksuid(&k, Format::Raw, None),
        "0669F7EFB5A1CD34B5F99D1154FB6853345C9735"
    );
    assert_eq!(format_ksuid(&k, Format::Time, None), "2017-10-10T04:00:47Z");
    assert_eq!(format_ksuid(&k, Format::Timestamp, None), "107608047");
    assert_eq!(
        format_ksuid(&k, Format::Payload, None),
        "B5A1CD34B5F99D1154FB6853345C9735"
    );
}

#[test]
fn format_ksuid_inspect() {
    let k = Ksuid::parse("0ujtsYcgvSTl8PAuAdqWYSMnLOv").unwrap();
    let expected = "\nREPRESENTATION:\n\n  String: 0ujtsYcgvSTl8PAuAdqWYSMnLOv\n     Raw: 0669F7EFB5A1CD34B5F99D1154FB6853345C9735\n\nCOMPONENTS:\n\n       Time: 2017-10-10T04:00:47Z\n  Timestamp: 107608047\n    Payload: B5A1CD34B5F99D1154FB6853345C9735";
    assert_eq!(format_ksuid(&k, Format::Inspect, None), expected);
}

#[test]
fn format_ksuid_template() {
    let k = Ksuid::parse("0ujtsYcgvSTl8PAuAdqWYSMnLOv").unwrap();
    assert_eq!(
        format_ksuid(&k, Format::Template, Some("{{ .String }} at {{.Timestamp}} ({{ .Time }})")),
        "0ujtsYcgvSTl8PAuAdqWYSMnLOv at 107608047 (2017-10-10T04:00:47Z)"
    );
    assert_eq!(
        format_ksuid(&k, Format::Template, Some("{{.Payload}}/{{ .Raw }}/{{.Unknown}}")),
        "B5A1CD34B5F99D1154FB6853345C9735/0669F7EFB5A1CD34B5F99D1154FB6853345C9735/{{.Unknown}}"
    );
    assert_eq!(format_ksuid(&k, Format::Template, None), "");
}

#[test]
fn render_replaces_every_occurrence() {
    assert_eq!(
        render("{{.Raw}}{{.Raw}} é {{ .Raw }}", "s", "R", "t", "n", "p"),
        "RR é R"
    );
    assert_eq!(render("{{.Raw", "s", "R", "t", "n", "p"), "{{.Raw");
    assert_eq!(render("", "s", "R", "t", "n", "p"), "");
}

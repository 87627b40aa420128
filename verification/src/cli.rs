//! The decisions of the command-line tool: reading its arguments (flags,
//! counts, format names) and writing what it prints for a KSUID in each
//! output format, templates included.
use vstd::prelude::*;
use vstd::string::{StringExecFns, StringSliceAdditionalSpecFns};
use vstd::utf8::{encode_utf8, encode_utf8_decode_utf8};
use crate::{hex_char, spec_hex, Ksuid, EPOCH};
use crate::base62::spec_encode;
use crate::civil::{
    as_signed, civil_text, decimal, decimal_string, is_civil_time_of, rfc3339, CivilTime,
};
use crate::text::{all_ascii, ascii_chars, ascii_string};
use crate::platform::char_string;
use vstd::string::StrSliceExecFns;

verus! {

/// The output formats of the command-line tool.
#[derive(Debug, Clone, Copy, PartialEq, Eq)]
pub enum Format {
    String,
    Inspect,
    Time,
    Timestamp,
    Payload,
    Raw,
    Template,
}

/// The format a name stands for, if any.
pub open spec fn spec_format(s: Seq<char>) -> Option<Format> {
    if s == "string"@ {
        Some(Format::String)
    } else if s == "inspect"@ {
        Some(Format::Inspect)
    } else if s == "time"@ {
        Some(Format::Time)
    } else if s == "timestamp"@ {
        Some(Format::Timestamp)
    } else if s == "payload"@ {
        Some(Format::Payload)
    } else if s == "raw"@ {
        Some(Format::Raw)
    } else if s == "template"@ {
        Some(Format::Template)
    } else {
        None
    }
}

/// The message for a name that is no format.
pub open spec fn unknown_format_message(s: Seq<char>) -> Seq<char> {
    "unknown format '"@ + s
        + "': expected string, inspect, time, timestamp, payload, raw, or template"@
}

/// Whether two byte strings are equal.
fn bytes_equal(a: &[u8], b: &[u8]) -> (r: bool)
    ensures
        r == (a@ == b@),
{
    if a.len() != b.len() {
        return false;
    }
    let mut i: usize = 0;
    while i < a.len()
        invariant
            i <= a@.len(),
            a@.len() == b@.len(),
            forall|j: int| 0 <= j < i ==> a@[j] == b@[j],
        decreases a@.len() - i,
    {
        if a[i] != b[i] {
            return false;
        }
        i += 1;
    }
    assert(a@ =~= b@);
    true
}

/// Whether two strings hold the same characters.
fn str_equal(a: &str, b: &str) -> (r: bool)
    ensures
        r == (a@ == b@),
{
    let r = bytes_equal(a.as_bytes(), b.as_bytes());
    proof {
        encode_utf8_decode_utf8(a@);
        encode_utf8_decode_utf8(b@);
    }
    r
}

/// Reads an output format name.
pub fn parse_format(s: &str) -> (r: Result<Format, String>)
    ensures
        spec_format(s@) matches Some(f) ==> r == Ok::<Format, String>(f),
        spec_format(s@) is None ==> (r matches Err(msg) && msg@ == unknown_format_message(s@)),
{
    if str_equal(s, "string") {
        Ok(Format::String)
    } else if str_equal(s, "inspect") {
        Ok(Format::Inspect)
    } else if str_equal(s, "time") {
        Ok(Format::Time)
    } else if str_equal(s, "timestamp") {
        Ok(Format::Timestamp)
    } else if str_equal(s, "payload") {
        Ok(Format::Payload)
    } else if str_equal(s, "raw") {
        Ok(Format::Raw)
    } else if str_equal(s, "template") {
        Ok(Format::Template)
    } else {
        let mut msg = String::from_str("unknown format '");
        msg.append(s);
        msg.append("': expected string, inspect, time, timestamp, payload, raw, or template");
        Err(msg)
    }
}

/// The uppercase hex digit of a nibble.
pub fn hex_upper(nibble: u8) -> (c: char)
    requires
        nibble <= 190,
    ensures
        c == (if nibble < 10 {
            (48 + nibble) as char
        } else {
            (55 + nibble) as char
        }),
{
    if nibble < 10 {
        (48u8 + nibble) as char
    } else {
        (65u8 + nibble - 10) as char
    }
}

/// The payload of a KSUID as 32 uppercase hex digits.
pub fn payload_hex(k: &Ksuid) -> (s: String)
    ensures
        s@ == ascii_chars(spec_hex(k.spec_payload())),
{
    let p = k.payload();
    let mut v: Vec<u8> = Vec::with_capacity(32);
    let mut i: usize = 0;
    while i < 16
        invariant
            i <= 16,
            p@.len() == 16,
            v@ == spec_hex(p@.take(i as int)),
        decreases 16 - i,
    {
        let b = p[i];
        v.push(crate::hex_upper_byte(b / 16));
        v.push(crate::hex_upper_byte(b % 16));
        proof {
            assert(spec_hex(p@.take(i + 1)) =~= spec_hex(p@.take(i as int)).push(
                hex_char(b as nat / 16),
            ).push(hex_char(b as nat % 16))) by {
                let t = p@.take(i as int);
                let t1 = p@.take(i + 1);
                assert forall|j: int| 0 <= j < 2 * i implies #[trigger] spec_hex(t1)[j]
                    == spec_hex(t)[j] by {
                    assert(t1[j / 2] == t[j / 2]);
                }
            }
        }
        i += 1;
    }
    proof {
        assert(p@.take(16) =~= p@);
        crate::lemma_hex_ascii(p@);
    }
    ascii_string(v)
}


/// `s` with each occurrence of `pat` replaced by `rep`, occurrences taken
/// from the left and not overlapping.
pub open spec fn replace_all(s: Seq<char>, pat: Seq<char>, rep: Seq<char>) -> Seq<char>
    decreases s.len(),
{
    if pat.len() == 0 || s.len() < pat.len() {
        s
    } else if s.take(pat.len() as int) == pat {
        rep + replace_all(s.skip(pat.len() as int), pat, rep)
    } else {
        seq![s[0]] + replace_all(s.skip(1), pat, rep)
    }
}

/// The output of a template: its placeholders, with and without inner
/// spaces, replaced by the fields of a KSUID.
pub open spec fn render_template(
    template: Seq<char>,
    string: Seq<char>,
    raw: Seq<char>,
    time: Seq<char>,
    timestamp: Seq<char>,
    payload: Seq<char>,
) -> Seq<char> {
    let t = replace_all(template, "{{ .String }}"@, string);
    let t = replace_all(t, "{{ .Raw }}"@, raw);
    let t = replace_all(t, "{{ .Time }}"@, time);
    let t = replace_all(t, "{{ .Timestamp }}"@, timestamp);
    let t = replace_all(t, "{{ .Payload }}"@, payload);
    let t = replace_all(t, "{{.String}}"@, string);
    let t = replace_all(t, "{{.Raw}}"@, raw);
    let t = replace_all(t, "{{.Time}}"@, time);
    let t = replace_all(t, "{{.Timestamp}}"@, timestamp);
    replace_all(t, "{{.Payload}}"@, payload)
}

/// The characters of a string.
fn str_chars(s: &str) -> (v: Vec<char>)
    ensures
        v@ == s@,
{
    let n = s.unicode_len();
    let mut v: Vec<char> = Vec::new();
    let mut i: usize = 0;
    while i < n
        invariant
            i <= n,
            n == s@.len(),
            v@ == s@.take(i as int),
        decreases n - i,
    {
        v.push(s.get_char(i));
        i += 1;
        assert(v@ =~= s@.take(i as int));
    }
    assert(s@.take(n as int) =~= s@);
    v
}

/// The string of the characters `v`.
fn chars_string(v: &Vec<char>) -> (s: String)
    ensures
        s@ == v@,
{
    let mut s = String::new();
    let mut i: usize = 0;
    while i < v.len()
        invariant
            i <= v@.len(),
            s@ == v@.take(i as int),
        decreases v@.len() - i,
    {
        let c = char_string(v[i]);
        s.append(c.as_str());
        i += 1;
        assert(s@ =~= v@.take(i as int));
    }
    assert(v@.take(v@.len() as int) =~= v@);
    s
}

/// Whether `pat` occurs in `s` at `i`.
fn matches_at(s: &Vec<char>, i: usize, pat: &Vec<char>) -> (r: bool)
    requires
        i + pat@.len() <= s@.len(),
    ensures
        r == (s@.subrange(i as int, i + pat@.len()) == pat@),
{
    let mut j: usize = 0;
    while j < pat.len()
        invariant
            j <= pat@.len(),
            i + pat@.len() <= s.len(),
            forall|k: int| 0 <= k < j ==> s@[i + k] == pat@[k],
        decreases pat@.len() - j,
    {
        if s[i + j] != pat[j] {
            assert(s@.subrange(i as int, i + pat@.len())[j as int] != pat@[j as int]);
            return false;
        }
        j += 1;
    }
    assert(s@.subrange(i as int, i + pat@.len()) =~= pat@);
    true
}

/// `s` with each occurrence of `pat` replaced by `rep`.
fn replace_chars(s: &Vec<char>, pat: &Vec<char>, rep: &Vec<char>) -> (r: Vec<char>)
    requires
        pat@.len() > 0,
    ensures
        r@ == replace_all(s@, pat@, rep@),
{
    let mut out: Vec<char> = Vec::new();
    let mut i: usize = 0;
    assert(s@.skip(0) =~= s@);
    while pat.len() <= s.len() - i
        invariant
            i <= s@.len(),
            pat@.len() > 0,
            out@ + replace_all(s@.skip(i as int), pat@, rep@) == replace_all(s@, pat@, rep@),
        decreases s@.len() - i,
    {
        let ghost t = s@.skip(i as int);
        assert(t.take(pat@.len() as int) =~= s@.subrange(i as int, i + pat@.len()));
        if matches_at(s, i, pat) {
            let mut k: usize = 0;
            let ghost before = out@;
            while k < rep.len()
                invariant
                    k <= rep@.len(),
                    out@ == before + rep@.take(k as int),
                decreases rep@.len() - k,
            {
                out.push(rep[k]);
                k += 1;
                assert(out@ =~= before + rep@.take(k as int));
            }
            assert(rep@.take(rep@.len() as int) =~= rep@);
            assert(t.skip(pat@.len() as int) =~= s@.skip(i + pat@.len()));
            assert(before + (rep@ + replace_all(s@.skip(i + pat@.len()), pat@, rep@)) =~= out@
                + replace_all(s@.skip(i + pat@.len()), pat@, rep@));
            i += pat.len();
        } else {
            out.push(s[i]);
            assert(t.skip(1) =~= s@.skip(i + 1));
            assert(t[0] == s@[i as int]);
            assert(out@ + replace_all(s@.skip(i + 1), pat@, rep@) =~= out@.drop_last() + (seq![t[0]]
                + replace_all(t.skip(1), pat@, rep@)));
            i += 1;
        }
    }
    let ghost mid = out@;
    assert(replace_all(s@.skip(i as int), pat@, rep@) == s@.skip(i as int));
    while i < s.len()
        invariant
            i <= s@.len(),
            out@ + s@.skip(i as int) == replace_all(s@, pat@, rep@),
        decreases s@.len() - i,
    {
        out.push(s[i]);
        assert(out@ + s@.skip(i + 1) =~= out@.drop_last() + s@.skip(i as int));
        i += 1;
    }
    assert(out@ + s@.skip(i as int) =~= out@);
    out
}


/// Replaces the placeholders of `template` by the given fields.
pub fn render(
    template: &str,
    string: &str,
    raw: &str,
    time: &str,
    timestamp: &str,
    payload: &str,
) -> (out: String)
    ensures
        out@ == render_template(template@, string@, raw@, time@, timestamp@, payload@),
{
    proof {
        reveal_strlit("{{ .String }}");
        reveal_strlit("{{ .Raw }}");
        reveal_strlit("{{ .Time }}");
        reveal_strlit("{{ .Timestamp }}");
        reveal_strlit("{{ .Payload }}");
        reveal_strlit("{{.String}}");
        reveal_strlit("{{.Raw}}");
        reveal_strlit("{{.Time}}");
        reveal_strlit("{{.Timestamp}}");
        reveal_strlit("{{.Payload}}");
    }
    let string = str_chars(string);
    let raw = str_chars(raw);
    let time = str_chars(time);
    let timestamp = str_chars(timestamp);
    let payload = str_chars(payload);
    let t = str_chars(template);
    let t = replace_chars(&t, &str_chars("{{ .String }}"), &string);
    let t = replace_chars(&t, &str_chars("{{ .Raw }}"), &raw);
    let t = replace_chars(&t, &str_chars("{{ .Time }}"), &time);
    let t = replace_chars(&t, &str_chars("{{ .Timestamp }}"), &timestamp);
    let t = replace_chars(&t, &str_chars("{{ .Payload }}"), &payload);
    let t = replace_chars(&t, &str_chars("{{.String}}"), &string);
    let t = replace_chars(&t, &str_chars("{{.Raw}}"), &raw);
    let t = replace_chars(&t, &str_chars("{{.Time}}"), &time);
    let t = replace_chars(&t, &str_chars("{{.Timestamp}}"), &timestamp);
    let t = replace_chars(&t, &str_chars("{{.Payload}}"), &payload);
    chars_string(&t)
}

/// What the tool prints for a KSUID in a format (without the final line
/// break), given the text of the KSUID's time.
pub open spec fn spec_output(
    k: Ksuid,
    format: Format,
    template: Option<Seq<char>>,
    time: Seq<char>,
) -> Seq<char> {
    let string = ascii_chars(spec_encode(k@));
    let raw = ascii_chars(spec_hex(k@));
    let timestamp = ascii_chars(decimal(k.spec_timestamp()));
    let payload = ascii_chars(spec_hex(k.spec_payload()));
    match format {
        Format::String => string,
        Format::Inspect => "\nREPRESENTATION:\n\n  String: "@ + string + "\n     Raw: "@ + raw
            + "\n\nCOMPONENTS:\n\n       Time: "@ + time + "\n  Timestamp: "@ + timestamp
            + "\n    Payload: "@ + payload,
        Format::Time => time,
        Format::Timestamp => timestamp,
        Format::Payload => payload,
        Format::Raw => raw,
        Format::Template => render_template(
            match template {
                Some(t) => t,
                None => Seq::empty(),
            },
            string,
            raw,
            time,
            timestamp,
            payload,
        ),
    }
}

/// What the tool prints for the KSUID `k` in `format` (without the final
/// line break); a template format with no template renders the empty one.
pub fn format_ksuid(k: &Ksuid, format: Format, template: Option<&str>) -> (out: String)
    ensures
        exists|c: CivilTime|
            is_civil_time_of(c, as_signed((k.spec_timestamp() + EPOCH) as u64)) && out@
                == spec_output(
                *k,
                format,
                match template {
                    Some(t) => Some(t@),
                    None => None,
                },
                ascii_chars(civil_text(c)),
            ),
{
    let string = k.to_string();
    let raw = k.to_hex();
    let time = rfc3339(k.time());
    let timestamp = decimal_string(k.timestamp() as u64);
    let payload = payload_hex(k);
    match format {
        Format::String => string,
        Format::Inspect => {
            let mut out = String::from_str("\nREPRESENTATION:\n\n  String: ");
            out.append(string.as_str());
            out.append("\n     Raw: ");
            out.append(raw.as_str());
            out.append("\n\nCOMPONENTS:\n\n       Time: ");
            out.append(time.as_str());
            out.append("\n  Timestamp: ");
            out.append(timestamp.as_str());
            out.append("\n    Payload: ");
            out.append(payload.as_str());
            out
        },
        Format::Time => time,
        Format::Timestamp => timestamp,
        Format::Payload => payload,
        Format::Raw => raw,
        Format::Template => {
            let t: &str = match template {
                Some(t) => t,
                None => "",
            };
            proof {
                reveal_strlit("");
            }
            render(
                t,
                string.as_str(),
                raw.as_str(),
                time.as_str(),
                timestamp.as_str(),
                payload.as_str(),
            )
        },
    }
}


/// Whether `c` is an ASCII decimal digit.
pub open spec fn is_digit(c: char) -> bool {
    '0' <= c <= '9'
}

/// The number that the decimal digits `d` spell.
pub open spec fn digits_value(d: Seq<char>) -> nat
    decreases d.len(),
{
    if d.len() == 0 {
        0
    } else {
        digits_value(d.drop_last()) * 10 + (d.last() as int - 48) as nat
    }
}

/// The digits of a `-n` value: all of it but a leading `+`.
pub open spec fn count_digits(s: Seq<char>) -> Seq<char> {
    if s.len() > 0 && s[0] == '+' {
        s.skip(1)
    } else {
        s
    }
}

/// Whether every character of `d` is a decimal digit.
pub open spec fn all_digits(d: Seq<char>) -> bool {
    forall|i: int| 0 <= i < d.len() ==> is_digit(#[trigger] d[i])
}

/// The count that a `-n` value stands for, as `usize`'s `from_str` reads
/// it: an optional `+`, then one or more decimal digits, the number fitting
/// in a `usize`.
pub open spec fn spec_parse_count(s: Seq<char>) -> Option<nat> {
    let d = count_digits(s);
    if d.len() > 0 && all_digits(d) && digits_value(d) <= usize::MAX {
        Some(digits_value(d))
    } else {
        None
    }
}

/// A number only grows as digits are added to its end.
proof fn lemma_digits_value_prefix(d: Seq<char>, k: int)
    requires
        0 <= k <= d.len(),
        all_digits(d),
    ensures
        digits_value(d.take(k)) <= digits_value(d),
    decreases d.len(),
{
    if k == d.len() {
        assert(d.take(k) =~= d);
    } else {
        let e = d.drop_last();
        assert(e.take(k) =~= d.take(k));
        assert(is_digit(d[d.len() - 1]));
        lemma_digits_value_prefix(e, k);
    }
}

/// Reads a `-n` value.
pub fn parse_count(s: &str) -> (r: Option<usize>)
    ensures
        match r {
            Some(n) => spec_parse_count(s@) == Some(n as nat),
            None => spec_parse_count(s@) is None,
        },
{
    let c = str_chars(s);
    let start: usize = if c.len() > 0 && c[0] == '+' {
        1
    } else {
        0
    };
    let ghost d = count_digits(s@);
    assert(d =~= c@.subrange(start as int, c@.len() as int));
    if start >= c.len() {
        return None;
    }
    let mut v: usize = 0;
    let mut i: usize = start;
    while i < c.len()
        invariant
            start <= i <= c@.len(),
            d == c@.subrange(start as int, c@.len() as int),
            d == count_digits(s@),
            v == digits_value(d.take(i - start)),
            forall|j: int| 0 <= j < i - start ==> is_digit(#[trigger] d[j]),
        decreases c@.len() - i,
    {
        let ch = c[i];
        if !('0' <= ch && ch <= '9') {
            assert(!is_digit(d[i - start]));
            return None;
        }
        let digit: usize = (ch as u32 - 48) as usize;
        assert(d.take(i - start + 1).drop_last() =~= d.take(i - start));
        let next = match v.checked_mul(10) {
            Some(t) => t.checked_add(digit),
            None => None,
        };
        match next {
            Some(n) => {
                v = n;
            },
            None => {
                proof {
                    if all_digits(d) {
                        lemma_digits_value_prefix(d, i - start + 1);
                    }
                }
                return None;
            },
        }
        i += 1;
    }
    assert(d.take(i - start) =~= d);
    Some(v)
}


/// The settings of a run that generates or inspects KSUIDs.
#[derive(Debug, Clone, PartialEq, Eq)]
pub struct RunOptions {
    /// How many KSUIDs to generate.
    pub count: usize,
    pub format: Format,
    pub template: Option<String>,
    /// KSUIDs to inspect; none means generate.
    pub ksuids: Vec<String>,
}

/// What the command line asks for.
#[derive(Debug, Clone, PartialEq, Eq)]
pub enum Command {
    Help,
    Version,
    Run(RunOptions),
}

/// What the command line asks for, over the characters of its strings; a
/// refused command line gives the message to print.
pub enum ArgsOutcome {
    Help,
    Version,
    Run { count: nat, format: Format, template: Option<Seq<char>>, ksuids: Seq<Seq<char>> },
    Fail(Seq<char>),
}

/// The outcome of the arguments from `i` on, given the settings read so far.
pub open spec fn args_from(
    args: Seq<Seq<char>>,
    i: nat,
    count: nat,
    format: Format,
    template: Option<Seq<char>>,
    ksuids: Seq<Seq<char>>,
) -> ArgsOutcome
    decreases args.len() - i,
{
    if i >= args.len() {
        if format == Format::Template && template is None {
            ArgsOutcome::Fail("-f template requires -t <template>"@)
        } else {
            ArgsOutcome::Run { count, format, template, ksuids }
        }
    } else {
        let a = args[i as int];
        if a == "-h"@ || a == "--help"@ {
            ArgsOutcome::Help
        } else if a == "-v"@ || a == "--version"@ {
            ArgsOutcome::Version
        } else if a == "-n"@ {
            if i + 1 >= args.len() {
                ArgsOutcome::Fail("-n requires a value"@)
            } else {
                match spec_parse_count(args[i + 1 as int]) {
                    Some(n) => if n > 0 {
                        args_from(args, i + 2, n, format, template, ksuids)
                    } else {
                        ArgsOutcome::Fail("-n must be a positive integer"@)
                    },
                    None => ArgsOutcome::Fail("-n must be a positive integer"@),
                }
            }
        } else if a == "-f"@ {
            if i + 1 >= args.len() {
                ArgsOutcome::Fail("-f requires a value"@)
            } else {
                match spec_format(args[i + 1 as int]) {
                    Some(f) => args_from(args, i + 2, count, f, template, ksuids),
                    None => ArgsOutcome::Fail(unknown_format_message(args[i + 1 as int])),
                }
            }
        } else if a == "-t"@ {
            if i + 1 >= args.len() {
                ArgsOutcome::Fail("-t requires a value"@)
            } else {
                args_from(args, i + 2, count, format, Some(args[i + 1 as int]), ksuids)
            }
        } else if a.len() > 0 && a[0] == '-' {
            ArgsOutcome::Fail("unknown flag '"@ + a + "'"@)
        } else {
            args_from(args, i + 1, count, format, template, ksuids.push(a))
        }
    }
}

/// The characters of each string.
pub open spec fn string_views(v: Seq<String>) -> Seq<Seq<char>> {
    v.map_values(|s: String| s@)
}

/// The characters of an optional string.
pub open spec fn option_view(o: Option<String>) -> Option<Seq<char>> {
    match o {
        Some(s) => Some(s@),
        None => None,
    }
}

/// The outcome that a result of `parse_args` stands for.
pub open spec fn outcome_of(r: Result<Command, String>) -> ArgsOutcome {
    match r {
        Ok(Command::Help) => ArgsOutcome::Help,
        Ok(Command::Version) => ArgsOutcome::Version,
        Ok(Command::Run(o)) => ArgsOutcome::Run {
            count: o.count as nat,
            format: o.format,
            template: option_view(o.template),
            ksuids: string_views(o.ksuids@),
        },
        Err(m) => ArgsOutcome::Fail(m@),
    }
}

/// Whether the string `a` starts with `-`.
fn starts_with_dash(a: &str) -> (r: bool)
    ensures
        r == (a@.len() > 0 && a@[0] == '-'),
{
    a.unicode_len() > 0 && a.get_char(0) == '-'
}

/// Reads the command-line arguments (without the program name): a help or
/// version flag ends the reading; `-n`, `-f` and `-t` take the next argument
/// as their value; other flags are refused; the rest are KSUIDs to inspect.
pub fn parse_args(args: &Vec<String>) -> (r: Result<Command, String>)
    ensures
        outcome_of(r) == args_from(string_views(args@), 0, 1, Format::String, None, Seq::empty()),
{
    proof {
        reveal_strlit("-h");
        reveal_strlit("--help");
        reveal_strlit("-v");
        reveal_strlit("--version");
        reveal_strlit("-n");
        reveal_strlit("-f");
        reveal_strlit("-t");
    }
    let ghost argv = string_views(args@);
    let mut count: usize = 1;
    let mut format = Format::String;
    let mut template: Option<String> = None;
    let mut ksuids: Vec<String> = Vec::new();
    let mut i: usize = 0;
    assert(string_views(ksuids@) =~= Seq::<Seq<char>>::empty());
    while i < args.len()
        invariant
            i <= args@.len(),
            argv == string_views(args@),
            args_from(argv, i as nat, count as nat, format, option_view(template), string_views(ksuids@))
                == args_from(argv, 0, 1, Format::String, None, Seq::empty()),
        decreases args@.len() - i,
    {
        let a = args[i].as_str();
        assert(a@ == argv[i as int]);
        if str_equal(a, "-h") || str_equal(a, "--help") {
            return Ok(Command::Help);
        } else if str_equal(a, "-v") || str_equal(a, "--version") {
            return Ok(Command::Version);
        } else if str_equal(a, "-n") {
            if i + 1 >= args.len() {
                return Err(String::from_str("-n requires a value"));
            }
            assert(args[i + 1]@ == argv[i + 1]);
            match parse_count(args[i + 1].as_str()) {
                Some(n) => {
                    if n == 0 {
                        return Err(String::from_str("-n must be a positive integer"));
                    }
                    count = n;
                },
                None => {
                    return Err(String::from_str("-n must be a positive integer"));
                },
            }
            i += 2;
        } else if str_equal(a, "-f") {
            if i + 1 >= args.len() {
                return Err(String::from_str("-f requires a value"));
            }
            assert(args[i + 1]@ == argv[i + 1]);
            match parse_format(args[i + 1].as_str()) {
                Ok(f) => {
                    format = f;
                },
                Err(e) => {
                    return Err(e);
                },
            }
            i += 2;
        } else if str_equal(a, "-t") {
            if i + 1 >= args.len() {
                return Err(String::from_str("-t requires a value"));
            }
            assert(args[i + 1]@ == argv[i + 1]);
            template = Some(args[i + 1].clone());
            i += 2;
        } else if starts_with_dash(a) {
            let mut msg = String::from_str("unknown flag '");
            msg.append(a);
            msg.append("'");
            return Err(msg);
        } else {
            let ghost old_ksuids = ksuids@;
            ksuids.push(args[i].clone());
            assert(string_views(ksuids@) =~= string_views(old_ksuids).push(a@));
            i += 1;
        }
    }
    match format {
        Format::Template => {
            if template.is_none() {
                return Err(String::from_str("-f template requires -t <template>"));
            }
        },
        _ => {},
    }
    Ok(Command::Run(RunOptions { count, format, template, ksuids }))
}


/// Whether no character of `s` is `{`.
pub open spec fn no_brace(s: Seq<char>) -> bool {
    forall|i: int| 0 <= i < s.len() ==> s[i] != '{'
}

/// Whether `s` holds no two `{` in a row.
pub open spec fn no_double_brace(s: Seq<char>) -> bool {
    forall|i: int| 0 <= i < s.len() - 1 ==> !(#[trigger] s[i] == '{' && s[i + 1] == '{')
}

/// Whether `p` starts with `{{`.
pub open spec fn opens_with_braces(p: Seq<char>) -> bool {
    p.len() >= 2 && p[0] == '{' && p[1] == '{'
}

/// A pattern replaced in itself gives the replacement.
proof fn lemma_replace_whole(p: Seq<char>, r: Seq<char>)
    requires
        p.len() > 0,
    ensures
        replace_all(p, p, r) == r,
{
    assert(p.take(p.len() as int) =~= p);
    assert(p.skip(p.len() as int) =~= Seq::<char>::empty());
    assert(replace_all(Seq::<char>::empty(), p, r) == Seq::<char>::empty());
    assert(r + Seq::<char>::empty() =~= r);
}

/// Text without `{{` holds no pattern that opens with `{{`, so nothing in it
/// is replaced.
proof fn lemma_replace_no_double(s: Seq<char>, p: Seq<char>, r: Seq<char>)
    requires
        opens_with_braces(p),
        no_double_brace(s),
    ensures
        replace_all(s, p, r) == s,
    decreases s.len(),
{
    if s.len() >= p.len() {
        assert(s.take(p.len() as int)[0] == s[0]);
        assert(s.take(p.len() as int)[1] == s[1]);
        assert(s.take(p.len() as int) != p);
        let t = s.skip(1);
        assert forall|i: int| 0 <= i < t.len() - 1 implies !(#[trigger] t[i] == '{' && t[i + 1] == '{') by {
            assert(t[i] == s[i + 1] && t[i + 1] == s[i + 2]);
        }
        lemma_replace_no_double(t, p, r);
        assert(seq![s[0]] + t =~= s);
    }
}

/// A placeholder that differs from the pattern at `m` (or is shorter), and
/// has no `{` past its opening two, holds no occurrence of the pattern.
proof fn lemma_replace_other(s: Seq<char>, p: Seq<char>, r: Seq<char>, m: int)
    requires
        opens_with_braces(p),
        opens_with_braces(s),
        s[2] != '{',
        forall|i: int| 2 <= i < s.len() ==> #[trigger] s[i] != '{',
        s.len() < p.len() || (0 <= m < p.len() && m < s.len() && s[m] != p[m]),
    ensures
        replace_all(s, p, r) == s,
{
    if s.len() >= p.len() {
        assert(s.take(p.len() as int)[m] == s[m]);
        let t = s.skip(1);
        assert forall|i: int| 0 <= i < t.len() - 1 implies !(#[trigger] t[i] == '{' && t[i + 1] == '{') by {
            assert(t[i] == s[i + 1] && t[i + 1] == s[i + 2]);
        }
        lemma_replace_no_double(t, p, r);
        assert(seq![s[0]] + t =~= s);
    }
}

/// Law: each of the ten placeholders, with and without inner spaces, renders
/// as its field: a template that is one placeholder prints exactly that
/// field (fields hold no `{`, as KSUID strings, hex, digits and times do not).
pub proof fn lemma_placeholders_render(
    string: Seq<char>,
    raw: Seq<char>,
    time: Seq<char>,
    timestamp: Seq<char>,
    payload: Seq<char>,
)
    requires
        no_brace(string),
        no_brace(raw),
        no_brace(time),
        no_brace(timestamp),
        no_brace(payload),
    ensures
        render_template("{{ .String }}"@, string, raw, time, timestamp, payload) == string,
        render_template("{{ .Raw }}"@, string, raw, time, timestamp, payload) == raw,
        render_template("{{ .Time }}"@, string, raw, time, timestamp, payload) == time,
        render_template("{{ .Timestamp }}"@, string, raw, time, timestamp, payload) == timestamp,
        render_template("{{ .Payload }}"@, string, raw, time, timestamp, payload) == payload,
        render_template("{{.String}}"@, string, raw, time, timestamp, payload) == string,
        render_template("{{.Raw}}"@, string, raw, time, timestamp, payload) == raw,
        render_template("{{.Time}}"@, string, raw, time, timestamp, payload) == time,
        render_template("{{.Timestamp}}"@, string, raw, time, timestamp, payload) == timestamp,
        render_template("{{.Payload}}"@, string, raw, time, timestamp, payload) == payload,
{
    reveal_strlit("{{ .String }}");
    reveal_strlit("{{ .Raw }}");
    reveal_strlit("{{ .Time }}");
    reveal_strlit("{{ .Timestamp }}");
    reveal_strlit("{{ .Payload }}");
    reveal_strlit("{{.String}}");
    reveal_strlit("{{.Raw}}");
    reveal_strlit("{{.Time}}");
    reveal_strlit("{{.Timestamp}}");
    reveal_strlit("{{.Payload}}");
    assert(no_double_brace(string));
    assert(no_double_brace(raw));
    assert(no_double_brace(time));
    assert(no_double_brace(timestamp));
    assert(no_double_brace(payload));
    assert(opens_with_braces("{{ .String }}"@));
    assert forall|i: int| 2 <= i < 13 implies #[trigger] "{{ .String }}"@[i] != '{' by {
        if i == 2 {
        } else if i == 3 {
        } else if i == 4 {
        } else if i == 5 {
        } else if i == 6 {
        } else if i == 7 {
        } else if i == 8 {
        } else if i == 9 {
        } else if i == 10 {
        } else if i == 11 {
        } else if i == 12 {
        }
    }
    assert(opens_with_braces("{{ .Raw }}"@));
    assert forall|i: int| 2 <= i < 10 implies #[trigger] "{{ .Raw }}"@[i] != '{' by {
        if i == 2 {
        } else if i == 3 {
        } else if i == 4 {
        } else if i == 5 {
        } else if i == 6 {
        } else if i == 7 {
        } else if i == 8 {
        } else if i == 9 {
        }
    }
    assert(opens_with_braces("{{ .Time }}"@));
    assert forall|i: int| 2 <= i < 11 implies #[trigger] "{{ .Time }}"@[i] != '{' by {
        if i == 2 {
        } else if i == 3 {
        } else if i == 4 {
        } else if i == 5 {
        } else if i == 6 {
        } else if i == 7 {
        } else if i == 8 {
        } else if i == 9 {
        } else if i == 10 {
        }
    }
    assert(opens_with_braces("{{ .Timestamp }}"@));
    assert forall|i: int| 2 <= i < 16 implies #[trigger] "{{ .Timestamp }}"@[i] != '{' by {
        if i == 2 {
        } else if i == 3 {
        } else if i == 4 {
        } else if i == 5 {
        } else if i == 6 {
        } else if i == 7 {
        } else if i == 8 {
        } else if i == 9 {
        } else if i == 10 {
        } else if i == 11 {
        } else if i == 12 {
        } else if i == 13 {
        } else if i == 14 {
        } else if i == 15 {
        }
    }
    assert(opens_with_braces("{{ .Payload }}"@));
    assert forall|i: int| 2 <= i < 14 implies #[trigger] "{{ .Payload }}"@[i] != '{' by {
        if i == 2 {
        } else if i == 3 {
        } else if i == 4 {
        } else if i == 5 {
        } else if i == 6 {
        } else if i == 7 {
        } else if i == 8 {
        } else if i == 9 {
        } else if i == 10 {
        } else if i == 11 {
        } else if i == 12 {
        } else if i == 13 {
        }
    }
    assert(opens_with_braces("{{.String}}"@));
    assert forall|i: int| 2 <= i < 11 implies #[trigger] "{{.String}}"@[i] != '{' by {
        if i == 2 {
        } else if i == 3 {
        } else if i == 4 {
        } else if i == 5 {
        } else if i == 6 {
        } else if i == 7 {
        } else if i == 8 {
        } else if i == 9 {
        } else if i == 10 {
        }
    }
    assert(opens_with_braces("{{.Raw}}"@));
    assert forall|i: int| 2 <= i < 8 implies #[trigger] "{{.Raw}}"@[i] != '{' by {
        if i == 2 {
        } else if i == 3 {
        } else if i == 4 {
        } else if i == 5 {
        } else if i == 6 {
        } else if i == 7 {
        }
    }
    assert(opens_with_braces("{{.Time}}"@));
    assert forall|i: int| 2 <= i < 9 implies #[trigger] "{{.Time}}"@[i] != '{' by {
        if i == 2 {
        } else if i == 3 {
        } else if i == 4 {
        } else if i == 5 {
        } else if i == 6 {
        } else if i == 7 {
        } else if i == 8 {
        }
    }
    assert(opens_with_braces("{{.Timestamp}}"@));
    assert forall|i: int| 2 <= i < 14 implies #[trigger] "{{.Timestamp}}"@[i] != '{' by {
        if i == 2 {
        } else if i == 3 {
        } else if i == 4 {
        } else if i == 5 {
        } else if i == 6 {
        } else if i == 7 {
        } else if i == 8 {
        } else if i == 9 {
        } else if i == 10 {
        } else if i == 11 {
        } else if i == 12 {
        } else if i == 13 {
        }
    }
    assert(opens_with_braces("{{.Payload}}"@));
    assert forall|i: int| 2 <= i < 12 implies #[trigger] "{{.Payload}}"@[i] != '{' by {
        if i == 2 {
        } else if i == 3 {
        } else if i == 4 {
        } else if i == 5 {
        } else if i == 6 {
        } else if i == 7 {
        } else if i == 8 {
        } else if i == 9 {
        } else if i == 10 {
        } else if i == 11 {
        }
    }
    // (( .String ))
    lemma_replace_whole("{{ .String }}"@, string);
    lemma_replace_no_double(string, "{{ .Raw }}"@, raw);
    lemma_replace_no_double(string, "{{ .Time }}"@, time);
    lemma_replace_no_double(string, "{{ .Timestamp }}"@, timestamp);
    lemma_replace_no_double(string, "{{ .Payload }}"@, payload);
    lemma_replace_no_double(string, "{{.String}}"@, string);
    lemma_replace_no_double(string, "{{.Raw}}"@, raw);
    lemma_replace_no_double(string, "{{.Time}}"@, time);
    lemma_replace_no_double(string, "{{.Timestamp}}"@, timestamp);
    lemma_replace_no_double(string, "{{.Payload}}"@, payload);
    // (( .Raw ))
    lemma_replace_other("{{ .Raw }}"@, "{{ .String }}"@, string, 0);
    lemma_replace_whole("{{ .Raw }}"@, raw);
    lemma_replace_no_double(raw, "{{ .Time }}"@, time);
    lemma_replace_no_double(raw, "{{ .Timestamp }}"@, timestamp);
    lemma_replace_no_double(raw, "{{ .Payload }}"@, payload);
    lemma_replace_no_double(raw, "{{.String}}"@, string);
    lemma_replace_no_double(raw, "{{.Raw}}"@, raw);
    lemma_replace_no_double(raw, "{{.Time}}"@, time);
    lemma_replace_no_double(raw, "{{.Timestamp}}"@, timestamp);
    lemma_replace_no_double(raw, "{{.Payload}}"@, payload);
    // (( .Time ))
    lemma_replace_other("{{ .Time }}"@, "{{ .String }}"@, string, 0);
    lemma_replace_other("{{ .Time }}"@, "{{ .Raw }}"@, raw, 4);
    lemma_replace_whole("{{ .Time }}"@, time);
    lemma_replace_no_double(time, "{{ .Timestamp }}"@, timestamp);
    lemma_replace_no_double(time, "{{ .Payload }}"@, payload);
    lemma_replace_no_double(time, "{{.String}}"@, string);
    lemma_replace_no_double(time, "{{.Raw}}"@, raw);
    lemma_replace_no_double(time, "{{.Time}}"@, time);
    lemma_replace_no_double(time, "{{.Timestamp}}"@, timestamp);
    lemma_replace_no_double(time, "{{.Payload}}"@, payload);
    // (( .Timestamp ))
    lemma_replace_other("{{ .Timestamp }}"@, "{{ .String }}"@, string, 4);
    lemma_replace_other("{{ .Timestamp }}"@, "{{ .Raw }}"@, raw, 4);
    lemma_replace_other("{{ .Timestamp }}"@, "{{ .Time }}"@, time, 8);
    lemma_replace_whole("{{ .Timestamp }}"@, timestamp);
    lemma_replace_no_double(timestamp, "{{ .Payload }}"@, payload);
    lemma_replace_no_double(timestamp, "{{.String}}"@, string);
    lemma_replace_no_double(timestamp, "{{.Raw}}"@, raw);
    lemma_replace_no_double(timestamp, "{{.Time}}"@, time);
    lemma_replace_no_double(timestamp, "{{.Timestamp}}"@, timestamp);
    lemma_replace_no_double(timestamp, "{{.Payload}}"@, payload);
    // (( .Payload ))
    lemma_replace_other("{{ .Payload }}"@, "{{ .String }}"@, string, 4);
    lemma_replace_other("{{ .Payload }}"@, "{{ .Raw }}"@, raw, 4);
    lemma_replace_other("{{ .Payload }}"@, "{{ .Time }}"@, time, 4);
    lemma_replace_other("{{ .Payload }}"@, "{{ .Timestamp }}"@, timestamp, 0);
    lemma_replace_whole("{{ .Payload }}"@, payload);
    lemma_replace_no_double(payload, "{{.String}}"@, string);
    lemma_replace_no_double(payload, "{{.Raw}}"@, raw);
    lemma_replace_no_double(payload, "{{.Time}}"@, time);
    lemma_replace_no_double(payload, "{{.Timestamp}}"@, timestamp);
    lemma_replace_no_double(payload, "{{.Payload}}"@, payload);
    // ((.String))
    lemma_replace_other("{{.String}}"@, "{{ .String }}"@, string, 0);
    lemma_replace_other("{{.String}}"@, "{{ .Raw }}"@, raw, 2);
    lemma_replace_other("{{.String}}"@, "{{ .Time }}"@, time, 2);
    lemma_replace_other("{{.String}}"@, "{{ .Timestamp }}"@, timestamp, 0);
    lemma_replace_other("{{.String}}"@, "{{ .Payload }}"@, payload, 0);
    lemma_replace_whole("{{.String}}"@, string);
    lemma_replace_no_double(string, "{{.Raw}}"@, raw);
    lemma_replace_no_double(string, "{{.Time}}"@, time);
    lemma_replace_no_double(string, "{{.Timestamp}}"@, timestamp);
    lemma_replace_no_double(string, "{{.Payload}}"@, payload);
    // ((.Raw))
    lemma_replace_other("{{.Raw}}"@, "{{ .String }}"@, string, 0);
    lemma_replace_other("{{.Raw}}"@, "{{ .Raw }}"@, raw, 0);
    lemma_replace_other("{{.Raw}}"@, "{{ .Time }}"@, time, 0);
    lemma_replace_other("{{.Raw}}"@, "{{ .Timestamp }}"@, timestamp, 0);
    lemma_replace_other("{{.Raw}}"@, "{{ .Payload }}"@, payload, 0);
    lemma_replace_other("{{.Raw}}"@, "{{.String}}"@, string, 0);
    lemma_replace_whole("{{.Raw}}"@, raw);
    lemma_replace_no_double(raw, "{{.Time}}"@, time);
    lemma_replace_no_double(raw, "{{.Timestamp}}"@, timestamp);
    lemma_replace_no_double(raw, "{{.Payload}}"@, payload);
    // ((.Time))
    lemma_replace_other("{{.Time}}"@, "{{ .String }}"@, string, 0);
    lemma_replace_other("{{.Time}}"@, "{{ .Raw }}"@, raw, 0);
    lemma_replace_other("{{.Time}}"@, "{{ .Time }}"@, time, 0);
    lemma_replace_other("{{.Time}}"@, "{{ .Timestamp }}"@, timestamp, 0);
    lemma_replace_other("{{.Time}}"@, "{{ .Payload }}"@, payload, 0);
    lemma_replace_other("{{.Time}}"@, "{{.String}}"@, string, 0);
    lemma_replace_other("{{.Time}}"@, "{{.Raw}}"@, raw, 3);
    lemma_replace_whole("{{.Time}}"@, time);
    lemma_replace_no_double(time, "{{.Timestamp}}"@, timestamp);
    lemma_replace_no_double(time, "{{.Payload}}"@, payload);
    // ((.Timestamp))
    lemma_replace_other("{{.Timestamp}}"@, "{{ .String }}"@, string, 2);
    lemma_replace_other("{{.Timestamp}}"@, "{{ .Raw }}"@, raw, 2);
    lemma_replace_other("{{.Timestamp}}"@, "{{ .Time }}"@, time, 2);
    lemma_replace_other("{{.Timestamp}}"@, "{{ .Timestamp }}"@, timestamp, 0);
    lemma_replace_other("{{.Timestamp}}"@, "{{ .Payload }}"@, payload, 2);
    lemma_replace_other("{{.Timestamp}}"@, "{{.String}}"@, string, 3);
    lemma_replace_other("{{.Timestamp}}"@, "{{.Raw}}"@, raw, 3);
    lemma_replace_other("{{.Timestamp}}"@, "{{.Time}}"@, time, 7);
    lemma_replace_whole("{{.Timestamp}}"@, timestamp);
    lemma_replace_no_double(timestamp, "{{.Payload}}"@, payload);
    // ((.Payload))
    lemma_replace_other("{{.Payload}}"@, "{{ .String }}"@, string, 0);
    lemma_replace_other("{{.Payload}}"@, "{{ .Raw }}"@, raw, 2);
    lemma_replace_other("{{.Payload}}"@, "{{ .Time }}"@, time, 2);
    lemma_replace_other("{{.Payload}}"@, "{{ .Timestamp }}"@, timestamp, 0);
    lemma_replace_other("{{.Payload}}"@, "{{ .Payload }}"@, payload, 0);
    lemma_replace_other("{{.Payload}}"@, "{{.String}}"@, string, 3);
    lemma_replace_other("{{.Payload}}"@, "{{.Raw}}"@, raw, 3);
    lemma_replace_other("{{.Payload}}"@, "{{.Time}}"@, time, 3);
    lemma_replace_other("{{.Payload}}"@, "{{.Timestamp}}"@, timestamp, 0);
    lemma_replace_whole("{{.Payload}}"@, payload);
}


/// Whether an argument starts with `-`.
pub open spec fn looks_like_flag(a: Seq<char>) -> bool {
    a.len() > 0 && a[0] == '-'
}

/// The KSUIDs gathered from the arguments from `i` on are arguments that do
/// not start with `-`, added to those gathered before.
proof fn lemma_ksuids_from(
    args: Seq<Seq<char>>,
    i: nat,
    count: nat,
    format: Format,
    template: Option<Seq<char>>,
    ksuids: Seq<Seq<char>>,
)
    requires
        forall|j: int| 0 <= j < ksuids.len() ==> !looks_like_flag(#[trigger] ksuids[j]),
        forall|j: int| 0 <= j < ksuids.len() ==> args.contains(#[trigger] ksuids[j]),
    ensures
        args_from(args, i, count, format, template, ksuids) matches ArgsOutcome::Run {
            ksuids: k,
            ..
        } ==> (forall|j: int| 0 <= j < k.len() ==> !looks_like_flag(#[trigger] k[j]))
            && (forall|j: int| 0 <= j < k.len() ==> args.contains(#[trigger] k[j])),
    decreases args.len() - i,
{
    if i < args.len() {
        let a = args[i as int];
        if a == "-h"@ || a == "--help"@ || a == "-v"@ || a == "--version"@ {
        } else if a == "-n"@ {
            if i + 1 < args.len() {
                if let Some(n) = spec_parse_count(args[i + 1 as int]) {
                    lemma_ksuids_from(args, i + 2, n, format, template, ksuids);
                }
            }
        } else if a == "-f"@ {
            if i + 1 < args.len() {
                if let Some(f) = spec_format(args[i + 1 as int]) {
                    lemma_ksuids_from(args, i + 2, count, f, template, ksuids);
                }
            }
        } else if a == "-t"@ {
            if i + 1 < args.len() {
                lemma_ksuids_from(args, i + 2, count, format, Some(args[i + 1 as int]), ksuids);
            }
        } else if looks_like_flag(a) {
        } else {
            let k2 = ksuids.push(a);
            assert(args.contains(a)) by {
                assert(args[i as int] == a);
            }
            assert forall|j: int| 0 <= j < k2.len() implies !looks_like_flag(#[trigger] k2[j])
                && args.contains(k2[j]) by {
                if j < ksuids.len() {
                    assert(k2[j] == ksuids[j]);
                }
            }
            lemma_ksuids_from(args, i + 1, count, format, template, k2);
        }
    }
}

/// Law: the KSUIDs to inspect are arguments of the command line, and none
/// of them starts with `-`: flags are read as flags wherever they stand.
pub proof fn lemma_ksuids_are_plain_args(args: Seq<Seq<char>>)
    ensures
        args_from(args, 0, 1, Format::String, None, Seq::empty()) matches ArgsOutcome::Run {
            ksuids: k,
            ..
        } ==> (forall|j: int| 0 <= j < k.len() ==> !looks_like_flag(#[trigger] k[j]))
            && (forall|j: int| 0 <= j < k.len() ==> args.contains(#[trigger] k[j])),
{
    lemma_ksuids_from(args, 0, 1, Format::String, None, Seq::empty());
}

/// Reading more arguments after a complete command line carries on from the
/// settings that the command line left.
proof fn lemma_args_extend(
    args: Seq<Seq<char>>,
    tail: Seq<Seq<char>>,
    i: nat,
    count: nat,
    format: Format,
    template: Option<Seq<char>>,
    ksuids: Seq<Seq<char>>,
)
    requires
        i <= args.len(),
    ensures
        args_from(args, i, count, format, template, ksuids) matches ArgsOutcome::Run {
            count: c,
            format: f,
            template: t,
            ksuids: k,
        } ==> args_from(args + tail, i, count, format, template, ksuids) == args_from(
            args + tail,
            args.len(),
            c,
            f,
            t,
            k,
        ),
    decreases args.len() - i,
{
    let all = args + tail;
    if i < args.len() {
        let a = args[i as int];
        assert(all[i as int] == a);
        if i + 1 < args.len() {
            assert(all[i + 1 as int] == args[i + 1 as int]);
        }
        if a == "-h"@ || a == "--help"@ || a == "-v"@ || a == "--version"@ {
        } else if a == "-n"@ {
            if i + 1 < args.len() {
                if let Some(n) = spec_parse_count(args[i + 1 as int]) {
                    lemma_args_extend(args, tail, i + 2, n, format, template, ksuids);
                }
            }
        } else if a == "-f"@ {
            if i + 1 < args.len() {
                if let Some(f) = spec_format(args[i + 1 as int]) {
                    lemma_args_extend(args, tail, i + 2, count, f, template, ksuids);
                }
            }
        } else if a == "-t"@ {
            if i + 1 < args.len() {
                lemma_args_extend(
                    args,
                    tail,
                    i + 2,
                    count,
                    format,
                    Some(args[i + 1 as int]),
                    ksuids,
                );
            }
        } else if looks_like_flag(a) {
        } else {
            lemma_args_extend(args, tail, i + 1, count, format, template, ksuids.push(a));
        }
    }
}

/// Law: `-f` with a format name sets the format wherever it stands: added
/// after a complete command line, it changes the format and nothing else
/// (unless it asks for a template that no `-t` gave).
pub proof fn lemma_format_flag_anywhere(args: Seq<Seq<char>>, name: Seq<char>)
    ensures
        args_from(args, 0, 1, Format::String, None, Seq::empty()) matches ArgsOutcome::Run {
            count: c,
            format: f,
            template: t,
            ksuids: k,
        } ==> (spec_format(name) matches Some(g) ==> (g == Format::Template && t is None)
            || args_from(args + seq!["-f"@, name], 0, 1, Format::String, None, Seq::empty())
            == ArgsOutcome::Run { count: c, format: g, template: t, ksuids: k }),
{
    reveal_strlit("-h");
    reveal_strlit("--help");
    reveal_strlit("-v");
    reveal_strlit("--version");
    reveal_strlit("-n");
    reveal_strlit("-f");
    lemma_args_extend(args, seq!["-f"@, name], 0, 1, Format::String, None, Seq::empty());
    let all = args + seq!["-f"@, name];
    assert(all[args.len() as int] == "-f"@);
    assert(all[args.len() + 1 as int] == name);
    assert("-f"@ != "-h"@ && "-f"@ != "-v"@ && "-f"@ != "-n"@) by {
        assert("-f"@[1] == 'f');
        assert("-h"@[1] == 'h');
        assert("-v"@[1] == 'v');
        assert("-n"@[1] == 'n');
    }
    assert("-f"@ != "--help"@ && "-f"@ != "--version"@) by {
        assert("-f"@.len() == 2);
        assert("--help"@.len() == 6);
        assert("--version"@.len() == 9);
    }
    if let ArgsOutcome::Run { count: c, format: f, template: t, ksuids: k } = args_from(
        args,
        0,
        1,
        Format::String,
        None,
        Seq::empty(),
    ) {
        if let Some(g) = spec_format(name) {
            let n = args.len();
            assert(all.len() == n + 2);
            assert(args_from(all, n + 2, c, g, t, k) == (if g == Format::Template && t is None {
                ArgsOutcome::Fail("-f template requires -t <template>"@)
            } else {
                ArgsOutcome::Run { count: c, format: g, template: t, ksuids: k }
            }));
            assert(args_from(all, n, c, f, t, k) == args_from(all, n + 2, c, g, t, k));
        }
    }
}
} // verus!

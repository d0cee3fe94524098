//! What does not fit the schema of a document, and where it is said to stand.

use std::collections::BTreeMap;
use std::fmt::Debug;

use netflector::config::document::{locate, parse_document, utf8_len, Span};
use netflector::config::error::ConfigError;
use netflector::config::raw::RawConfig;
use netflector::config::schema::{decode, decode_level, say_instead};
use netflector::config::value::LogLevel;
use netflector::config::{resolve_log_level, Config, MAX_INTERVAL_SECS};

fn message(text: &str) -> String {
    match Config::from_sources(Some(text), RawConfig::empty()) {
        Err(ConfigError::Parse { message }) => message,
        other => panic!("{other:?}"),
    }
}

fn reflector(line: &str) -> String {
    format!("[reflectors.tv]\nsource_if = \"lan\"\ntarget_if = \"iot\"\n{line}\n")
}

/// What toml says of a text that does not write a `T`.
fn refused<T: serde::de::DeserializeOwned + Debug>(text: &str) -> String {
    toml::from_str::<T>(text).unwrap_err().to_string()
}

type Under<T> = BTreeMap<String, BTreeMap<String, BTreeMap<String, T>>>;

const REFLECTOR_KEYS: &str = "`source_if`, `target_if`, `source_peers`, `target_peers`, `macs`, \
    `address_family`, `wol`, `wol_ports`, `mdns`, `ssdp`, `dial`, `wsd`, `bidirectional`, \
    `udp_ports`, `udp_groups`, `udp_broadcast`";

#[test]
fn an_unknown_key_is_said_where_it_stands() {
    assert_eq!(
        message("log_level = \"info\"\ncolour = 3\n"),
        "TOML parse error at line 2, column 1\n  |\n2 | colour = 3\n  | ^^^^^^\n\
         unknown field `colour`, expected one of `log_level`, `debug_memory_interval_secs`, \
         `counters_interval_secs`, `reflectors`\n"
    );
    assert_eq!(
        message(&reflector("  nmae = \"x\"")),
        format!(
            "TOML parse error at line 4, column 3\n  |\n4 |   nmae = \"x\"\n  |   ^^^^\n\
             unknown field `nmae`, expected one of {REFLECTOR_KEYS}\n"
        )
    );
}

#[test]
fn a_missing_key_is_told_from_an_unfit_value() {
    assert_eq!(
        message("[reflectors.tv]\nsource_if = \"lan\"\nmdns = true\n"),
        "TOML parse error at line 1, column 1\n  |\n1 | [reflectors.tv]\n  | ^^^^^^^^^^^^^^^\n\
         missing field `target_if`\n"
    );
    assert_eq!(
        message("[reflectors.tv]\ntarget_if = \"lan\"\nmdns = true\n"),
        "TOML parse error at line 1, column 1\n  |\n1 | [reflectors.tv]\n  | ^^^^^^^^^^^^^^^\n\
         missing field `source_if`\n"
    );
    assert_eq!(
        message("[reflectors.tv]\nsource_if = \"l an\"\ntarget_if = \"iot\"\n"),
        "TOML parse error at line 2, column 13\n  |\n2 | source_if = \"l an\"\n  |             ^^^^^^\n\
         interface name must not be empty or contain whitespace\n"
    );
    let text = "[reflectors.tv]\nsource_if = 7\ntarget_if = \"iot\"\n";
    assert_eq!(
        message(text),
        "TOML parse error at line 2, column 13\n  |\n2 | source_if = 7\n  |             ^\n\
         invalid type: integer `7`, expected a string\n"
    );
    assert_eq!(message(text), refused::<Under<String>>(text));
}

#[test]
fn an_unfit_value_is_said_where_it_stands() {
    assert_eq!(
        message("log_level = \"loud\"\n"),
        "TOML parse error at line 1, column 13\n  |\n1 | log_level = \"loud\"\n  |             ^^^^^^\n\
         expected one of: off, error, warn, info, debug, trace\n"
    );
    assert_eq!(
        message(&reflector("address_family = \"ipv5\"")),
        "TOML parse error at line 4, column 18\n  |\n4 | address_family = \"ipv5\"\n  \
         |                  ^^^^^^\nexpected one of: default, dual, ipv4, ipv6\n"
    );
    assert_eq!(
        message(&reflector("mdns = 1")),
        "TOML parse error at line 4, column 8\n  |\n4 | mdns = 1\n  |        ^\n\
         invalid type: integer `1`, expected a boolean\n"
    );
    assert_eq!(
        message("counters_interval_secs = -1\n"),
        "TOML parse error at line 1, column 26\n  |\n1 | counters_interval_secs = -1\n  \
         |                          ^^\ninvalid value: integer `-1`, expected u64\n"
    );
    assert_eq!(
        message("reflectors = 1\n"),
        "TOML parse error at line 1, column 14\n  |\n1 | reflectors = 1\n  |              ^\n\
         invalid type: integer `1`, expected a map\n"
    );
    assert_eq!(
        message("[reflectors]\ntv = \"lan\"\n"),
        "TOML parse error at line 2, column 6\n  |\n2 | tv = \"lan\"\n  |      ^^^^^\n\
         invalid type: string \"lan\", expected struct RawReflector\n"
    );
}

/// Every kind of value, and some that are written in more than one way.
const VALUES: [&str; 22] = [
    "true", "7", "-7", "0xff", "-9223372036854775808", "-9223372036854775809",
    "18446744073709551616", "-170141183460469231731687303715884105729",
    "999999999999999999999999999999999999999999", "1.5", "-0.0", "1e40", "inf", "nan",
    "\"a \\\"b\\\" \\n é\"", "'''\nx\n y'''", "[1, 2]", "[\n  1,\n]", "{ a = 1 }",
    "1979-05-27", "1979-05-27T07:32:00.5Z", "07:32:00",
];

#[test]
fn an_unfit_value_is_shown_whatever_it_is() {
    for value in VALUES {
        let flag = format!("# é\n[reflectors.tv]\n \"mdns\" = {value} # é\n");
        if value != "true" {
            assert_eq!(message(&flag), refused::<Under<bool>>(&flag));
        }
        let name = format!("[reflectors.tv]\r\nsource_if = {value}\r\n");
        if !value.starts_with(['"', '\'']) {
            assert_eq!(message(&name), refused::<Under<String>>(&name));
        }
        let secs = format!("\n\n\n\n\n\n\n\n\ncounters_interval_secs = {value}");
        if value != "7" && value != "0xff" {
            assert_eq!(message(&secs), refused::<BTreeMap<String, u64>>(&secs));
        }
        let level = format!("log_level = {value}\n");
        if !value.starts_with(['"', '\'']) {
            let said = refused::<BTreeMap<String, String>>(&level);
            assert_eq!(message(&level), said);
            match resolve_log_level(Some(&level), None).unwrap_err() {
                ConfigError::Parse { message } => assert_eq!(message, said),
                other => panic!("{other:?}"),
            }
        }
        let whole = format!("reflectors = {value}\n");
        if !value.starts_with(['{', '0', '1']) || value.starts_with("0x") || value.starts_with("1.5") {
            assert_eq!(message(&whole), refused::<BTreeMap<String, BTreeMap<String, bool>>>(&whole));
        }
    }
}

#[test]
fn a_date_is_no_reflector() {
    // A date is read as a table with one key, under which its text stands.
    let text = "reflectors = 1979-05-27\n";
    assert_eq!(
        message(text),
        "TOML parse error at line 1, column 14\n  |\n1 | reflectors = 1979-05-27\n  \
         |              ^^^^^^^^^^\n\
         invalid type: string \"1979-05-27\", expected struct RawReflector\n"
    );
    assert_eq!(
        message(text).replace("struct RawReflector", "a boolean"),
        refused::<BTreeMap<String, BTreeMap<String, bool>>>(text)
    );
    assert_eq!(
        message("reflectors.tv = 07:32:00\n"),
        format!(
            "TOML parse error at line 1, column 17\n  |\n1 | reflectors.tv = 07:32:00\n  \
             |                 ^^^^^^^^\n\
             unknown field `$__toml_private_datetime`, expected one of {REFLECTOR_KEYS}\n"
        )
    );
}

#[test]
fn an_unfit_list_is_said_of_the_item_or_the_list() {
    assert_eq!(
        message(&reflector("wol_ports = [9, 0]")),
        "TOML parse error at line 4, column 17\n  |\n4 | wol_ports = [9, 0]\n  |                 ^\n\
         invalid port\n"
    );
    assert_eq!(
        message(&reflector("wol_ports = [9, 9]")),
        "TOML parse error at line 4, column 13\n  |\n4 | wol_ports = [9, 9]\n  |             ^^^^^^\n\
         duplicate port 9\n"
    );
    assert_eq!(
        message(&reflector("wol_ports = []")),
        "TOML parse error at line 4, column 13\n  |\n4 | wol_ports = []\n  |             ^^\n\
         the port list is empty\n"
    );
    assert_eq!(
        message(&reflector("wol_ports = 9")),
        "TOML parse error at line 4, column 13\n  |\n4 | wol_ports = 9\n  |             ^\n\
         invalid type: integer `9`, expected a list\n"
    );
}

/// A reflector's array, of its first `n` values.
fn sequence(n: usize) -> String {
    let values = [
        "\"lan\"", "\"iot\"", "[\"10.0.0.1\"]", "[\"10.0.0.2\", \"10.0.0.3\"]",
        "[\"aa:bb:cc:dd:ee:ff\"]", "\"ipv4\"", "true", "[7, 9]", "true", "false", "false", "true",
        "false", "[5000]", "[\"239.1.2.3\"]", "true", "\"beyond\"",
    ];
    format!("[reflectors]\ntv = [{}]\n", values[..n].join(", "))
}

#[test]
fn a_reflector_may_be_an_array_of_its_values() {
    let table = "[reflectors.tv]\nsource_if = \"lan\"\ntarget_if = \"iot\"\n\
        source_peers = [\"10.0.0.1\"]\ntarget_peers = [\"10.0.0.2\", \"10.0.0.3\"]\n\
        macs = [\"aa:bb:cc:dd:ee:ff\"]\naddress_family = \"ipv4\"\nwol = true\nwol_ports = [7, 9]\n\
        mdns = true\nssdp = false\ndial = false\nwsd = true\nbidirectional = false\n\
        udp_ports = [5000]\nudp_groups = [\"239.1.2.3\"]\n";
    let all = format!("{table}udp_broadcast = true\n");
    let read = |text: &str| format!("{:?}", decode(&parse_document(text).unwrap()).unwrap());
    assert_eq!(read(&sequence(15)), read(table));
    assert_eq!(read(&sequence(16)), read(&all));
    assert_ne!(read(table), read(&all));
    // What is beyond the keys is not looked at.
    assert_eq!(read(&sequence(17)), read(&all));
}

#[test]
fn a_short_array_is_no_reflector() {
    let lacks = [0, 1, 2, 3, 4, 7, 7, 7, 13, 13, 13, 13, 13, 13, 14];
    for (n, place) in lacks.into_iter().enumerate() {
        let text = sequence(n);
        let row = text.lines().nth(1).unwrap();
        assert_eq!(
            message(&text),
            format!(
                "TOML parse error at line 2, column 6\n  |\n2 | {row}\n  |      {}\n\
                 invalid length {place}, expected struct RawReflector with 16 elements\n",
                "^".repeat(row.len() - 5)
            )
        );
    }
    // The same is said of a tuple.
    let text = "[reflectors]\ntv = [1]\n";
    assert_eq!(
        refused::<BTreeMap<String, BTreeMap<String, (u8, u8)>>>(text),
        "TOML parse error at line 2, column 6\n  |\n2 | tv = [1]\n  |      ^^^\n\
         invalid length 1, expected a tuple of size 2\n"
    );
}

#[test]
fn an_unfit_value_of_an_array_is_said_where_it_stands() {
    assert_eq!(
        message("[reflectors]\ntv = [\"lan\", 7]\n"),
        "TOML parse error at line 2, column 14\n  |\n2 | tv = [\"lan\", 7]\n  |              ^\n\
         invalid type: integer `7`, expected a string\n"
    );
    // A name that is refused as such is said of the whole array.
    assert_eq!(
        message("[reflectors]\ntv = [\"lan\", \"i ot\"]\n"),
        "TOML parse error at line 2, column 6\n  |\n2 | tv = [\"lan\", \"i ot\"]\n  \
         |      ^^^^^^^^^^^^^^^\ninterface name must not be empty or contain whitespace\n"
    );
    assert_eq!(
        message(&sequence(16).replace("true, [7", "\"yes\", [7")).lines().last().unwrap(),
        "invalid type: string \"yes\", expected a boolean"
    );
}

#[test]
fn an_integer_is_read_over_the_whole_range() {
    // Beyond the signed range, but still a number of seconds: too large, not malformed.
    for text in ["18446744073709551615", "0xffff_ffff_ffff_ffff", "9223372036854775808"] {
        let text = reflector("mdns = true")
            .replace("[reflectors.tv]", &format!("counters_interval_secs = {text}\n[reflectors.tv]"));
        match Config::from_sources(Some(&text), RawConfig::empty()).unwrap_err() {
            ConfigError::IntervalTooLarge { field, max, .. } => {
                assert_eq!(field, "counters_interval_secs");
                assert_eq!(max, MAX_INTERVAL_SECS);
            }
            other => panic!("{}", other.text()),
        }
    }
    for (written, secs) in [("+60", 60), ("0b11", 3), ("0o17", 15), ("0xFf", 255), ("1_000", 1000)] {
        let value = parse_document(&format!("counters_interval_secs = {written}")).unwrap();
        assert_eq!(decode(&value).unwrap().counters_interval_secs, Some(secs));
    }
    let zero = parse_document("counters_interval_secs = -0").unwrap();
    assert_eq!(decode(&zero).unwrap().counters_interval_secs, Some(0));
    assert_eq!(
        message("counters_interval_secs = 18446744073709551616\n").lines().last().unwrap(),
        "invalid type: integer `18446744073709551616` as i128, expected u64"
    );
}

#[test]
fn a_large_integer_does_not_hide_the_log_level() {
    let text = "log_level = \"warn\"\ncounters_interval_secs = 18446744073709551615\n";
    assert_eq!(resolve_log_level(Some(text), None).unwrap(), LogLevel::Warn);
    let value = parse_document(text).unwrap();
    assert_eq!(decode_level(&value).unwrap(), Some(LogLevel::Warn));
    assert_eq!(decode(&value).unwrap().log_level, Some(LogLevel::Warn));
}

#[test]
fn what_was_found_is_said_of_what_is_expected() {
    assert_eq!(
        say_instead("invalid type: map, expected unit", "type", "a string"),
        "invalid type: map, expected a string"
    );
    assert_eq!(
        say_instead("invalid type: integer `-1`, expected unit", "value", "u64"),
        "invalid value: integer `-1`, expected u64"
    );
    assert_eq!(
        say_instead("invalid type: string \", expected unit\", expected unit", "type", "u64"),
        "invalid type: string \", expected unit\", expected u64"
    );
    for other in ["integer number overflowed", "", "invalid type: , expected", ", expected unit"] {
        assert_eq!(say_instead(other, "type", "u64"), other);
    }
}

#[test]
fn a_place_is_counted_in_lines_and_characters() {
    assert_eq!(utf8_len('a'), 1);
    assert_eq!(utf8_len('é'), 2);
    assert_eq!(utf8_len('€'), 3);
    assert_eq!(utf8_len('𝄞'), 4);
    for text in [
        "a = 7\n",
        "a = 7",
        "\n\na = true\nb = 7\n",
        "\"é€𝄞\" = 7\n",
        "\"é€𝄞\" = '''7\n7'''\n",
        "x = true # é\r\n\"y\" = [ ]\n",
        "\n\n\n\n\n\n\n\n\n\n\"y\" = [\n]\n",
    ] {
        let e = toml::from_str::<BTreeMap<String, bool>>(text).unwrap_err();
        let span = Span { start: e.span().unwrap().start, end: e.span().unwrap().end };
        assert_eq!(locate(text, span, e.message()), e.to_string());
    }
    assert_eq!(
        locate("a\n", Span { start: 1, end: 1 }, "why"),
        "TOML parse error at line 1, column 2\n  |\n1 | a\n  |  ^\nwhy\n"
    );
}

#[test]
fn the_first_misfit_in_the_order_of_the_keys_is_told() {
    // Tables are walked in the order of their keys.
    assert_eq!(
        message(&reflector("wsd = 1\nmdns = 2")),
        "TOML parse error at line 5, column 8\n  |\n5 | mdns = 2\n  |        ^\n\
         invalid type: integer `2`, expected a boolean\n"
    );
}

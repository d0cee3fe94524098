//! What a configuration opens and builds at startup, and what is said of it.

use netflector::config::error::ConfigError;
use netflector::config::raw::RawConfig;
use netflector::config::Config;
use netflector::error::{Error, UsageError};
use netflector::startup::{
    check_config_line, legs, loaded_line, log_mtu_info, open_captures, Leg,
};

fn load(text: &str) -> Result<Config, ConfigError> {
    Config::from_sources(Some(text), RawConfig::empty())
}

const TWO: &str = r#"
[reflectors.tv]
source_if = "lan"
target_if = "iot"
mdns = true
bidirectional = true

[reflectors.wake]
source_if = "lan"
target_if = "lab"
wol = true
"#;

#[test]
fn check_config_accepts_a_valid_file_and_rejects_a_bad_one() {
    // The whole point of a check is that it runs where the interfaces do not exist, so this must
    // pass on any host, unprivileged, with no vtnet0 anywhere in sight.
    let good = "[reflectors.tv]\nsource_if = \"vtnet0\"\ntarget_if = \"vtnet1\"\nmdns = true\n";
    let config = load(good).unwrap();
    assert_eq!(config.reflectors.len(), 1);
    assert_eq!(check_config_line(&config), "config ok: 1 reflector");

    // An entry that enables no protocol reflects nothing; that is a config error, not a daemon
    // that quietly does nothing.
    let bad = "[reflectors.tv]\nsource_if = \"vtnet0\"\ntarget_if = \"vtnet1\"\n";
    assert!(load(bad).is_err());
}

#[test]
fn a_count_other_than_one_is_plural() {
    let config = load(TWO).unwrap();
    assert_eq!(check_config_line(&config), "config ok: 2 reflectors");
    assert_eq!(loaded_line(&config), "loaded 2 reflectors");
}

#[test]
fn each_interface_is_opened_once_in_the_order_of_first_use() {
    assert_eq!(open_captures(&load(TWO).unwrap()), ["lan", "iot", "lab"]);
}

#[test]
fn a_bidirectional_entry_has_a_second_leg() {
    let leg = |entry, reversed| Leg { entry, reversed };
    assert_eq!(
        legs(&load(TWO).unwrap()),
        [leg(0, false), leg(0, true), leg(1, false)]
    );
}

#[test]
fn differing_mtus_are_told_and_those_above_the_ceiling() {
    let config = load(TWO).unwrap();
    let wake = &config.reflectors[1];
    assert!(log_mtu_info(wake, Some(1500), Some(1500)).is_empty());
    assert!(log_mtu_info(wake, Some(1500), None).is_empty());
    assert_eq!(
        log_mtu_info(wake, Some(1500), Some(1280)),
        ["wake: MTU mismatch: lan has 1500, lab has 1280; packets larger than 1280 bytes cannot \
          cross toward the smaller side and are dropped"]
    );
    let above = log_mtu_info(wake, Some(65536), Some(65536));
    assert_eq!(above.len(), 2);
    assert!(above[0].starts_with("wake: lan MTU 65536 exceeds the "));
    assert!(above[1].starts_with("wake: lab MTU 65536 exceeds the "));
}

#[test]
fn each_error_says_where_it_comes_from() {
    assert_eq!(
        Error::usage(UsageError::UnknownOption("--x".to_string())).to_text(),
        "unknown option \"--x\"; try `netflector --help`"
    );
    assert_eq!(
        Error::config(ConfigError::Parse {
            message: "m".to_string()
        })
        .to_text()
        .get(..8),
        Some("config: ")
    );
    assert_eq!(
        Error::capture("lan", "no such device".to_string()).to_text(),
        "cannot capture on lan: no such device"
    );
    assert_eq!(
        Error::reflector("tv", "no".to_string()).to_text(),
        "reflector \"tv\": no"
    );
    assert_eq!(
        Error::reactor("interrupted".to_string()).to_text(),
        "reactor: interrupted"
    );
}

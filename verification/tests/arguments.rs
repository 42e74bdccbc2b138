use ip_sniffer::address::{parse_ip_address, IpAddress};
use ip_sniffer::arguments::{parse_thread_count, usage, ArgumentError, Arguments, DEFAULT_THREADS};

fn line(words: &[&str]) -> Vec<String> {
    words.iter().map(|w| w.to_string()).collect()
}

#[test]
fn arg_parsing() {
    let arg = Arguments::new(&vec![
        "name".to_string(),
        "-j".to_string(),
        "10".to_string(),
        "127.0.0.1".to_string(),
    ])
    .unwrap();
    assert_eq!(arg.flag, "-j");
    assert_eq!(arg.threads, 10);
    assert_eq!(arg.ipaddr, parse_ip_address("127.0.0.1").unwrap());
}

#[test]
fn explicit_worker_count() {
    let arg = Arguments::new(&line(&["prog", "-j", "10", "127.0.0.1"])).unwrap();
    assert_eq!(arg.flag, "-j");
    assert_eq!(arg.threads, 10);
    assert_eq!(arg.ipaddr, IpAddress::V4(127, 0, 0, 1));
}

#[test]
fn address_alone_takes_default_workers() {
    let arg = Arguments::new(&line(&["prog", "127.0.0.1"])).unwrap();
    assert_eq!(arg.flag, "");
    assert_eq!(arg.threads, 4);
    assert_eq!(DEFAULT_THREADS, 4);
    assert_eq!(arg.ipaddr, IpAddress::V4(127, 0, 0, 1));
}

#[test]
fn address_first_ignores_what_follows() {
    let arg = Arguments::new(&line(&["prog", "10.0.0.7", "-j", "9"])).unwrap();
    assert_eq!(arg.flag, "");
    assert_eq!(arg.threads, 4);
    assert_eq!(arg.ipaddr, IpAddress::V4(10, 0, 0, 7));
    let arg = Arguments::new(&line(&["prog", "::1", "whatever"])).unwrap();
    assert_eq!(arg.ipaddr, IpAddress::V6(0, 0, 0, 0, 0, 0, 0, 1));
}

#[test]
fn too_few_arguments() {
    assert_eq!(Arguments::new(&line(&["prog"])).unwrap_err(), ArgumentError::TooFew);
    assert_eq!(Arguments::new(&line(&[])).unwrap_err(), ArgumentError::TooFew);
}

#[test]
fn too_many_arguments() {
    assert_eq!(
        Arguments::new(&line(&["prog", "a", "b", "c", "d"])).unwrap_err(),
        ArgumentError::TooMany
    );
    // The count is looked at before anything else.
    assert_eq!(
        Arguments::new(&line(&["prog", "127.0.0.1", "b", "c", "d"])).unwrap_err(),
        ArgumentError::TooMany
    );
}

#[test]
fn worker_count_must_be_a_number() {
    assert_eq!(
        Arguments::new(&line(&["prog", "-j", "notanumber", "127.0.0.1"])).unwrap_err(),
        ArgumentError::InvalidThreadCount
    );
    assert_eq!(
        Arguments::new(&line(&["prog", "-j", "65536", "127.0.0.1"])).unwrap_err(),
        ArgumentError::InvalidThreadCount
    );
    // The count is read before the address.
    assert_eq!(
        Arguments::new(&line(&["prog", "-j", "x", "nowhere"])).unwrap_err(),
        ArgumentError::InvalidThreadCount
    );
}

#[test]
fn address_after_worker_count_must_be_valid() {
    assert_eq!(
        Arguments::new(&line(&["prog", "-j", "10", "127.0.0.256"])).unwrap_err(),
        ArgumentError::InvalidAddress
    );
    assert_eq!(
        Arguments::new(&line(&["prog", "-j", "10", "localhost"])).unwrap_err(),
        ArgumentError::InvalidAddress
    );
}

#[test]
fn other_shapes_ask_for_help() {
    assert_eq!(Arguments::new(&line(&["prog", "-h"])).unwrap_err(), ArgumentError::Help);
    assert_eq!(Arguments::new(&line(&["prog", "-j"])).unwrap_err(), ArgumentError::Help);
    assert_eq!(Arguments::new(&line(&["prog", "-j", "10"])).unwrap_err(), ArgumentError::Help);
    assert_eq!(
        Arguments::new(&line(&["prog", "-t", "10", "127.0.0.1"])).unwrap_err(),
        ArgumentError::Help
    );
    assert_eq!(
        Arguments::new(&line(&["prog", "-jj", "10", "127.0.0.1"])).unwrap_err(),
        ArgumentError::Help
    );
    assert_eq!(Arguments::new(&line(&["prog", "", "", ""])).unwrap_err(), ArgumentError::Help);
}

#[test]
fn worker_count_with_ipv6_target() {
    let arg = Arguments::new(&line(&["prog", "-j", "100", "fe80::1"])).unwrap();
    assert_eq!(arg.flag, "-j");
    assert_eq!(arg.threads, 100);
    assert_eq!(arg.ipaddr, IpAddress::V6(0xfe80, 0, 0, 0, 0, 0, 0, 1));
}

#[test]
fn worker_count_of_zero_is_turned_down() {
    for zero in ["0", "+0", "000", "+0000"] {
        assert_eq!(
            Arguments::new(&line(&["prog", "-j", zero, "127.0.0.1"])).unwrap_err(),
            ArgumentError::InvalidThreadCount,
            "{:?}",
            zero
        );
    }
    // The count is looked at before the address.
    assert_eq!(
        Arguments::new(&line(&["prog", "-j", "0", "nowhere"])).unwrap_err(),
        ArgumentError::InvalidThreadCount
    );
}

#[test]
fn worker_counts_from_one_are_accepted() {
    for (text, count) in [("1", 1u16), ("+1", 1), ("01", 1), ("4", 4), ("65535", 65535)] {
        let arg = Arguments::new(&line(&["prog", "-j", text, "127.0.0.1"])).unwrap();
        assert_eq!(arg.threads, count);
        assert!(arg.threads >= 1);
    }
}

#[test]
fn thread_counts() {
    assert_eq!(parse_thread_count("10"), Some(10));
    assert_eq!(parse_thread_count("0"), Some(0));
    assert_eq!(parse_thread_count("65535"), Some(65535));
    assert_eq!(parse_thread_count("65536"), None);
    assert_eq!(parse_thread_count("99999999999999999999999"), None);
    assert_eq!(parse_thread_count("00000000000000000000016"), Some(16));
    assert_eq!(parse_thread_count("+7"), Some(7));
    assert_eq!(parse_thread_count("+"), None);
    assert_eq!(parse_thread_count("++7"), None);
    assert_eq!(parse_thread_count("-7"), None);
    assert_eq!(parse_thread_count("-0"), None);
    assert_eq!(parse_thread_count(""), None);
    assert_eq!(parse_thread_count(" 7"), None);
    assert_eq!(parse_thread_count("7 "), None);
    assert_eq!(parse_thread_count("1f"), None);
    assert_eq!(parse_thread_count("12a"), None);
    assert_eq!(parse_thread_count("٣"), None);
}

#[test]
fn thread_counts_agree_with_the_integer_reader() {
    let samples = [
        "0", "1", "4", "16", "100", "65535", "65536", "70000", "+1", "+0", "+65535", "+65536", "-1",
        "", "+", "-", "1 ", " 1", "0x10", "1e3", "１２", "007", "4294967296", "a", "1a", "a1",
    ];
    for s in samples {
        assert_eq!(parse_thread_count(s), s.parse::<u16>().ok(), "{:?}", s);
    }
}

#[test]
fn error_messages() {
    assert_eq!(ArgumentError::TooMany.message(), "Too many arguments!!");
    assert_eq!(ArgumentError::TooFew.message(), "Too few arguments!!");
    assert_eq!(ArgumentError::InvalidAddress.message(), "Not a valid IP address!!");
    assert_eq!(
        ArgumentError::InvalidThreadCount.message(),
        "Argument for -j option should be an integer!!"
    );
    assert_eq!(ArgumentError::Help.message(), "This is the help!!");
}

#[test]
fn usage_names_the_three_forms() {
    let text = usage();
    let lines: Vec<&str> = text.lines().collect();
    assert_eq!(
        lines,
        vec![
            "Usage:",
            "\tip_sniffer -h",
            "\tip_sniffer -j <thread_count> <ip address>",
            "\tip_sniffer <ip address>",
        ]
    );
}

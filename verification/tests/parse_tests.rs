use blocklist_generator::parse::{
    parse_domainlist_line, parse_hostfile_line, parse_hostname, parse_ipv4_address,
    parse_ipv4_octet,
};

#[test]
fn parse_ip4_octet_parses_valid_ipv4_octet() {
    // arrange
    let input_0: &str = "1";
    let input_1: &str = "12";
    let input_2: &str = "123";
    let input_3: &str = "1234";

    // act
    let result_0 = parse_ipv4_octet(input_0);
    let result_1 = parse_ipv4_octet(input_1);
    let result_2 = parse_ipv4_octet(input_2);
    let result_3 = parse_ipv4_octet(input_3);

    // assert
    assert_eq!(result_0, Some(("", "1")));
    assert_eq!(result_1, Some(("", "12")));
    assert_eq!(result_2, Some(("", "123")));
    assert_eq!(result_3, Some(("4", "123")));
}

#[test]
fn parse_ipv4_octet_fails_to_parse_invalid_ipv4_octet() {
    // arrange
    let input_0: &str = "";
    let input_1: &str = ".";
    let input_2: &str = "256";

    // act
    let result_0 = parse_ipv4_octet(input_0);
    let result_1 = parse_ipv4_octet(input_1);
    let result_2 = parse_ipv4_octet(input_2);

    // assert
    assert_eq!(result_0, None);
    assert_eq!(result_1, None);
    assert_eq!(result_2, None);
}

#[test]
fn parse_ipv4_address_parses_valid_ipv4_address() {
    // arrange
    let input_0: &str = "127.0.0.1";
    let input_1: &str = "127";
    let input_2: &str = "127.0.0.1 example.com";

    // act
    let result_0 = parse_ipv4_address(input_0);
    let result_1 = parse_ipv4_address(input_1);
    let result_2 = parse_ipv4_address(input_2);

    // assert
    assert_eq!(result_0, Some(("", "127.0.0.1")));
    assert_eq!(result_1, Some(("", "127")));
    assert_eq!(result_2, Some((" example.com", "127.0.0.1")));
}

#[test]
fn parse_ipv4_address_fails_to_parse_invalid_ipv4_address() {
    // arrange
    let input_0: &str = "127.0.0.1.1";

    // act
    let result_0 = parse_ipv4_address(input_0);

    // assert
    assert_eq!(result_0, None);
}

#[test]
fn parse_hostname_parses_valid_hostnames() {
    // arrange
    let input_0: &str = "example.com";
    let input_1: &str = "sub.example.com";
    let input_2: &str = "sub-domain.example.com";
    let input_3: &str = "sub_domain.example.com";

    // act
    let result_0 = parse_hostname(input_0);
    let result_1 = parse_hostname(input_1);
    let result_2 = parse_hostname(input_2);
    let result_3 = parse_hostname(input_3);

    // assert
    assert_eq!(result_0, Some(("", "example.com")));
    assert_eq!(result_1, Some(("", "sub.example.com")));
    assert_eq!(result_2, Some(("", "sub-domain.example.com")));
    assert_eq!(result_3, Some(("", "sub_domain.example.com")));
}

#[test]
fn parse_hostname_rejects_single_label_and_long_label() {
    assert_eq!(parse_hostname("com"), None);
    // one label of 64 characters fails the whole production
    let long_label = "a".repeat(64);
    let name = format!("{long_label}.com");
    assert_eq!(parse_hostname(&name), None);
    // 63 characters is still accepted
    let max_label = "a".repeat(63);
    let ok_name = format!("{max_label}.com");
    assert_eq!(parse_hostname(&ok_name), Some(("", ok_name.as_str())));
}

#[test]
fn parse_domainlist_line_successfully_handles_invalid_input() {
    // arrange
    let input_0: &str = "com";
    let input_1: &str = "# some annotation";

    // act
    let result_0 = parse_domainlist_line(input_0);
    let result_1 = parse_domainlist_line(input_1);

    // assert
    assert_eq!(result_0, None);
    assert_eq!(result_1, None);
}

#[test]
fn parse_domainlist_line_successfully_parses_valid_input() {
    // arrange
    let input_0: &str = "example.com";
    let input_1: &str = "example.com # some annotation";

    // act
    let result_0 = parse_domainlist_line(input_0);
    let result_1 = parse_domainlist_line(input_1);

    // assert
    assert_eq!(result_0, Some("example.com"));
    assert_eq!(result_1, Some("example.com"));
}

#[test]
fn parse_hostfile_line_successfully_parses_valid_input() {
    // arrange
    let input_0: &str = "127.0.0.1 example.com";

    // act
    let result_0 = parse_hostfile_line(input_0);

    // assert
    assert_eq!(result_0, Some("example.com"));
}

#[test]
fn parse_hostfile_line_rejects_missing_separator_or_hostname() {
    assert_eq!(parse_hostfile_line("example.com"), None);
    assert_eq!(parse_hostfile_line("0.0.0.0"), None);
    assert_eq!(parse_hostfile_line("0.0.0.0example.com"), None);
    assert_eq!(parse_hostfile_line("0.0.0.0\texample.com"), Some("example.com"));
}

#[test]
fn parse_hostfile_line_takes_the_address_greedily() {
    // a bare short number is a complete address for this grammar
    assert_eq!(parse_hostfile_line("127 example.com"), Some("example.com"));
    // a four-digit run splits after three digits, which leaves no separator
    assert_eq!(parse_hostfile_line("1234 example.com"), None);
}

use blocklist_generator::hosts::{domainlist, hostfile, remove_sentinels, HostSet};

#[test]
fn domainlist_successfully_parses_valid_input() {
    // arrange
    let input = r"example.com
another-example.com # some annotation

# more annotation
subdomain-which-is-too-long-012345679012345678901234567890123456.com
final-example.com";
    let mut hash_set = HostSet::new();

    // act
    domainlist(input, &mut hash_set);

    // assert
    assert_eq!(hash_set.len(), 3);
    assert!(hash_set.contains(&"example.com".to_string()));
    assert!(hash_set.contains(&"another-example.com".to_string()));
    assert!(hash_set.contains(&"final-example.com".to_string()));
}

#[test]
fn hostfile_successfully_parses_valid_input() {
    // arrange
    let input = "127.0.0.1\texample.com\n0.0.0.0 another-example.com # some annotation\n\n# more annotation\n0.0.0.0\t\tsubdomain-which-is-too-long-012345679012345678901234567890123456.com\n0.0.0.0\tfinal-example.com";
    let mut hash_set = HostSet::new();

    // act
    hostfile(input, &mut hash_set);

    // assert
    assert_eq!(hash_set.len(), 3);
    assert!(hash_set.contains(&"example.com".to_string()));
    assert!(hash_set.contains(&"another-example.com".to_string()));
    assert!(hash_set.contains(&"final-example.com".to_string()));
}

#[test]
fn domainlist_round_trip_excludes_comments_and_invalid_lines() {
    // a body of valid domain lines yields exactly their canonical hosts;
    // comments, blank lines and an over-length name contribute nothing
    let long_name = format!("{}.com", "x".repeat(70));
    let input = format!("example.com\nanother.com # note\n\n# comment\n{long_name}\nfinal.com");
    let mut set = HostSet::new();

    domainlist(&input, &mut set);

    assert_eq!(set.len(), 3);
    assert!(set.contains(&"example.com".to_string()));
    assert!(set.contains(&"another.com".to_string()));
    assert!(set.contains(&"final.com".to_string()));
    assert!(!set.contains(&long_name));
}

#[test]
fn empty_and_whitespace_only_bodies_yield_nothing() {
    let mut set = HostSet::new();
    domainlist("", &mut set);
    assert_eq!(set.len(), 0);
    domainlist("   \n\t\n", &mut set);
    assert_eq!(set.len(), 0);
    hostfile("\n\n", &mut set);
    assert_eq!(set.len(), 0);
}

#[test]
fn domainlist_canonicalizes_tokens() {
    // the canonicalizer lowercases domain names, so the stored host differs
    // from the recognized token
    let mut set = HostSet::new();
    domainlist("EXAMPLE.Com", &mut set);
    assert_eq!(set.len(), 1);
    assert!(set.contains(&"example.com".to_string()));
    assert!(!set.contains(&"EXAMPLE.Com".to_string()));
}

#[test]
fn domainlist_drops_tokens_the_canonicalizer_rejects() {
    // five dotted numbers pass the grammar but are not a valid network host
    let mut set = HostSet::new();
    domainlist("1.2.3.4.5\nexample.com", &mut set);
    assert_eq!(set.len(), 1);
    assert!(set.contains(&"example.com".to_string()));
}

#[test]
fn domainlist_handles_crlf_line_endings() {
    let mut set = HostSet::new();
    domainlist("example.com\r\nanother.com\r\n", &mut set);
    assert_eq!(set.len(), 2);
    assert!(set.contains(&"example.com".to_string()));
    assert!(set.contains(&"another.com".to_string()));
}

#[test]
fn merging_overlapping_sets_keeps_cardinality_of_true_union() {
    let mut a = HostSet::new();
    domainlist("one.example.com\ntwo.example.com", &mut a);
    let mut b = HostSet::new();
    domainlist("two.example.com\nthree.example.com", &mut b);
    assert_eq!(a.len(), 2);
    assert_eq!(b.len(), 2);

    a.extend_from(&b);
    // the overlap (two.example.com) is not stored twice
    assert_eq!(a.len(), 3);
    assert!(a.contains(&"one.example.com".to_string()));
    assert!(a.contains(&"two.example.com".to_string()));
    assert!(a.contains(&"three.example.com".to_string()));
}

#[test]
fn insert_and_remove_are_idempotent_on_duplicates() {
    let mut set = HostSet::new();
    set.insert("example.com".to_string());
    set.insert("example.com".to_string());
    assert_eq!(set.len(), 1);
    set.remove(&"example.com".to_string());
    assert_eq!(set.len(), 0);
    set.remove(&"example.com".to_string());
    assert_eq!(set.len(), 0);
}

#[test]
fn sentinel_hosts_never_survive_removal() {
    // sentinels present in every source still never reach the output
    let mut set = HostSet::new();
    domainlist("0.0.0.0\n127.0.0.1\n255.255.255.255\nexample.com", &mut set);
    hostfile("0.0.0.0\t0.0.0.0\n0.0.0.0 127.0.0.1", &mut set);
    assert!(set.contains(&"0.0.0.0".to_string()));
    assert!(set.contains(&"127.0.0.1".to_string()));
    assert!(set.contains(&"255.255.255.255".to_string()));

    remove_sentinels(&mut set);

    assert_eq!(set.len(), 1);
    assert!(set.contains(&"example.com".to_string()));
    assert!(!set.contains(&"0.0.0.0".to_string()));
    assert!(!set.contains(&"127.0.0.1".to_string()));
    assert!(!set.contains(&"255.255.255.255".to_string()));
}

#[test]
fn into_items_hands_out_every_stored_host() {
    let mut set = HostSet::new();
    set.insert("b.example.com".to_string());
    set.insert("a.example.com".to_string());
    let items = set.into_items();
    assert_eq!(items.len(), 2);
    assert!(items.contains(&"a.example.com".to_string()));
    assert!(items.contains(&"b.example.com".to_string()));
}

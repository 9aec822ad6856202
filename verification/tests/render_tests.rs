use blocklist_generator::hosts::{domainlist, remove_sentinels, HostSet};
use blocklist_generator::render::{domain_to_blocklist_rpz_domain, render_rpz};

#[test]
fn one_host_renders_as_host_and_wildcard() {
    let r = domain_to_blocklist_rpz_domain(&"example.com".to_string());
    assert_eq!(r, "example.com\tCNAME\t.\n*.example.com\tCNAME\t.\n");
}

#[test]
fn render_rpz_emits_entries_in_list_order() {
    let hosts = vec!["a.example.com".to_string(), "b.example.com".to_string()];
    let r = render_rpz(&hosts);
    assert_eq!(
        r,
        "a.example.com\tCNAME\t.\n*.a.example.com\tCNAME\t.\nb.example.com\tCNAME\t.\n*.b.example.com\tCNAME\t.\n"
    );
}

#[test]
fn rendered_text_holds_no_sentinel_entry() {
    // sentinels picked up from the sources are gone from the rendered text
    let mut set = HostSet::new();
    domainlist("0.0.0.0\n127.0.0.1\n255.255.255.255\nexample.com", &mut set);
    remove_sentinels(&mut set);
    let mut items = set.into_items();
    items.sort();
    let text = render_rpz(&items);
    assert!(!text.contains("0.0.0.0"));
    assert!(!text.contains("127.0.0.1"));
    assert!(!text.contains("255.255.255.255"));
    assert_eq!(text, "example.com\tCNAME\t.\n*.example.com\tCNAME\t.\n");
}

#[test]
fn render_rpz_of_no_hosts_is_empty() {
    let hosts: Vec<String> = Vec::new();
    assert_eq!(render_rpz(&hosts), "");
}

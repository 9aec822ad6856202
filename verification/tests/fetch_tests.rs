use blocklist_generator::fetch::{
    build_host_set, classify_fetch_error, merge_outcomes, sources_from_blocklists, AppError,
    Blocklists, FetchSchedule, SourceType, CONCURRENT_FETCH_LIMIT,
};
use blocklist_generator::hosts::HostSet;

#[test]
fn classify_fetch_error_covers_the_taxonomy() {
    let url = "http://lists.example.com/a.txt";
    let e = classify_fetch_error(url, true, true, true, false);
    assert!(matches!(e, AppError::IncompleteBody { .. }));
    let e = classify_fetch_error(url, true, false, false, false);
    assert!(matches!(e, AppError::FetchBody { .. }));
    let e = classify_fetch_error(url, false, false, false, true);
    assert!(matches!(e, AppError::FetchRequest { .. }));
    let e = classify_fetch_error(url, false, false, false, false);
    assert!(matches!(e, AppError::Fetch { .. }));
    // a body error whose transport source is not an incomplete message is
    // still a body-read failure: the first matching rule wins
    let e = classify_fetch_error(url, true, true, false, true);
    assert!(matches!(e, AppError::FetchBody { .. }));
}

#[test]
fn app_error_messages_name_the_source_url() {
    let url = "http://lists.example.com/a.txt".to_string();
    let e = AppError::IncompleteBody { url: url.clone() };
    assert_eq!(
        e.message(),
        "Error fetching blocklist `http://lists.example.com/a.txt`: only received part of the file.  The network connection may be unstable."
    );
    let e = AppError::FetchParse { url };
    assert_eq!(
        e.message(),
        "Error parsing fetched data for blocklist `http://lists.example.com/a.txt`.  It might be worth retrying later."
    );
}

#[test]
fn sources_from_blocklists_keeps_order_and_formats() {
    let blocklists = Blocklists {
        hosts_file_blocklist_urls: vec![
            "http://a.example.com/hosts".to_string(),
            "http://b.example.com/hosts".to_string(),
        ],
        domain_blocklist_urls: vec!["http://c.example.com/domains".to_string()],
    };
    let sources = sources_from_blocklists(&blocklists);
    assert_eq!(sources.len(), 3);
    assert_eq!(sources[0].url, "http://a.example.com/hosts");
    assert!(matches!(sources[0].source_type, SourceType::HostsFile));
    assert_eq!(sources[1].url, "http://b.example.com/hosts");
    assert!(matches!(sources[1].source_type, SourceType::HostsFile));
    assert_eq!(sources[2].url, "http://c.example.com/domains");
    assert!(matches!(sources[2].source_type, SourceType::DomainList));
}

#[test]
fn build_host_set_selects_the_grammar_by_format() {
    let body = "0.0.0.0 example.com\nplain.example.com";
    let as_hosts = build_host_set(body, &SourceType::HostsFile);
    assert_eq!(as_hosts.len(), 1);
    assert!(as_hosts.contains(&"example.com".to_string()));
    let as_domains = build_host_set(body, &SourceType::DomainList);
    // under the domain-list grammar the first line's leading dotted name is
    // itself the token and the rest of the line is discarded
    assert_eq!(as_domains.len(), 2);
    assert!(as_domains.contains(&"0.0.0.0".to_string()));
    assert!(as_domains.contains(&"plain.example.com".to_string()));
}

#[test]
fn concurrency_cap_is_respected() {
    // an instrumented run over ten sources: the schedule never admits more
    // than CONCURRENT_FETCH_LIMIT tasks at once
    let mut schedule = FetchSchedule::new(10);
    let mut admitted: usize = 0;
    let mut max_in_flight: usize = 0;
    while !schedule.all_finished() {
        while let Some(idx) = schedule.try_admit() {
            assert_eq!(idx, admitted);
            admitted += 1;
            if schedule.in_flight() > max_in_flight {
                max_in_flight = schedule.in_flight();
            }
        }
        assert!(schedule.in_flight() <= CONCURRENT_FETCH_LIMIT);
        schedule.task_finished();
    }
    assert_eq!(admitted, 10);
    assert_eq!(max_in_flight, CONCURRENT_FETCH_LIMIT);
}

#[test]
fn schedule_admits_again_only_after_a_completion() {
    let mut schedule = FetchSchedule::new(5);
    assert_eq!(schedule.try_admit(), Some(0));
    assert_eq!(schedule.try_admit(), Some(1));
    assert_eq!(schedule.try_admit(), Some(2));
    assert_eq!(schedule.try_admit(), None);
    assert_eq!(schedule.in_flight(), 3);
    schedule.task_finished();
    assert_eq!(schedule.try_admit(), Some(3));
    assert_eq!(schedule.try_admit(), None);
}

#[test]
fn merge_outcomes_unions_all_successful_sets() {
    let mut a = HostSet::new();
    a.insert("one.example.com".to_string());
    a.insert("shared.example.com".to_string());
    let mut b = HostSet::new();
    b.insert("two.example.com".to_string());
    b.insert("shared.example.com".to_string());
    let outcomes: Vec<Result<HostSet, AppError>> = vec![Ok(a), Ok(b)];

    let mut acc = HostSet::new();
    let r = merge_outcomes(outcomes, &mut acc);

    assert!(r.is_ok());
    assert_eq!(acc.len(), 3);
    assert!(acc.contains(&"one.example.com".to_string()));
    assert!(acc.contains(&"two.example.com".to_string()));
    assert!(acc.contains(&"shared.example.com".to_string()));
}

#[test]
fn merge_outcomes_fails_fast_on_the_first_failure() {
    let mut a = HostSet::new();
    a.insert("one.example.com".to_string());
    let outcomes: Vec<Result<HostSet, AppError>> = vec![
        Ok(a),
        Err(AppError::FetchRequest { url: "http://x.example.com".to_string() }),
        Err(AppError::Fetch { url: "http://y.example.com".to_string() }),
    ];

    let mut acc = HostSet::new();
    let r = merge_outcomes(outcomes, &mut acc);

    // the first failure is reported and nothing is merged
    assert_eq!(acc.len(), 0);
    match r {
        Err(AppError::FetchRequest { url }) => assert_eq!(url, "http://x.example.com"),
        _ => panic!("expected the first fetch failure"),
    }
}

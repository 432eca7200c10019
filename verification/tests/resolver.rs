use zones::resolver::{resolved_line, root_servers, Lookup, ResolutionPass, ResolverSettings,
    BATCH_LIMIT, DNS_PORT};

fn names(list: &[&str]) -> Vec<String> {
    list.iter().map(|s| s.to_string()).collect()
}

#[test]
fn pool_is_made_of_six_root_servers() {
    let servers = root_servers();
    assert_eq!(
        vec![[192, 203, 230, 10], [192, 5, 5, 241], [192, 58, 128, 30], [192, 36, 148, 17],
            [193, 0, 14, 129], [199, 7, 83, 42]],
        servers
    );
    let settings = ResolverSettings::root_pool();
    assert_eq!(servers, settings.servers);
    assert_eq!(53, settings.port);
    assert_eq!(53, DNS_PORT);
    assert_eq!(6, settings.attempts);
    assert!(settings.rotate);
    assert!(settings.ipv4_only);
}

#[test]
fn attempts_are_capped_at_the_pool_size() {
    let pool = vec![[10, 0, 0, 1], [10, 0, 0, 2]];
    assert_eq!(2, ResolverSettings::new(pool.clone(), 5).attempts);
    assert_eq!(2, ResolverSettings::new(pool.clone(), 2).attempts);
    assert_eq!(1, ResolverSettings::new(pool.clone(), 1).attempts);
    assert_eq!(0, ResolverSettings::new(Vec::new(), 3).attempts);
}

#[test]
fn resolved_line_lists_the_addresses() {
    assert_eq!("a.ru 1.2.3.4 5.6.7.8", resolved_line("a.ru", &names(&["1.2.3.4", "5.6.7.8"])));
    assert_eq!("a.ru 1.2.3.4", resolved_line("a.ru", &names(&["1.2.3.4"])));
    assert_eq!("a.ru", resolved_line("a.ru", &Vec::new()));
}

#[test]
fn pass_takes_a_bounded_batch() {
    assert_eq!(1000, BATCH_LIMIT);
    let backlog: Vec<String> = (0..1500).map(|i| format!("d{:04}.ru", i)).collect();
    let mut pass = ResolutionPass::start(&backlog);
    let mut asked = 0;
    while let Some(domain) = pass.next_domain() {
        assert_eq!(backlog[asked], domain);
        asked += 1;
        pass = pass.record(Lookup::NotFound);
    }
    assert_eq!(1000, asked);
    assert!(pass.is_over());
    let (resolved, unresolved) = pass.finish();
    assert!(resolved.is_empty());
    assert_eq!(backlog[..1000].to_vec(), unresolved);
}

#[test]
fn each_domain_goes_to_one_list() {
    let backlog = names(&["a.ru", "b.ru", "c.ru", "d.ru"]);
    let mut pass = ResolutionPass::start(&backlog);
    assert!(!pass.is_over());
    assert_eq!(Some("a.ru".to_string()), pass.next_domain());
    pass = pass.record(Lookup::Resolved(names(&["1.1.1.1", "2.2.2.2"])));
    assert_eq!(&names(&["a.ru 1.1.1.1 2.2.2.2"]), pass.resolved_lines());
    assert!(pass.unresolved_domains().is_empty());
    assert_eq!(Some("b.ru".to_string()), pass.next_domain());
    pass = pass.record(Lookup::NotFound);
    assert_eq!(&names(&["a.ru 1.1.1.1 2.2.2.2"]), pass.resolved_lines());
    assert_eq!(&names(&["b.ru"]), pass.unresolved_domains());
    pass = pass.record(Lookup::Resolved(Vec::new()));
    pass = pass.record(Lookup::Resolved(names(&["4.4.4.4"])));
    assert!(pass.is_over());
    assert!(!pass.was_aborted());
    assert_eq!(None, pass.next_domain());
    pass = pass.record(Lookup::NotFound);
    let (resolved, unresolved) = pass.finish();
    assert_eq!(names(&["a.ru 1.1.1.1 2.2.2.2", "d.ru 4.4.4.4"]), resolved);
    assert_eq!(names(&["b.ru", "c.ru"]), unresolved);
}

#[test]
fn unreachable_pool_ends_the_pass() {
    let backlog = names(&["a.ru", "b.ru", "c.ru", "d.ru"]);
    let mut pass = ResolutionPass::start(&backlog);
    pass = pass.record(Lookup::Resolved(names(&["1.1.1.1"])));
    pass = pass.record(Lookup::PoolUnavailable);
    assert!(pass.is_over());
    assert!(pass.was_aborted());
    assert_eq!(None, pass.next_domain());
    let (resolved, unresolved) = pass.finish();
    assert_eq!(names(&["a.ru 1.1.1.1"]), resolved);
    assert_eq!(names(&["b.ru", "c.ru", "d.ru"]), unresolved);
}

#[test]
fn empty_backlog_is_over_at_once() {
    let pass = ResolutionPass::start(&Vec::new());
    assert!(pass.is_over());
    let (resolved, unresolved) = pass.finish();
    assert!(resolved.is_empty() && unresolved.is_empty());
}

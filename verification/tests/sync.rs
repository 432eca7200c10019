use zones::codec::ZoneSnapshot;
use zones::domain::Domain;
use zones::registry::Registry;
use zones::sync::{apply_plan, chunk_bounds, plan_sync, tally_results, SyncTally, CHUNK_SIZE};
use zones::Site;

fn names(list: &[&str]) -> Vec<String> {
    list.iter().map(|s| s.to_string()).collect()
}

fn probed(url: &str, title: &str) -> Domain {
    let mut record = Domain::new(url.to_string());
    let site = Site {
        url: format!("http://{}/", url),
        title: Some(title.to_string()),
        charset: Some("utf-8".to_string()),
        description: None,
        keywords: None,
    };
    record.complete_lookup(Some(site), None);
    record
}

fn sample_registry() -> Registry {
    let mut gone = Domain::new("b.ru".to_string());
    gone.removed = true;
    let records = vec![probed("a.ru", "A"), gone, Domain::new("c.ru".to_string())];
    Registry::from_records(records).unwrap()
}

#[test]
fn registry_refuses_unsorted_records() {
    let unsorted = vec![Domain::new("b.ru".to_string()), Domain::new("a.ru".to_string())];
    assert!(Registry::from_records(unsorted).is_none());
    let twice = vec![Domain::new("a.ru".to_string()), Domain::new("a.ru".to_string())];
    assert!(Registry::from_records(twice).is_none());
    assert_eq!(0, Registry::new().len());
    assert_eq!(3, sample_registry().len());
}

#[test]
fn registry_keys_come_in_ascending_order() {
    let mut registry = Registry::new();
    assert!(registry.insert_new("m.ru".to_string()));
    assert!(registry.insert_new("a.ru".to_string()));
    assert!(registry.insert_new("z.ru".to_string()));
    assert!(!registry.insert_new("m.ru".to_string()));
    assert_eq!(names(&["a.ru", "m.ru", "z.ru"]), registry.keys());
    assert_eq!(3, registry.records().len());
    assert!(registry.get(&"m.ru".to_string()).is_some());
    assert!(registry.get(&"n.ru".to_string()).is_none());
}

#[test]
fn mark_changes_nothing_else() {
    let mut registry = sample_registry();
    assert!(registry.set_removed(&"a.ru".to_string(), true));
    assert!(!registry.set_removed(&"missing.ru".to_string(), true));
    let record = registry.get(&"a.ru".to_string()).unwrap();
    assert!(record.removed);
    assert!(record.lookup);
    assert!(record.success);
    assert_eq!(Some("A".to_string()), record.http.unwrap().title);
    assert_eq!(3, registry.len());
}

#[test]
fn plan_lists_what_to_add_remove_and_restore() {
    let registry = sample_registry();
    let listing = ZoneSnapshot::from_listing(b"d.ru\nc.ru\nb.ru\n");
    let plan = plan_sync(&listing, &registry);
    assert_eq!(names(&["d.ru"]), plan.added);
    assert_eq!(names(&["a.ru"]), plan.removed);
    assert_eq!(names(&["b.ru"]), plan.restored);
}

#[test]
fn plan_for_an_unchanged_zone_is_empty() {
    let mut registry = Registry::new();
    registry.insert_new("a.ru".to_string());
    registry.insert_new("b.ru".to_string());
    let plan = plan_sync(&ZoneSnapshot::from_listing(b"a.ru\nb.ru\n"), &registry);
    assert!(plan.added.is_empty());
    assert!(plan.removed.is_empty());
    assert!(plan.restored.is_empty());
}

#[test]
fn after_a_pass_the_registry_matches_the_listing() {
    let mut registry = sample_registry();
    let listing = ZoneSnapshot::from_listing(b"d.ru\nc.ru\nb.ru\n");
    let plan = plan_sync(&listing, &registry);
    let tally = apply_plan(&mut registry, &plan);
    assert_eq!(SyncTally { added: 1, removed: 1, restored: 1 }, tally);
    assert_eq!(names(&["a.ru", "b.ru", "c.ru", "d.ru"]), registry.keys());

    for listed in listing.as_vec() {
        assert!(!registry.get(listed).unwrap().removed);
    }
    let gone = registry.get(&"a.ru".to_string()).unwrap();
    assert!(gone.removed);
    assert!(gone.lookup);
    assert!(gone.success);
    let site = gone.http.unwrap();
    assert_eq!("http://a.ru/", site.url);
    assert_eq!(Some("A".to_string()), site.title);
    assert_eq!(Some("utf-8".to_string()), site.charset);

    let fresh = registry.get(&"d.ru".to_string()).unwrap();
    assert!(!fresh.lookup && !fresh.success && !fresh.removed);
    assert!(fresh.http.is_none() && fresh.https.is_none());

    let again = plan_sync(&listing, &registry);
    assert!(again.added.is_empty());
    assert_eq!(names(&["a.ru"]), again.removed);
    assert!(again.restored.is_empty());
}

#[test]
fn first_pass_fills_an_empty_registry() {
    let mut registry = Registry::new();
    let listing = ZoneSnapshot::from_listing(b"b.ru\na.ru\n");
    let plan = plan_sync(&listing, &registry);
    let tally = apply_plan(&mut registry, &plan);
    assert_eq!(SyncTally { added: 2, removed: 0, restored: 0 }, tally);
    assert_eq!(names(&["a.ru", "b.ru"]), registry.keys());
}

#[test]
fn probed_record_is_never_selected_again() {
    let mut registry = sample_registry();
    let first = registry.select().unwrap();
    assert_eq!("c.ru", first.url);
    let mut done = first;
    done.complete_lookup(None, None);
    registry.store(done);
    assert!(registry.select().is_none());
    assert!(registry.select().is_none());
    let stored = registry.get(&"c.ru".to_string()).unwrap();
    assert!(stored.lookup && !stored.success);

    registry.insert_new("bb.ru".to_string());
    assert_eq!("bb.ru", registry.select().unwrap().url);
    registry.store(probed("new.ru", "N"));
    assert_eq!(5, registry.len());
    assert_eq!("bb.ru", registry.select().unwrap().url);
}

#[test]
fn chunks_follow_one_another() {
    assert_eq!(100_000, CHUNK_SIZE);
    assert_eq!(vec![(0, 100_000), (100_000, 200_000), (200_000, 250_000)],
        chunk_bounds(250_000, CHUNK_SIZE));
    assert_eq!(vec![(0, 5), (5, 10)], chunk_bounds(10, 5));
    assert_eq!(vec![(0, 3)], chunk_bounds(3, 5));
    assert_eq!(vec![(0, 1), (1, 2)], chunk_bounds(2, 1));
    assert_eq!(Vec::<(usize, usize)>::new(), chunk_bounds(0, 5));
}

#[test]
fn failed_requests_add_nothing_to_the_tally() {
    assert_eq!(7, tally_results(&vec![Some(3), None, Some(4), None]));
    assert_eq!(0, tally_results(&Vec::new()));
    assert_eq!(u64::MAX, tally_results(&vec![Some(u64::MAX - 1), Some(5), None, Some(1)]));
}

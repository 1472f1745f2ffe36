use mtasa_masterlist::cache::Cache;
use mtasa_masterlist::list::Server;

fn sample_server(port: u16) -> Server {
    let mut s = Server::new();
    s.port = port;
    s
}

#[test]
fn new_cache_is_empty() {
    let c = Cache::new(10);
    assert!(!c.populated);
    assert_eq!(c.get().len(), 0);
}

#[test]
fn store_replaces_the_whole_snapshot() {
    let mut c = Cache::new(10);
    c.store(vec![sample_server(1), sample_server(2)], None);
    assert!(c.populated);
    let snap = c.get();
    assert_eq!(snap.len(), 2);
    assert_eq!(snap[0].port, 1);
    assert_eq!(snap[1].port, 2);
    c.store(vec![sample_server(3)], None);
    let snap = c.get();
    assert_eq!(snap.len(), 1);
    assert_eq!(snap[0].port, 3);
    assert!(c.populated);
}

#[test]
fn conditional_refresh_fetches_once_per_token_change() {
    let mut c = Cache::new(10);
    // No recorded token yet: a reported token forces a fetch.
    assert!(c.should_fetch(&Some("monday".to_string())));
    c.store(vec![sample_server(1)], Some("monday".to_string()));
    // Unchanged token: the second cycle must skip the full fetch.
    assert!(!c.should_fetch(&Some("monday".to_string())));
    assert!(!c.should_fetch(&Some("monday".to_string())));
    // Changed token: exactly one fetch, then quiet again.
    assert!(c.should_fetch(&Some("tuesday".to_string())));
    c.store(vec![sample_server(2)], Some("tuesday".to_string()));
    assert!(!c.should_fetch(&Some("tuesday".to_string())));
}

#[test]
fn missing_token_never_fetches() {
    let mut c = Cache::new(10);
    assert!(!c.should_fetch(&None));
    c.store(vec![sample_server(1)], Some("monday".to_string()));
    assert!(!c.should_fetch(&None));
}

#[test]
fn debounce_coalesces_reads_within_the_window() {
    let mut c = Cache::new(10);
    // Before any refresh, a read may trigger one.
    assert!(c.may_refresh(100));
    c.store(vec![sample_server(1)], None);
    c.note_refresh(100);
    let snap = c.get();
    // Inside the cooldown window nothing refreshes: the reads get the
    // identical snapshot back.
    assert!(!c.may_refresh(100));
    assert!(!c.may_refresh(105));
    assert!(!c.may_refresh(109));
    assert_eq!(c.get(), snap);
    assert_eq!(c.get(), snap);
    // Once the window elapses, exactly one new refresh is allowed.
    assert!(c.may_refresh(110));
    c.store(vec![sample_server(2)], None);
    c.note_refresh(110);
    assert!(!c.may_refresh(115));
    assert_eq!(c.get()[0].port, 2);
}

#[test]
fn populated_never_regresses() {
    let mut c = Cache::new(10);
    c.store(vec![], Some("monday".to_string()));
    assert!(c.populated);
    c.note_refresh(5);
    assert!(c.populated);
    c.store(vec![sample_server(1)], None);
    assert!(c.populated);
}

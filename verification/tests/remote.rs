use verse::artwork::remote::{Remote, CAPACITY};

#[test]
fn a_url_never_seen_is_wanted_once() {
    let mut remote = Remote::new();

    assert!(!remote.request("https://host/a"));
    assert_eq!(remote.take(), vec!["https://host/a".to_owned()]);
}

#[test]
fn asking_twice_before_it_answers_wants_it_once() {
    let mut remote = Remote::new();

    remote.request("https://host/a");
    remote.request("https://host/a");

    assert_eq!(remote.take().len(), 1);
}

#[test]
fn what_arrived_is_handed_back() {
    let mut remote = Remote::new();

    remote.request("https://host/a");
    remote.take();
    remote.insert("https://host/a".to_owned(), true);

    assert!(remote.request("https://host/a"));
    assert!(remote.take().is_empty());
}

#[test]
fn a_cover_the_host_would_not_serve_is_not_asked_for_again() {
    let mut remote = Remote::new();

    remote.request("https://host/gone");
    remote.take();
    remote.insert("https://host/gone".to_owned(), false);

    assert!(!remote.request("https://host/gone"));
    assert!(remote.take().is_empty(), "a failed cover must not be requested once per frame");
}

#[test]
fn taking_the_wants_clears_them() {
    let mut remote = Remote::new();

    remote.request("https://host/a");
    assert_eq!(remote.take().len(), 1);
    assert!(remote.take().is_empty());
}

#[test]
fn wants_come_out_in_the_order_asked() {
    let mut remote = Remote::new();
    remote.request("https://host/b");
    remote.request("https://host/a");
    remote.request("https://host/b");
    assert_eq!(remote.take(), vec!["https://host/b".to_owned(), "https://host/a".to_owned()]);
}

#[test]
fn a_store_made_by_default_wants_nothing() {
    let mut remote = Remote::default();
    assert!(!remote.request("https://host/a"));
    assert!(remote.take().is_empty());
    assert_eq!(remote.insert("https://host/a".to_owned(), true), None);
    assert!(!remote.request("https://host/a"));
}

#[test]
fn a_full_store_lets_the_oldest_answer_go() {
    let mut remote = Remote::new();
    for n in 0..CAPACITY {
        assert_eq!(remote.insert(format!("https://host/{n}"), true), None);
    }
    assert!(remote.request("https://host/0"));
    assert_eq!(remote.insert("https://host/0".to_owned(), false), None);
    assert_eq!(remote.insert("https://host/new".to_owned(), true), Some("https://host/1".to_owned()));
    assert!(!remote.request("https://host/0"));
}

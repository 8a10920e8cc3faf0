use tinyhttp::client::Client;
use tinyhttp::header_map::HeaderMap;
use tinyhttp::pool::ThreadPool;
use tinyhttp::url::Url;

#[test]
fn test_get() {
    let client = Client::new();
    let _ = client;
}

#[test]
fn tasks_run_exactly_once_and_the_counter_drains() {
    let mut pool = ThreadPool::new(4);
    let n: usize = 100;

    let mut spawned: Vec<u64> = Vec::new();
    for _ in 0..n {
        spawned.push(pool.spawn());
    }
    assert_eq!(pool.outstanding, n);

    let mut seen: Vec<u64> = Vec::new();
    while let Some(id) = pool.take() {
        seen.push(id);
        pool.complete();
    }

    assert_eq!(pool.outstanding, 0);
    assert_eq!(seen, spawned);
    for (i, id) in seen.iter().enumerate() {
        assert_eq!(*id, i as u64);
    }
    assert!(pool.take().is_none());
}

#[test]
fn worker_pops_only_when_work_is_plentiful() {
    let mut pool = ThreadPool::new(2);
    assert!(!pool.work_is_plentiful());
    let _ = pool.spawn();
    assert!(!pool.work_is_plentiful());
    let _ = pool.spawn();
    assert!(pool.work_is_plentiful());
    let _ = pool.take();
    pool.complete();
    assert!(!pool.work_is_plentiful());
}

#[test]
fn header_lookup_is_case_insensitive() {
    let mut headers = HeaderMap::empty();
    headers.insert_by_str_key_value("X-Request-Id", "17");
    assert_eq!(headers.get_by_str_key("x-request-id"), Some("17"));
    assert_eq!(headers.get_by_str_key("X-REQUEST-ID"), Some("17"));
    assert_eq!(headers.get_by_str_key("x-ReQuEsT-iD"), Some("17"));
    assert_eq!(headers.get_by_str_key("x-request-idx"), None);

    headers.insert_by_str_key_value("x-request-ID", "18");
    assert_eq!(headers.get_by_str_key("X-Request-Id"), Some("18"));
    assert_eq!(headers.0.len(), 1);
}

#[test]
fn header_values_parse_as_numbers() {
    let mut headers = HeaderMap::empty();
    headers.insert_by_str_key_value("Content-Length", "42");
    headers.insert_by_str_key_value("ETag", "abc");
    assert_eq!(headers.get_by_str_key_as("content-length"), Some(42));
    assert_eq!(headers.get_by_str_key_as("etag"), None);
    assert!(headers.contains_by_str_key_value("content-length", "42"));
    assert!(!headers.contains_by_str_key_value("content-length", "43"));
}

#[test]
fn urls_parse_host_port_and_target() {
    let url = Url::from_str("http://127.0.0.1:1234/hello_world/123").unwrap();
    assert_eq!(url.host, "127.0.0.1");
    assert_eq!(url.port, 1234);
    assert_eq!(url.uri, "/hello_world/123");

    let second_url = Url::from_str("http://0.0.0.0:65535").unwrap();
    assert_eq!(second_url.host, "0.0.0.0");
    assert_eq!(second_url.port, 65535);
    assert_eq!(second_url.uri, "/");

    assert!(Url::from_str("ftp://127.0.0.1:1234/").is_err());
    assert!(Url::from_str("http://127.0.0.1/").is_err());
    assert!(Url::from_str("http://127.0.0.1:99999/").is_err());
    assert!(Url::from_str("http://:80/").is_err());
}

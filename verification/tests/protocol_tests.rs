use instant_file_search::content::ContentStore;
use instant_file_search::index::FileIndex;
use instant_file_search::protocol::{
    apply_content_filter, handle, parse_method, Method, ProtocolError, Request, Response,
};
use instant_file_search::query::{AggregateOptions, QueryOptions};
use instant_file_search::types::IndexedFile;

fn file(path: &str, size: u64) -> IndexedFile {
    IndexedFile::new(path.to_string(), size, 0, 0, 0, false, 0)
}

fn setup() -> (FileIndex, ContentStore, Vec<String>) {
    let mut ix = FileIndex::new();
    ix.replace(vec![
        file(r"C:\src\main.rs", 10),
        file(r"C:\src\lib.rs", 20),
        file(r"C:\docs\readme.md", 5),
    ]);
    let mut store = ContentStore::new();
    store.insert(r"C:\src\main.rs", b"fn main() { start_server(); }");
    store.insert(r"C:\src\lib.rs", b"pub fn helper() {}");
    (ix, store, vec!["C:".to_string()])
}

fn q(query: &str) -> QueryOptions {
    QueryOptions { query: query.to_string(), ..Default::default() }
}

#[test]
fn method_names_map_to_methods() {
    assert_eq!(parse_method("ping"), Method::Ping);
    assert_eq!(parse_method("status"), Method::Status);
    assert_eq!(parse_method("count"), Method::Count);
    assert_eq!(parse_method("search"), Method::Search);
    assert_eq!(parse_method("aggregate"), Method::Aggregate);
    assert_eq!(parse_method("recent_changes"), Method::RecentChanges);
    assert_eq!(parse_method("Ping"), Method::Unknown);
    assert_eq!(parse_method("shutdown"), Method::Unknown);
}

#[test]
fn ping_and_status() {
    let (ix, store, vols) = setup();
    assert!(matches!(handle(&ix, &store, &vols, Request::Ping), Response::Pong));
    match handle(&ix, &store, &vols, Request::Status) {
        Response::Status { indexed, volumes } => {
            assert_eq!(indexed, 3);
            assert_eq!(volumes, vec!["C:".to_string()]);
        }
        _ => panic!("status expected"),
    }
}

#[test]
fn refused_requests_carry_their_error() {
    let (ix, store, vols) = setup();
    let r = handle(&ix, &store, &vols, Request::Unknown);
    assert!(!r.is_ok());
    match r {
        Response::Failed(e) => {
            assert_eq!(e, ProtocolError::UnknownMethod);
            assert_eq!(e.message(), "unknown method");
        }
        _ => panic!("failure expected"),
    }
    match handle(&ix, &store, &vols, Request::BadParams) {
        Response::Failed(e) => assert_eq!(e.message(), "bad params"),
        _ => panic!("failure expected"),
    }
    assert!(handle(&ix, &store, &vols, Request::Ping).is_ok());
}

#[test]
fn search_and_count_by_name() {
    let (ix, store, vols) = setup();
    match handle(&ix, &store, &vols, Request::Search(q("*.rs"))) {
        Response::Search(r) => {
            assert_eq!(r.total, 2);
            let mut names: Vec<String> = r.entries.iter().map(|e| e.name.clone()).collect();
            names.sort();
            assert_eq!(names, vec!["lib.rs".to_string(), "main.rs".to_string()]);
        }
        _ => panic!("search result expected"),
    }
    match handle(&ix, &store, &vols, Request::Count(q("readme"))) {
        Response::Count { total } => assert_eq!(total, 1),
        _ => panic!("count expected"),
    }
}

#[test]
fn content_terms_restrict_the_search() {
    let (ix, store, vols) = setup();
    match handle(&ix, &store, &vols, Request::Search(q("content:start_server"))) {
        Response::Search(r) => {
            assert_eq!(r.total, 1);
            assert_eq!(r.entries[0].path, r"C:\src\main.rs");
        }
        _ => panic!("search result expected"),
    }
    match handle(&ix, &store, &vols, Request::Count(q("*.rs content:nowhere"))) {
        Response::Count { total } => assert_eq!(total, 0),
        _ => panic!("count expected"),
    }
}

#[test]
fn content_filter_rewrites_the_options() {
    let (_, store, _) = setup();
    let mut o = q("ext:rs content:helper");
    o.max_results = 7;
    apply_content_filter(&store, &mut o);
    assert_eq!(o.query, "ext:rs");
    assert_eq!(o.content_paths, Some(vec![r"c:\src\lib.rs".to_string()]));
    assert_eq!(o.max_results, 7);
    let mut plain = q("ext:rs");
    apply_content_filter(&store, &mut plain);
    assert_eq!(plain.query, "ext:rs");
    assert_eq!(plain.content_paths, None);
}

#[test]
fn aggregate_request_sums_matches() {
    let (ix, store, vols) = setup();
    let o = AggregateOptions { query: "*.rs".to_string(), ..Default::default() };
    match handle(&ix, &store, &vols, Request::Aggregate(o)) {
        Response::Aggregate(a) => {
            assert_eq!(a.total, 2);
            assert_eq!(a.files, 2);
            assert_eq!(a.folders, 0);
            assert_eq!(a.total_size, 30);
        }
        _ => panic!("aggregate expected"),
    }
}

#[test]
fn recent_changes_request_reads_the_log() {
    let (mut ix, store, vols) = setup();
    ix.record_change(10, "CREATE", r"C:\x", false);
    ix.record_change(20, "DELETE", r"C:\y", false);
    match handle(&ix, &store, &vols, Request::RecentChanges { since: 10, limit: 0, reasons: None }) {
        Response::Changes(c) => {
            assert_eq!(c.len(), 1);
            assert_eq!(c[0].reason, "DELETE");
        }
        _ => panic!("changes expected"),
    }
}

#[test]
fn recent_changes_filter_by_reason() {
    let (mut ix, store, vols) = setup();
    ix.record_change(10, "CREATE", r"C:\a", false);
    ix.record_change(20, "DELETE", r"C:\b", false);
    ix.record_change(30, "WRITE", r"C:\c", false);
    ix.record_change(40, "RENAME", r"C:\d", false);
    ix.record_change(50, "RENAME_NEW", r"C:\e", false);
    let ask = |reasons: Option<&str>, limit: usize| -> Vec<String> {
        let req = Request::RecentChanges { since: 0, limit, reasons: reasons.map(|r| r.to_string()) };
        match handle(&ix, &store, &vols, req) {
            Response::Changes(c) => c.iter().map(|e| e.path.clone()).collect(),
            _ => panic!("changes expected"),
        }
    };
    assert_eq!(ask(Some("created,modified"), 0), vec![r"C:\a", r"C:\c"]);
    assert_eq!(ask(Some(" Renamed "), 0), vec![r"C:\d", r"C:\e"]);
    assert_eq!(ask(Some("deleted"), 0), vec![r"C:\b"]);
    assert_eq!(ask(Some("created,modified,renamed"), 2), vec![r"C:\a", r"C:\c"]);
    assert_eq!(ask(Some(""), 0).len(), 5);
    assert_eq!(ask(None, 3).len(), 3);
    assert!(ask(Some("moved"), 0).is_empty());
}

/// The request a decoded method name stands for, without parameters.
fn bare_request(json: &str) -> Request {
    let v: serde_json::Value = serde_json::from_str(json).unwrap();
    match parse_method(v["method"].as_str().unwrap()) {
        Method::Ping => Request::Ping,
        Method::Status => Request::Status,
        Method::Unknown => Request::Unknown,
        _ => Request::BadParams,
    }
}

#[test]
fn request_roundtrips_through_protocol() {
    let index = FileIndex::new();
    let content = ContentStore::new();
    let volumes: Vec<String> = vec![];
    let req = bare_request(r#"{"method":"status","params":null}"#);
    let response = handle(&index, &content, &volumes, req);
    assert!(response.is_ok());
    match response {
        Response::Status { indexed, volumes } => {
            assert_eq!(indexed, 0);
            assert!(volumes.is_empty());
        }
        _ => panic!("status data expected"),
    }
}

#[test]
fn ping_roundtrips_through_protocol() {
    let index = FileIndex::new();
    let content = ContentStore::new();
    let req = bare_request(r#"{"method":"ping"}"#);
    let response = handle(&index, &content, &vec![], req);
    assert!(response.is_ok());
    assert!(matches!(response, Response::Pong));
}

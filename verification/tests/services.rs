use routefilterd::api::{
    as_set_not_found_response, list_param, listing_response, value_not_found_response, ApiQuery,
};
use routefilterd::config::{default_recursion_depth, log_level_filter, LogLevel, LogLevelFilter, SimpleLogger};
use routefilterd::loader::{
    choose_decompression, parse_serial, peek_is_usable, plan_source, plan_url, CompressionType, SourcePlan, UrlPlan,
    UrlPlanError,
};
use routefilterd::nrtm::{NRTMRefreshMode, NrtmEvent, NrtmOutcome, NrtmSession};
use routefilterd::store::DataStore;

fn strings(items: &[&str]) -> Vec<String> {
    items.iter().map(|s| s.to_string()).collect()
}

fn session(mode: NRTMRefreshMode) -> NrtmSession {
    NrtmSession { data_source_name: "RIPE".to_string(), mode }
}

#[test]
fn nrtm_requests() {
    assert_eq!(
        session(NRTMRefreshMode::SingleLongLastingConnection).format_request(65887900),
        "-kg RIPE:3:65887900-LAST\n"
    );
    assert_eq!(
        session(NRTMRefreshMode::ScheduledMultipleConnection).format_request(0),
        "-g RIPE:3:0-LAST\n"
    );
}

#[test]
fn nrtm_opening_request_needs_the_data_source() {
    let mut store = DataStore::new();
    let s = session(NRTMRefreshMode::SingleLongLastingConnection);
    assert!(s.opening_request(&store).is_none());
    store.new_data_source("RIPE".to_string(), 65887900, 100);
    assert_eq!(s.opening_request(&store).unwrap(), "-kg RIPE:3:65887900-LAST\n");
}

#[test]
fn nrtm_add_imports_and_records_the_serial() {
    let mut store = DataStore::new();
    store.new_data_source("RIPE".to_string(), 65887900, 100);
    let s = session(NRTMRefreshMode::SingleLongLastingConnection);
    let outcome = s.handle(
        &mut store,
        NrtmEvent::Add {
            serial: 65887901,
            rpsl: "as-set: AS62425:AS-KZYDC\nmembers: AS62425\n\n".to_string(),
        },
    );
    assert!(matches!(outcome, NrtmOutcome::Imported { serial: 65887901 }));
    assert_eq!(store.data_source(&"RIPE".to_string()).unwrap().current_serial, 65887901);
    assert!(store
        .query_as_set(vec!["RIPE".to_string()], "AS62425:AS-KZYDC".to_string(), &[])
        .is_some());
}

#[test]
fn nrtm_refused_add_keeps_the_serial() {
    let mut store = DataStore::new();
    store.new_data_source("RIPE".to_string(), 10, 100);
    let s = session(NRTMRefreshMode::SingleLongLastingConnection);
    let outcome = s.handle(&mut store, NrtmEvent::Add { serial: 11, rpsl: "garbage".to_string() });
    assert!(matches!(outcome, NrtmOutcome::ImportRefused { serial: 11, .. }));
    assert_eq!(store.data_source(&"RIPE".to_string()).unwrap().current_serial, 10);
}

#[test]
fn nrtm_other_events() {
    let mut store = DataStore::new();
    let s = session(NRTMRefreshMode::ScheduledMultipleConnection);
    assert!(matches!(s.handle(&mut store, NrtmEvent::EndOfStream), NrtmOutcome::Finished));
    assert!(matches!(
        s.handle(&mut store, NrtmEvent::Delete { serial: 3 }),
        NrtmOutcome::DeletionNotSupported { serial: 3 }
    ));
    assert!(matches!(s.handle(&mut store, NrtmEvent::Version2Update), NrtmOutcome::Ignored));
    assert!(matches!(s.handle(&mut store, NrtmEvent::ParserError), NrtmOutcome::StreamError));
    assert!(matches!(s.handle(&mut store, NrtmEvent::ChunkTooLong), NrtmOutcome::StreamError));
    assert!(matches!(s.handle(&mut store, NrtmEvent::Fatal), NrtmOutcome::Abort));
}

#[test]
fn list_params() {
    assert_eq!(list_param("a,,b,"), strings(&["a", "b"]));
    assert!(list_param("").is_empty());
    assert_eq!(list_param("RIPE"), strings(&["RIPE"]));
}

fn store_for_api() -> DataStore {
    let mut store = DataStore::new();
    store.new_data_source("ripe".to_string(), 0, 1);
    for obj in [
        "as-set: AS-TOP\nmembers: AS2, AS1, AS-SUB\n\n",
        "as-set: AS-SUB\nmembers: AS2, AS3\n\n",
        "route: 11.0.0.0/8\norigin: AS1\n\n",
        "route: 11.0.0.0/8\norigin: AS2\n\n",
        "route: 193.0.2.0/24\norigin: AS3\n\n",
    ] {
        store.import_object("ripe".to_string(), obj.to_string()).unwrap();
    }
    store
}

fn query(name: &str) -> ApiQuery {
    ApiQuery {
        name: name.to_string(),
        recursion_depth: None,
        ignore_as_sets: String::new(),
        datasources: String::new(),
        ignore_datasource: String::new(),
    }
}

#[test]
fn api_answers() {
    let store = store_for_api();
    assert_eq!(
        store.asns_from_as_set(&query("AS-TOP"), 64).unwrap(),
        strings(&["AS1", "AS2", "AS3"])
    );
    assert_eq!(
        store.routes_from_as_set(&query("AS-TOP"), 64).unwrap(),
        strings(&["11.0.0.0/8", "193.0.2.0/24"])
    );
    let mut q = query("AS-TOP");
    q.recursion_depth = Some(0);
    assert_eq!(store.asns_from_as_set(&q, 64).unwrap(), strings(&["AS1", "AS2"]));
    q.ignore_as_sets = "AS-SUB".to_string();
    q.recursion_depth = None;
    assert_eq!(store.asns_from_as_set(&q, 64).unwrap(), strings(&["AS1", "AS2"]));
    assert_eq!(
        store.as_set_listing(&query("as-top")).unwrap(),
        strings(&["AS-SUB", "AS1", "AS2"])
    );
    assert!(store.as_set_listing(&query("AS-NONE")).is_none());
    let mut q = query("AS-TOP");
    q.ignore_datasource = "ripe".to_string();
    assert!(store.as_set_listing(&q).is_none());
}

#[test]
fn api_texts() {
    let items = strings(&["AS1", "AS2"]);
    assert_eq!(
        listing_response("Recursed AS-Set resolution", "AS-TOP", 1234, &items),
        "# Recursed AS-Set resolution for 'AS-TOP' in 1234μs, 2 items\n[\n  \"AS1\",\n  \"AS2\"\n]"
    );
    assert_eq!(
        listing_response("Requested AS-Set", "X", 0, &vec![]),
        "# Requested AS-Set for 'X' in 0μs, 0 items\n[]"
    );
    assert_eq!(value_not_found_response("AS-X"), "Value for 'AS-X' not found in cache.");
    assert_eq!(as_set_not_found_response("AS-X"), "AS-SET 'AS-X' not found in cache.");
}

#[test]
fn decompression_choice() {
    assert!(choose_decompression("/ripe/dbase/ripe.db.gz", None) == Some(CompressionType::Gzip));
    assert!(choose_decompression("/test.db", None).is_none());
    assert!(choose_decompression("/tmp/noextension", None).is_none());
    let gzip_magic: [u8; 10] = [0x1f, 0x8b, 0x08, 0, 0, 0, 0, 0, 0, 0x03];
    assert!(choose_decompression("/test.db", Some(&gzip_magic)) == Some(CompressionType::Gzip));
    assert!(choose_decompression("/test.db", Some(b"TESTDATA\nTESTADA")).is_none());
    assert!(peek_is_usable(1));
    assert!(peek_is_usable(8192));
    assert!(!peek_is_usable(0));
    assert!(!peek_is_usable(8193));
}

#[test]
fn url_plans() {
    assert!(matches!(
        plan_url("ftp", Some("ftp.ripe.net".to_string()), None),
        Ok(UrlPlan::Ftp { port: 21, .. })
    ));
    assert!(matches!(
        plan_url("ftp", Some("h".to_string()), Some(2121)),
        Ok(UrlPlan::Ftp { port: 2121, .. })
    ));
    assert!(matches!(plan_url("ftp", None, None), Err(UrlPlanError::NoHost)));
    assert!(matches!(plan_url("https", None, Some(443)), Ok(UrlPlan::Http)));
    assert!(matches!(plan_url("http", None, None), Ok(UrlPlan::Http)));
    assert!(matches!(plan_url("file", None, None), Ok(UrlPlan::File)));
    match plan_url("gopher", Some("example.com".to_string()), None) {
        Err(UrlPlanError::UnsupportedSchema(s)) => assert_eq!(s, "gopher"),
        _ => panic!("gopher is not supported"),
    }
}

#[test]
fn serial_texts() {
    assert_eq!(parse_serial("\n  9999999999999999999999999999\n").unwrap(), 9999999999999999999999999999);
    assert_eq!(parse_serial("+7").unwrap(), 7);
    assert!(parse_serial("").is_err());
    assert!(parse_serial("12a").is_err());
    assert!(parse_serial("-1").is_err());
    assert!(parse_serial("340282366920938463463374607431768211456").is_err());
}

#[test]
fn config_decisions() {
    assert_eq!(default_recursion_depth(), 64);
    assert!(log_level_filter(" info ") == LogLevelFilter::Info);
    assert!(log_level_filter("trace") == LogLevelFilter::Trace);
    assert!(log_level_filter("warn") == LogLevelFilter::Warn);
    assert!(log_level_filter("error") == LogLevelFilter::Error);
    assert!(log_level_filter("debug") == LogLevelFilter::Debug);
    assert!(log_level_filter("loud") == LogLevelFilter::Debug);
    let logger = SimpleLogger;
    assert!(logger.enabled(LogLevel::Error));
    assert!(logger.enabled(LogLevel::Info));
    assert!(!logger.enabled(LogLevel::Debug));
    assert_eq!(logger.line(LogLevel::Warn, "careful"), "WARN - careful");
}

#[test]
fn starting_serials() {
    assert_eq!(routefilterd::loader::starting_serial(Some(42), 7), 42);
    assert_eq!(routefilterd::loader::starting_serial(None, 7), 7);
    assert_eq!(routefilterd::loader::starting_serial(Some(u64::MAX as u128), 7), u64::MAX);
    assert_eq!(routefilterd::loader::starting_serial(Some(u64::MAX as u128 + 1), 7), 7);
}

#[test]
fn stream_items_are_imported_until_an_error() {
    let mut store = DataStore::new();
    assert_eq!(
        store.import_stream_item("ripe", Ok("as-set: AS-X\nmembers: AS3333\n\n".to_string())),
        Ok(())
    );
    assert_eq!(
        store.import_stream_item("ripe", Err("connection reset".to_string())),
        Err("connection reset".to_string())
    );
    let found = store.query_as_set(vec!["ripe".to_string()], "AS-X".to_string(), &[]).unwrap();
    assert_eq!(found.asns, vec!["AS3333".to_string()]);
}

#[test]
fn sorted_sources_after_registration() {
    let mut s = DataStore::new();
    s.new_data_source("a".into(), 0, 1);
    s.new_data_source("b".into(), 0, 3);
    s.new_data_source("c".into(), 0, 2);
    assert_eq!(s.get_sorted_data_sources(&["c".to_string()]), vec!["b", "a"]);
    assert_eq!(s.get_sorted_data_sources(&[]), vec!["b", "c", "a"]);
}

#[test]
fn source_plans() {
    match plan_source("ftp://ftp.ripe.net/ripe/dbase/ripe.db.gz") {
        Ok(SourcePlan::Ftp { host, port, path }) => {
            assert_eq!(host, "ftp.ripe.net");
            assert_eq!(port, 21);
            assert_eq!(path, "/ripe/dbase/ripe.db.gz");
        }
        _ => panic!("an FTP source"),
    }
    match plan_source("ftp://example.com:2121/x") {
        Ok(SourcePlan::Ftp { port, .. }) => assert_eq!(port, 2121),
        _ => panic!("an FTP source"),
    }
    match plan_source("https://ftp.ripe.net/ripe/dbase/ripe.db.gz") {
        Ok(SourcePlan::Http { url }) => assert_eq!(url, "https://ftp.ripe.net/ripe/dbase/ripe.db.gz"),
        _ => panic!("an HTTP source"),
    }
    match plan_source("file:///tmp/arin.db") {
        Ok(SourcePlan::File { path }) => assert_eq!(path, "/tmp/arin.db"),
        _ => panic!("a file URL"),
    }
    match plan_source("file:///tmp/a%20b.db") {
        Ok(SourcePlan::File { path }) => assert_eq!(path, "/tmp/a b.db"),
        _ => panic!("a file URL"),
    }
    match plan_source("data/arin.db") {
        Ok(SourcePlan::File { path }) => assert_eq!(path, "data/arin.db"),
        _ => panic!("a local path"),
    }
    match plan_source("gopher://example.com/trusted.db.gz") {
        Err(UrlPlanError::UnsupportedSchema(s)) => assert_eq!(s, "gopher"),
        _ => panic!("gopher is not supported"),
    }
    assert!(matches!(plan_source(""), Err(UrlPlanError::EmptySource)));
}

#[test]
fn last_object_of_a_dump_is_imported_without_its_blank_line() {
    let mut store = DataStore::new();
    assert_eq!(store.import_stream_item("ripe", Ok("as-set: AS-X\nmembers: AS3333\n".to_string())), Ok(()));
    let found = store.query_as_set(vec!["ripe".to_string()], "AS-X".to_string(), &[]).unwrap();
    assert_eq!(found.asns, vec!["AS3333".to_string()]);
    assert!(store.import_object("ripe".to_string(), "as-set: AS-Y\nmembers: AS3333\n".to_string()).is_err());
}

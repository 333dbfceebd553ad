use routefilterd::store::{AsRoutes, AsSet, DataStore};

fn strings(items: &[&str]) -> Vec<String> {
    items.iter().map(|s| s.to_string()).collect()
}

const WIKIMEDIA_SET: &str = "as-set:         AS-WIKIMEDIA-ARIN
descr:          Wikimedia Foundation
members:        AS14907, AS11820
source:         ARIN

";

fn wikimedia_route(prefix: &str, attr: &str) -> String {
    format!("{attr}:          {prefix}\norigin:         AS14907\nsource:         ARIN\n\n")
}

fn wikimedia_store() -> DataStore {
    let mut store = DataStore::new();
    store.import_object("arin".to_string(), WIKIMEDIA_SET.to_string()).unwrap();
    for p in ["198.35.26.0/24", "198.35.27.0/24", "208.80.152.0/23", "208.80.154.0/23"] {
        store.import_object("arin".to_string(), wikimedia_route(p, "route")).unwrap();
    }
    for p in ["2620:0:860::/48", "2620:0:861::/48", "2620:0:863::/48"] {
        store.import_object("arin".to_string(), wikimedia_route(p, "route6")).unwrap();
    }
    store
}

#[test]
fn asn_query_returns_all_routes_of_the_origin() {
    let store = wikimedia_store();
    let mut result: AsRoutes = store
        .query_asn(vec!["arin".to_string()], "AS14907".to_string())
        .expect("routes for AS14907");
    let mut expected = strings(&[
        "198.35.26.0/24",
        "198.35.27.0/24",
        "208.80.152.0/23",
        "208.80.154.0/23",
        "2620:0:860::/48",
        "2620:0:861::/48",
        "2620:0:863::/48",
    ]);
    expected.sort();
    result.prefixes.sort();
    assert_eq!(result.prefixes, expected);
}

#[test]
fn asn_query_keeps_import_order() {
    let store = wikimedia_store();
    let result = store.query_asn(vec!["arin".to_string()], "AS14907".to_string()).unwrap();
    assert_eq!(result.prefixes[0], "198.35.26.0/24");
    assert_eq!(result.prefixes[6], "2620:0:863::/48");
}

#[test]
fn asn_query_unknown_asn_or_source() {
    let store = wikimedia_store();
    assert!(store.query_asn(vec!["arin".to_string()], "AS11820".to_string()).is_none());
    assert!(store.query_asn(vec!["ripe".to_string()], "AS14907".to_string()).is_none());
    assert!(store.query_asn(vec![], "AS14907".to_string()).is_none());
}

#[test]
fn as_set_shallow_query_over_all_sources() {
    let mut store = wikimedia_store();
    store.new_data_source("arin".to_string(), 1, 200);
    let mut result: AsSet = store
        .query_as_set(vec![], "AS-WIKIMEDIA-ARIN".to_string(), &[])
        .expect("the as-set");
    result.asns.sort();
    assert_eq!(result.asns, strings(&["AS11820", "AS14907"]));
    assert_eq!(result.as_sets.len(), 0);
}

#[test]
fn as_set_query_uppercases_the_name() {
    let store = wikimedia_store();
    let result = store
        .query_as_set(vec!["arin".to_string()], "as-wikimedia-arin".to_string(), &[])
        .expect("found in upper case");
    assert_eq!(result.asns, strings(&["AS11820", "AS14907"]));
}

#[test]
fn as_set_query_skips_ignored_sources() {
    let store = wikimedia_store();
    let ignore = strings(&["arin"]);
    assert!(store
        .query_as_set(vec!["arin".to_string()], "AS-WIKIMEDIA-ARIN".to_string(), &ignore)
        .is_none());
}

#[test]
fn unregistered_sources_are_not_asked_by_priority() {
    let store = wikimedia_store();
    // "arin" holds the set but is not registered, so a query over all
    // registered sources finds nothing
    assert!(store.query_as_set(vec![], "AS-WIKIMEDIA-ARIN".to_string(), &[]).is_none());
}

#[test]
fn higher_priority_source_answers_first() {
    let mut store = DataStore::new();
    store.new_data_source("low".to_string(), 0, 100);
    store.new_data_source("high".to_string(), 0, 500);
    store
        .import_object("low".to_string(), "as-set: AS-X\nmembers: AS1\n\n".to_string())
        .unwrap();
    store
        .import_object("high".to_string(), "as-set: AS-X\nmembers: AS2\n\n".to_string())
        .unwrap();
    let found = store.query_as_set(vec![], "AS-X".to_string(), &[]).unwrap();
    assert_eq!(found.asns, strings(&["AS2"]));
    let found = store
        .query_as_set(vec![], "AS-X".to_string(), &strings(&["high"]))
        .unwrap();
    assert_eq!(found.asns, strings(&["AS1"]));
    let found = store
        .query_as_set(strings(&["low", "high"]), "AS-X".to_string(), &[])
        .unwrap();
    assert_eq!(found.asns, strings(&["AS1"]));
}

#[test]
fn sorted_data_sources_by_priority_then_registration() {
    let mut store = DataStore::new();
    store.new_data_source("a".to_string(), 0, 1);
    store.new_data_source("b".to_string(), 0, 3);
    store.new_data_source("c".to_string(), 0, 1);
    store.new_data_source("d".to_string(), 0, 2);
    assert_eq!(store.get_sorted_data_sources(&[]), strings(&["b", "d", "a", "c"]));
    assert_eq!(store.get_sorted_data_sources(&strings(&["d", "a"])), strings(&["b", "c"]));
    // registering anew changes the priority, not the place
    store.new_data_source("a".to_string(), 7, 5);
    assert_eq!(store.get_sorted_data_sources(&[]), strings(&["a", "b", "d", "c"]));
    let a = store.data_source(&"a".to_string()).unwrap();
    assert_eq!(a.current_serial, 7);
    assert_eq!(a.priority, 5);
}

#[test]
fn recursive_query_follows_members_and_cycles() {
    let mut store = DataStore::new();
    store.new_data_source("ripe".to_string(), 0, 1);
    for obj in [
        "as-set: AS-TOP\nmembers: AS1, AS-MID\n\n",
        "as-set: AS-MID\nmembers: AS2, AS-LEAF, AS-TOP\n\n",
        "as-set: AS-LEAF\nmembers: AS3\n\n",
    ] {
        store.import_object("ripe".to_string(), obj.to_string()).unwrap();
    }
    let all = store
        .query_as_set_recursive("AS-TOP".to_string(), 30, vec![], &vec![])
        .unwrap();
    assert_eq!(all, strings(&["AS1", "AS2", "AS3"]));
    let shallow = store
        .query_as_set_recursive("AS-TOP".to_string(), 0, vec![], &vec![])
        .unwrap();
    assert_eq!(shallow, strings(&["AS1"]));
    let one_level = store
        .query_as_set_recursive("AS-TOP".to_string(), 1, vec![], &vec![])
        .unwrap();
    assert_eq!(one_level, strings(&["AS1", "AS2"]));
    let ignoring = store
        .query_as_set_recursive("AS-TOP".to_string(), 30, strings(&["AS-LEAF"]), &vec![])
        .unwrap();
    assert_eq!(ignoring, strings(&["AS1", "AS2"]));
    let ignored = store
        .query_as_set_recursive("AS-TOP".to_string(), 30, strings(&["AS-TOP"]), &vec![])
        .unwrap();
    assert!(ignored.is_empty());
}

#[test]
fn recursive_query_marks_the_set_visited() {
    let store = DataStore::new();
    let mut visited = strings(&["AS-A"]);
    let r = store._query_as_set_recursive("AS-B".to_string(), 3, &mut visited, &vec![]).unwrap();
    assert!(r.is_empty());
    assert_eq!(visited, strings(&["AS-A", "AS-B"]));
    let r = store._query_as_set_recursive("AS-A".to_string(), 3, &mut visited, &vec![]).unwrap();
    assert!(r.is_empty());
    assert_eq!(visited, strings(&["AS-A", "AS-B"]));
}

#[test]
fn recursive_query_asks_all_sources_when_all_are_excluded() {
    let mut store = DataStore::new();
    store.new_data_source("ripe".to_string(), 0, 1);
    store
        .import_object("ripe".to_string(), "as-set: AS-X\nmembers: AS9\n\n".to_string())
        .unwrap();
    let r = store
        .query_as_set_recursive("AS-X".to_string(), 5, vec![], &strings(&["ripe"]))
        .unwrap();
    assert_eq!(r, strings(&["AS9"]));
}

#[test]
fn prefixes_of_recursive_query() {
    let mut store = wikimedia_store();
    store.new_data_source("arin".to_string(), 0, 200);
    let prefixes = store
        .query_as_set_prefixes_recursive("AS-WIKIMEDIA-ARIN".to_string(), 5, vec![], &vec![])
        .unwrap();
    assert_eq!(prefixes.len(), 7);
    assert_eq!(prefixes[0], "198.35.26.0/24");
}

#[test]
fn import_refuses_unparsable_text() {
    let mut store = DataStore::new();
    let err = store
        .import_object("ripe".to_string(), "this is not rpsl".to_string())
        .unwrap_err();
    assert!(err.starts_with("Error parsing obj: \"this is not rpsl\", "));
}

#[test]
fn import_refuses_object_without_name() {
    let mut store = DataStore::new();
    let err = store
        .import_object("ripe".to_string(), "as-set:\nmembers: AS1\n\n".to_string())
        .unwrap_err();
    assert_eq!(err, "");
}

#[test]
fn import_passes_over_other_objects() {
    let mut store = DataStore::new();
    store
        .import_object("ripe".to_string(), "person: Jane Doe\nnic-hdl: JD1-RIPE\n\n".to_string())
        .unwrap();
    assert!(store.query_asn(vec!["ripe".to_string()], "JANE DOE".to_string()).is_none());
}

#[test]
fn import_cleans_names_and_origins() {
    let mut store = DataStore::new();
    store
        .import_object(
            "ripe".to_string(),
            "route: 2A02:0EC0::/32 # office\norigin: as3333 # ours\n\n".to_string(),
        )
        .unwrap();
    let r = store.query_asn(vec!["ripe".to_string()], "AS3333".to_string()).unwrap();
    assert_eq!(r.prefixes, strings(&["2a02:ec0::/32"]));
}

#[test]
fn import_replaces_an_as_set() {
    let mut store = DataStore::new();
    store
        .import_object("ripe".to_string(), "as-set: AS-X\nmembers: AS1\n\n".to_string())
        .unwrap();
    store
        .import_object("ripe".to_string(), "as-set: as-x\nmembers: AS2\n\n".to_string())
        .unwrap();
    let r = store.query_as_set(vec!["ripe".to_string()], "AS-X".to_string(), &[]).unwrap();
    assert_eq!(r.asns, strings(&["AS2"]));
}

#[test]
fn clean_string_examples() {
    assert_eq!(DataStore::clean_string("  as-foo # comment"), "AS-FOO");
    assert_eq!(DataStore::clean_string("AS1"), "AS1");
    assert_eq!(DataStore::clean_string("# only a comment"), "");
    assert_eq!(DataStore::clean_string("\t as65000:as-bar \u{a0}"), "AS65000:AS-BAR");
}

#[test]
fn parse_members_examples() {
    let (asns, sets) = DataStore::parse_members(strings(&[
        "AS2602",
        "AS-LXP, as112 # comment, AS-HIDDEN",
        "AS3 AS1",
        "AS2602,AS261",
        "RIPE::AS-FOO AS57555:AS-MEMBERS",
        "not-a-member, AS, AS-",
    ]));
    assert_eq!(asns, strings(&["AS1", "AS112", "AS2602", "AS261", "AS3"]));
    assert_eq!(sets, strings(&["AS-HIDDEN", "AS-LXP", "AS57555:AS-MEMBERS", "RIPE::AS-FOO"]));
}

#[test]
fn parse_members_empty() {
    let (asns, sets) = DataStore::parse_members(vec![]);
    assert!(asns.is_empty());
    assert!(sets.is_empty());
}

#[test]
fn record_serial_updates_or_registers() {
    let mut store = DataStore::new();
    store.new_data_source("ripe".to_string(), 1, 9);
    store.record_serial("ripe".to_string(), 42);
    let ds = store.data_source(&"ripe".to_string()).unwrap();
    assert_eq!((ds.current_serial, ds.priority), (42, 9));
    store.record_serial("other".to_string(), 42);
    let ds = store.data_source(&"other".to_string()).unwrap();
    assert_eq!((ds.current_serial, ds.priority), (0, 0));
}

#[test]
fn default_store_is_empty() {
    let store = DataStore::default();
    assert!(store.get_sorted_data_sources(&[]).is_empty());
    assert!(store.data_source(&"x".to_string()).is_none());
}

const RIPE_DUMP: &str = "
#
# The contents of this file are subject to
# RIPE Database Terms and Conditions
#

as-set:         AS-RESTENA
descr:          Reseau Teleinformatique de l'Education Nationale
members:        AS2602
members:        AS42909
members:        AS51966
members:        AS-LXP
members:        AS-VDL
members:        AS112
mnt-by:         AS2602-MNT
source:         RIPE

as-set:         AS-RENATER
descr:          RENATER
members:        AS261,    AS288,    AS513
members:        AS789
members:        AS201659, AS202321
source:         RIPE
";

#[test]
fn ripe_dump_is_split_and_imported() {
    let mut splitter = routefilterd::rpsl::RpslSplitter::new();
    let mut objects = Vec::new();
    for line in RIPE_DUMP.lines() {
        if let Some(o) = splitter.feed_line(line) {
            objects.push(o);
        }
    }
    if let Some(o) = splitter.finish() {
        objects.push(o);
    }
    assert_eq!(objects.len(), 2);
    assert!(objects[0].starts_with("as-set:         AS-RESTENA\n"));
    assert!(objects[0].ends_with("source:         RIPE\n\n"));
    assert!(objects[1].starts_with("as-set:         AS-RENATER\n"));
    assert!(objects[1].ends_with("source:         RIPE\n"));
    assert!(!objects[1].ends_with("\n\n"));

    let mut store = DataStore::new();
    store.new_data_source("RIPE".to_string(), 1, 100);
    for o in objects {
        store.import_stream_item("RIPE", Ok(o)).unwrap();
    }
    let restena = store.query_as_set(vec![], "as-restena".to_string(), &[]).unwrap();
    assert_eq!(restena.asns, strings(&["AS112", "AS2602", "AS42909", "AS51966"]));
    assert_eq!(restena.as_sets, strings(&["AS-LXP", "AS-VDL"]));
    let renater = store.query_as_set(vec!["RIPE".to_string()], "AS-RENATER".to_string(), &[]).unwrap();
    assert_eq!(
        renater.asns,
        strings(&["AS201659", "AS202321", "AS261", "AS288", "AS513", "AS789"])
    );
    assert!(renater.as_sets.is_empty());
}

#[test]
fn route_with_repeated_origin_adds_its_prefix_each_time() {
    let mut store = DataStore::new();
    store
        .import_object("ripe".to_string(), "route: 193.0.2.0/24\norigin: AS1\n\n".to_string())
        .unwrap();
    store
        .import_object(
            "ripe".to_string(),
            "route: 199.51.100.0/24\norigin: as1\norigin: AS2\norigin: AS1 # again\norigin: # none\n\n"
                .to_string(),
        )
        .unwrap();
    let r1 = store.query_asn(vec!["ripe".to_string()], "AS1".to_string()).unwrap();
    assert_eq!(r1.prefixes, strings(&["193.0.2.0/24", "199.51.100.0/24", "199.51.100.0/24"]));
    let r2 = store.query_asn(vec!["ripe".to_string()], "AS2".to_string()).unwrap();
    assert_eq!(r2.prefixes, strings(&["199.51.100.0/24"]));
}

#[test]
fn route_prefixes_are_normalized() {
    let mut store = DataStore::new();
    let objects = [
        "route6: 2620:0000:0860::/48\norigin: AS14907\n\n",
        "route6: 2001:0DB9:0:0:1:0:0:1/64\norigin: AS14907\n\n",
        "route6: 2a00:1:0:0:1::/64\norigin: AS14907\n\n",
        "route6: 2a00:0:1:2:3:4:5:6/128\norigin: AS14907\n\n",
        "route: 198.035.026.000/24 # padded\norigin: AS14907\n\n",
    ];
    for o in objects {
        assert_eq!(store.import_object("A".into(), o.to_string()), Ok(()));
    }
    let r = store.query_asn(vec!["A".into()], "AS14907".into()).unwrap();
    assert_eq!(
        r.prefixes,
        strings(&[
            "2620:0:860::/48",
            "2001:db9::1:0:0:1/64",
            "2a00:1:0:0:1::/64",
            "2a00:0:1:2:3:4:5:6/128",
            "198.35.26.0/24",
        ])
    );
}

#[test]
fn non_public_and_malformed_prefixes_are_left_out() {
    let mut store = DataStore::new();
    let objects = [
        "route: 10.0.0.0/8\norigin: AS3333\n\n",
        "route: 192.168.1.0/24\norigin: AS3333\n\n",
        "route: 100.64.0.0/10\norigin: AS3333\n\n",
        "route6: 2001:db8::/32\norigin: AS3333\n\n",
        "route6: fe80::/10\norigin: AS3333\n\n",
        "route6: fd00::/8\norigin: AS3333\n\n",
        "route: 256.0.0.0/8\norigin: AS3333\n\n",
        "route: 193.0.0.0/33\norigin: AS3333\n\n",
        "route6: 2a00::1::/64\norigin: AS3333\n\n",
        "route: not-a-prefix\norigin: AS3333\n\n",
    ];
    for o in objects {
        assert_eq!(store.import_object("A".into(), o.to_string()), Ok(()));
    }
    assert!(store.query_asn(vec!["A".into()], "AS3333".into()).is_none());
}

#[test]
fn non_public_asns_are_left_out() {
    let (asns, sets) = DataStore::parse_members(strings(&["AS3333, AS64512"]));
    assert_eq!(asns, strings(&["AS3333"]));
    assert!(sets.is_empty());
    let (asns, _) = DataStore::parse_members(strings(&[
        "AS0 AS23456 AS64496 AS65535 AS65551 AS131071 AS4200000000 AS4294967295 AS99999999999",
        "AS1 AS131072 AS4199999999",
    ]));
    assert_eq!(asns, strings(&["AS1", "AS131072", "AS4199999999"]));

    let mut store = DataStore::new();
    store
        .import_object("A".into(), "route: 193.0.0.0/21\norigin: AS64512\norigin: AS3333\n\n".into())
        .unwrap();
    assert!(store.query_asn(vec!["A".into()], "AS64512".into()).is_none());
    assert_eq!(
        store.query_asn(vec!["A".into()], "AS3333".into()).unwrap().prefixes,
        strings(&["193.0.0.0/21"])
    );
}

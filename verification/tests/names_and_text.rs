use routefilterd::names::{is_as_set, is_asn};
use routefilterd::rpsl::RpslSplitter;
use routefilterd::text::{chars_of, sorted_unique, string_of, trim_chars, words_of};

fn chars(s: &str) -> Vec<char> {
    s.chars().collect()
}

#[test]
fn asn_shapes() {
    assert!(is_asn(&chars("AS65000")));
    assert!(is_asn(&chars("AS0")));
    assert!(!is_asn(&chars("AS")));
    assert!(!is_asn(&chars("as65000")));
    assert!(!is_asn(&chars("AS65000 ")));
    assert!(!is_asn(&chars("AS-65000")));
    assert!(!is_asn(&chars("ASX")));
    assert!(!is_asn(&chars("")));
}

#[test]
fn as_set_shapes() {
    for ok in [
        "AS-FOO",
        "AS-FOO-BAR2",
        "AS65000:AS-FOO",
        "AS65000::AS-FOO",
        "RIPE::AS-FOO",
        "RIPE::AS65000:AS-FOO",
        "AS-A",
        "AS::AS-X",
        "AS-AS-",
    ] {
        assert!(is_as_set(&chars(ok)), "{ok}");
    }
    for bad in [
        "AS-",
        "as-foo",
        "AS65000",
        "RIPE:AS-FOO",
        "::AS-FOO",
        "AS:AS-FOO",
        "AS65000AS-FOO",
        "AS-FOO_BAR",
        "AS-FOO BAR",
        "AS65000:",
        "RIPE::",
        "",
        "X",
    ] {
        assert!(!is_as_set(&chars(bad)), "{bad}");
    }
}

#[test]
fn trimming_uses_unicode_white_space() {
    let t = trim_chars(&chars("\u{3000} a b\t\n\u{2028}"));
    assert_eq!(string_of(&t), "a b");
    assert_eq!(string_of(&trim_chars(&chars("   "))), "");
    assert_eq!(string_of(&trim_chars(&chars("x"))), "x");
}

#[test]
fn words_split_at_white_space() {
    let w = words_of(&chars("  AS1\tAS2  AS3 "));
    let w: Vec<String> = w.iter().map(|v| string_of(v)).collect();
    assert_eq!(w, vec!["AS1", "AS2", "AS3"]);
    assert!(words_of(&chars("   ")).is_empty());
}

#[test]
fn chars_round_trip() {
    let s = "größe-ÄS";
    assert_eq!(string_of(&chars_of(s)), s);
}

#[test]
fn sorted_unique_sorts_by_code_point() {
    let v: Vec<String> = ["b", "a", "B", "a", "ä", "ab", ""].iter().map(|s| s.to_string()).collect();
    assert_eq!(sorted_unique(v), vec!["", "B", "a", "ab", "b", "ä"]);
}

fn split_all(lines: &[&str]) -> Vec<String> {
    let mut splitter = RpslSplitter::new();
    let mut objects = Vec::new();
    for line in lines {
        if let Some(o) = splitter.feed_line(line) {
            objects.push(o);
        }
    }
    if let Some(o) = splitter.finish() {
        objects.push(o);
    }
    objects
}

#[test]
fn splitter_drops_comments_and_ends_objects_at_blank_lines() {
    let objects = split_all(&[
        "#",
        "# The contents of this file are subject to",
        "#",
        "",
        "as-set:         AS-RESTENA",
        "members:        AS2602",
        "",
        "",
        "as-set:         AS-RENATER",
        "# a comment inside",
        "members:        AS261,    AS288",
    ]);
    assert_eq!(
        objects,
        vec![
            "as-set:         AS-RESTENA\nmembers:        AS2602\n\n".to_string(),
            "as-set:         AS-RENATER\nmembers:        AS261,    AS288\n".to_string(),
        ]
    );
}

#[test]
fn splitter_on_empty_input() {
    assert!(split_all(&[]).is_empty());
    assert!(split_all(&["", "#", ""]).is_empty());
}

/// An RPSL dump as the RIPE database publishes it, comments first.
const RIPE_DUMP: &str = r#"
#
# The contents of this file are subject to
# RIPE Database Terms and Conditions
#
# https://docs.db.ripe.net/terms-conditions.html
#

as-set:         AS-RESTENA
descr:          Reseau Teleinformatique de l'Education Nationale
descr:          Educational and research network for Luxembourg
members:        AS2602
members:        AS42909
members:        AS51966
members:        AS-LXP
members:        AS-VDL
members:        AS112
tech-c:         DUMY-RIPE
admin-c:        DUMY-RIPE
notify:         noc@restena.lu
mnt-by:         AS2602-MNT
created:        1970-01-01T00:00:00Z
last-modified:  2024-08-08T12:58:40Z
source:         RIPE
remarks:        ****************************
remarks:        * THIS OBJECT IS MODIFIED
remarks:        * Please note that all data that is generally regarded as personal
remarks:        * data has been removed from this object.
remarks:        * To view the original object, please query the RIPE Database at:
remarks:        * http://www.ripe.net/whois
remarks:        ****************************

as-set:         AS-RENATER
descr:          RENATER
members:        AS261,    AS288,    AS513,    AS775,    AS776,    AS777,    AS781,    AS782
members:        AS789
members:        AS1300,   AS1303,   AS1304,   AS1307,   AS1712,   AS1715,   AS1717,   AS1724
members:        AS1725,   AS1726,   AS1935,   AS1936,   AS1937,   AS1938,   AS1939,   AS1940
members:        AS1941,   AS1942,   AS1943,   AS1944,   AS1945,   AS1948,   AS1951
members:        AS2060,   AS2065,   AS2067,   AS2072,   AS2085,   AS2088,   AS2089,   AS2094
members:        AS2103,   AS2187,   AS2188,   AS2193,   AS2194,   AS2198,   AS2199,   AS2200
members:        AS2202,   AS2222,   AS2223,   AS2231,   AS2236,   AS2239,   AS2258,   AS2259
members:        AS2263,   AS2264,   AS2269,   AS2418,   AS2422,   AS2426,   AS2439,   AS2445
members:        AS2450,   AS2457,   AS2462,   AS2470,   AS2471,   AS2472,   AS2475,   AS2484
members:        AS2485,   AS2486,   AS3557,   AS7500,   AS8674
members:        AS15655,  AS20144,  AS23634,  AS29110,  AS29199,  AS29216,  AS30126,  AS30839
members:        AS34000,  AS34542,  AS39444,  AS44850,  AS47300,  AS47608,  AS50897,  AS56774
members:        AS57284
members:        AS201659, AS202321, AS209136, AS215928
tech-c:         DUMY-RIPE
admin-c:        DUMY-RIPE
notify:         rensvp@renater.fr
mnt-by:         RENATER-MNT
remarks:        changed: rensvp@renater.fr 20000112
remarks:        changed: rensvp@renater.fr 20260319
created:        2001-11-12T10:11:50Z
last-modified:  2026-03-19T13:11:33Z
source:         RIPE
remarks:        ****************************
remarks:        * THIS OBJECT IS MODIFIED
remarks:        * Please note that all data that is generally regarded as personal
remarks:        * data has been removed from this object.
remarks:        * To view the original object, please query the RIPE Database at:
remarks:        * http://www.ripe.net/whois
remarks:        ****************************
"#;

#[test]
fn test_rpsl_preparser_iter() {
    let mut splitter = RpslSplitter::new();
    let mut objects = Vec::new();
    for line in RIPE_DUMP.lines() {
        if let Some(o) = splitter.feed_line(line) {
            objects.push(o);
        }
    }
    if let Some(o) = splitter.finish() {
        objects.push(o);
    }
    let mut objects = objects.into_iter();

    assert_eq!(objects.next(), Some(String::from(r#"as-set:         AS-RESTENA
descr:          Reseau Teleinformatique de l'Education Nationale
descr:          Educational and research network for Luxembourg
members:        AS2602
members:        AS42909
members:        AS51966
members:        AS-LXP
members:        AS-VDL
members:        AS112
tech-c:         DUMY-RIPE
admin-c:        DUMY-RIPE
notify:         noc@restena.lu
mnt-by:         AS2602-MNT
created:        1970-01-01T00:00:00Z
last-modified:  2024-08-08T12:58:40Z
source:         RIPE
remarks:        ****************************
remarks:        * THIS OBJECT IS MODIFIED
remarks:        * Please note that all data that is generally regarded as personal
remarks:        * data has been removed from this object.
remarks:        * To view the original object, please query the RIPE Database at:
remarks:        * http://www.ripe.net/whois
remarks:        ****************************

"#)));

    assert_eq!(objects.next(), Some(String::from(r#"as-set:         AS-RENATER
descr:          RENATER
members:        AS261,    AS288,    AS513,    AS775,    AS776,    AS777,    AS781,    AS782
members:        AS789
members:        AS1300,   AS1303,   AS1304,   AS1307,   AS1712,   AS1715,   AS1717,   AS1724
members:        AS1725,   AS1726,   AS1935,   AS1936,   AS1937,   AS1938,   AS1939,   AS1940
members:        AS1941,   AS1942,   AS1943,   AS1944,   AS1945,   AS1948,   AS1951
members:        AS2060,   AS2065,   AS2067,   AS2072,   AS2085,   AS2088,   AS2089,   AS2094
members:        AS2103,   AS2187,   AS2188,   AS2193,   AS2194,   AS2198,   AS2199,   AS2200
members:        AS2202,   AS2222,   AS2223,   AS2231,   AS2236,   AS2239,   AS2258,   AS2259
members:        AS2263,   AS2264,   AS2269,   AS2418,   AS2422,   AS2426,   AS2439,   AS2445
members:        AS2450,   AS2457,   AS2462,   AS2470,   AS2471,   AS2472,   AS2475,   AS2484
members:        AS2485,   AS2486,   AS3557,   AS7500,   AS8674
members:        AS15655,  AS20144,  AS23634,  AS29110,  AS29199,  AS29216,  AS30126,  AS30839
members:        AS34000,  AS34542,  AS39444,  AS44850,  AS47300,  AS47608,  AS50897,  AS56774
members:        AS57284
members:        AS201659, AS202321, AS209136, AS215928
tech-c:         DUMY-RIPE
admin-c:        DUMY-RIPE
notify:         rensvp@renater.fr
mnt-by:         RENATER-MNT
remarks:        changed: rensvp@renater.fr 20000112
remarks:        changed: rensvp@renater.fr 20260319
created:        2001-11-12T10:11:50Z
last-modified:  2026-03-19T13:11:33Z
source:         RIPE
remarks:        ****************************
remarks:        * THIS OBJECT IS MODIFIED
remarks:        * Please note that all data that is generally regarded as personal
remarks:        * data has been removed from this object.
remarks:        * To view the original object, please query the RIPE Database at:
remarks:        * http://www.ripe.net/whois
remarks:        ****************************
"#)));
    assert_eq!(objects.next(), None);
}

use git_annex_browser::logs::{
    merge_locations, parse_activity_log, parse_annex_timestamp, parse_content_log, parse_count_log,
    parse_group_log, parse_remote_log, parse_size_from_key, parse_trust_log, parse_uuid_log,
    parse_whereis_records, whereis_json_lines, WhereisJson, WhereisRemoteJson,
};
use git_annex_browser::trust::TrustLevel;

#[test]
fn timestamp_fractional_and_integer() {
    assert_eq!(
        parse_annex_timestamp("1317929189.157237s"),
        Some(1317929189)
    );
    assert_eq!(
        parse_annex_timestamp("1699273888.593667289s"),
        Some(1699273888)
    );
    assert_eq!(parse_annex_timestamp("1422387398s"), Some(1422387398));
    assert_eq!(parse_annex_timestamp("  42.0s  "), Some(42));
    assert_eq!(parse_annex_timestamp(""), None);
    assert_eq!(parse_annex_timestamp("not-a-time"), None);
}

#[test]
fn timestamp_limits() {
    assert_eq!(parse_annex_timestamp("-5s"), Some(-5));
    assert_eq!(parse_annex_timestamp("+5s"), Some(5));
    assert_eq!(
        parse_annex_timestamp("9223372036854775807s"),
        Some(i64::MAX)
    );
    assert_eq!(
        parse_annex_timestamp("-9223372036854775808"),
        Some(i64::MIN)
    );
    assert_eq!(parse_annex_timestamp("9223372036854775808s"), None);
    assert_eq!(parse_annex_timestamp("s"), None);
    assert_eq!(parse_annex_timestamp(".5s"), None);
}

#[test]
fn trust_tokens_match_git_annex_log() {
    assert_eq!(TrustLevel::from_token("1"), TrustLevel::Trusted);
    assert_eq!(TrustLevel::from_token("0"), TrustLevel::UnTrusted);
    assert_eq!(TrustLevel::from_token("?"), TrustLevel::SemiTrusted);
    assert_eq!(TrustLevel::from_token("X"), TrustLevel::Dead);
    assert_eq!(TrustLevel::from_token("trusted"), TrustLevel::Trusted);
    assert_eq!(TrustLevel::from_token("T"), TrustLevel::Trusted);
}

#[test]
fn trust_words_and_letters_are_read_back() {
    for t in [
        TrustLevel::Trusted,
        TrustLevel::SemiTrusted,
        TrustLevel::UnTrusted,
        TrustLevel::Dead,
    ] {
        assert_eq!(TrustLevel::from_token(t.as_str()), t);
        assert_eq!(TrustLevel::from_token(&t.short().to_string()), t);
    }
    assert_eq!(TrustLevel::from_token("  dead\n"), TrustLevel::Dead);
}

#[test]
fn trust_log_last_write_wins_and_fractional_ts() {
    let text = "\
aaa-aaa 1 timestamp=100.1s
aaa-aaa 0 timestamp=200.9s
bbb-bbb ? timestamp=50.0s
ccc-ccc X timestamp=10s
aaa-aaa 1 timestamp=150.0s
";
    let m = parse_trust_log(text);
    assert_eq!(m.get("aaa-aaa"), Some(&TrustLevel::UnTrusted));
    assert_eq!(m.get("bbb-bbb"), Some(&TrustLevel::SemiTrusted));
    assert_eq!(m.get("ccc-ccc"), Some(&TrustLevel::Dead));
}

#[test]
fn last_of_two_lines_with_one_time_wins() {
    let m = parse_trust_log("u 1 timestamp=5s\nu 0 timestamp=5s\n");
    assert_eq!(m.get("u"), Some(&TrustLevel::UnTrusted));
    let m = parse_trust_log("u 1\n\n   \nu X\n");
    assert_eq!(m.get("u"), Some(&TrustLevel::Dead));
    assert_eq!(m.len(), 1);
    assert!(parse_trust_log("").is_empty());
}

#[test]
fn uuid_log_keeps_latest_description_with_spaces() {
    let text = "\
e605dca6-446a-11e0-8b2a-002170d25c55 laptop timestamp=1317929189.157237s
26339d22-446b-11e0-9101-002170d25c55 usb disk timestamp=1317929330.769997s
e605dca6-446a-11e0-8b2a-002170d25c55 new laptop name timestamp=2000000000.0s
e605dca6-446a-11e0-8b2a-002170d25c55 stale timestamp=1000s
";
    let v = parse_uuid_log(text);
    let laptop = v
        .iter()
        .find(|(u, _, _)| u.starts_with("e605dca6"))
        .unwrap();
    assert_eq!(laptop.1, "new laptop name");
    let usb = v
        .iter()
        .find(|(u, _, _)| u.starts_with("26339d22"))
        .unwrap();
    assert_eq!(usb.1, "usb disk");
}

#[test]
fn uuid_log_without_description() {
    let v = parse_uuid_log("b timestamp=7s\na\n");
    assert_eq!(
        v,
        vec![
            ("a".to_string(), "a".to_string(), Some(0)),
            ("b".to_string(), "b".to_string(), Some(7)),
        ]
    );
}

#[test]
fn group_log_reads_all_groups_on_latest_line() {
    let text = "\
u1 archive timestamp=100.1s
u1 archive backup client timestamp=200.5s
u1 only-old timestamp=50s
u2 transfer timestamp=10s
";
    let m = parse_group_log(text);
    let mut g1 = m.get("u1").cloned().unwrap();
    g1.sort();
    assert_eq!(g1, vec!["archive", "backup", "client"]);
    assert_eq!(m.get("u2"), Some(&vec!["transfer".to_string()]));
}

#[test]
fn groups_come_once_in_order() {
    let m = parse_group_log("u b a b a c timestamp=1s\n");
    assert_eq!(
        m.get("u"),
        Some(&vec!["a".to_string(), "b".to_string(), "c".to_string()])
    );
    let m = parse_group_log("u timestamp=1s\n");
    assert_eq!(m.get("u"), Some(&Vec::new()));
}

#[test]
fn content_log_last_write_wins() {
    let text = "\
u1 include=*.jpg timestamp=10.1s
u1 exclude=* timestamp=20.2s
u1 include=*.png timestamp=15s
";
    let m = parse_content_log(text);
    assert_eq!(m.get("u1").map(String::as_str), Some("exclude=*"));
}

#[test]
fn content_log_keeps_spaces_in_expressions() {
    let m = parse_content_log("u1 include=*.jpg or exclude=* timestamp=1s\nu2 timestamp=2s\n");
    assert_eq!(
        m.get("u1").map(String::as_str),
        Some("include=*.jpg or exclude=*")
    );
    assert_eq!(m.get("u2").map(String::as_str), Some(""));
}

#[test]
fn activity_log_fractional_fsck() {
    let text = "\
u1 Fsck timestamp=1422387398.30395s
u1 Fsck timestamp=1000.0s
u2 something else timestamp=9s
";
    let m = parse_activity_log(text);
    assert_eq!(m.get("u1"), Some(&1422387398));
    assert!(!m.contains_key("u2"));
}

#[test]
fn activity_log_takes_the_latest_check() {
    let m = parse_activity_log("u Fsck timestamp=5s\nu Fsck timestamp=9s\nu Fsck timestamp=7s\n");
    assert_eq!(m.get("u"), Some(&9));
    assert!(parse_activity_log("u Fsck\n").is_empty());
}

#[test]
fn numcopies_log_timestamp_first() {
    let text = "\
100.1s 1
200.9s 3
150s 2
";
    assert_eq!(parse_count_log(text), Some(3));
}

#[test]
fn numcopies_log_skips_what_is_no_count() {
    assert_eq!(parse_count_log(""), None);
    assert_eq!(parse_count_log("soon 3\n5s\n6s many\n"), None);
    assert_eq!(parse_count_log("5s 1\n5s 2\n4s 3\n"), Some(2));
    assert_eq!(parse_count_log("5s 4294967296\n"), None);
}

#[test]
fn size_from_standard_keys() {
    assert_eq!(parse_size_from_key("SHA256E-s12345--abcd"), Some(12345));
    assert_eq!(
        parse_size_from_key(
            "SHA256E-s86558--e79a0891bb94fc9212ce2f28178fe84591c5fb24c07b5239d367099118e12ede.jpg"
        ),
        Some(86558)
    );
    assert_eq!(parse_size_from_key("WORM-s99-m100--name"), Some(99));
    assert_eq!(parse_size_from_key("URL--http://example"), None);
}

#[test]
fn size_stands_before_the_double_dash() {
    assert_eq!(parse_size_from_key("URL--x-s5"), None);
    assert_eq!(parse_size_from_key("s5-m1--x"), None);
    assert_eq!(parse_size_from_key("A-sx-s7--y"), Some(7));
    assert_eq!(parse_size_from_key("A-s18446744073709551615"), Some(u64::MAX));
    assert_eq!(parse_size_from_key("A-s18446744073709551616"), None);
}

#[test]
fn remote_log_redacts_cipher() {
    let text = "u1 type=S3 name=bucket cipher=SUPERSECRET timestamp=10s\n";
    let m = parse_remote_log(text);
    assert_eq!(
        m.get("u1").unwrap().get("type").map(String::as_str),
        Some("S3")
    );
    assert_eq!(
        m.get("u1").unwrap().get("cipher").map(String::as_str),
        Some("[redacted]")
    );
}

#[test]
fn remote_log_redacts_every_secret() {
    let text = "u embedcreds=a encryptionkey=b secret=c password=d keyid=e name=f=g x timestamp=1s\n";
    let m = parse_remote_log(text);
    let c = m.get("u").unwrap();
    for k in ["embedcreds", "encryptionkey", "secret", "password", "keyid"] {
        assert_eq!(c.get(k).map(String::as_str), Some("[redacted]"));
    }
    assert_eq!(c.get("name").map(String::as_str), Some("f=g"));
    assert!(!c.contains_key("x"));
}

#[test]
fn values_of_secrets_make_no_difference() {
    for line in [
        "u type=S3 cipher=@ name=b timestamp=3s",
        "u timestamp=3.5s cipher=@ name=b",
        "u timestamp=3s cipher=@",
        "u password=@",
    ] {
        let read = |v: &str| {
            let text = format!("x name=y timestamp=1s\n{}\r\n", line.replace('@', v));
            let pairs: Vec<(String, Vec<(String, String)>)> = parse_remote_log(&text)
                .into_pairs()
                .into_iter()
                .map(|(u, c)| (u, c.into_pairs()))
                .collect();
            pairs
        };
        for v in ["a.b", "", "sss", "=timestamp", "12.5s"] {
            assert_eq!(read(v), read("SUPERSECRET"), "{line}");
        }
    }
}

fn uuids_of(v: Option<&serde_json::Value>) -> Vec<WhereisRemoteJson> {
    match v.and_then(|v| v.as_array()) {
        Some(list) => list
            .iter()
            .map(|r| WhereisRemoteJson {
                uuid: r
                    .get("uuid")
                    .and_then(|u| u.as_str())
                    .unwrap_or("")
                    .to_string(),
            })
            .collect(),
        None => Vec::new(),
    }
}

fn record(line: &str) -> Option<WhereisJson> {
    let v: serde_json::Value = serde_json::from_str(line).ok()?;
    Some(WhereisJson {
        key: v.get("key").and_then(|k| k.as_str()).map(String::from),
        whereis: uuids_of(v.get("whereis")),
        untrusted: uuids_of(v.get("untrusted")),
    })
}

fn records(stdout: &str) -> Vec<Option<WhereisJson>> {
    whereis_json_lines(stdout)
        .iter()
        .map(|l| record(l))
        .collect()
}

#[test]
fn whereis_json_includes_untrusted() {
    let line = r#"{"key":"SHA256E-s1--aa","whereis":[{"uuid":"here-uuid"}],"untrusted":[{"uuid":"usb-uuid"}]}"#;
    let locs = parse_whereis_records(&records(line));
    let set = locs.get("SHA256E-s1--aa").unwrap();
    assert!(set.contains("here-uuid"));
    assert!(set.contains("usb-uuid"));
}

#[test]
fn whereis_skips_what_is_no_record() {
    let text = "\n  \nnot json\n{\"whereis\":[{\"uuid\":\"a\"}]}\n\
                {\"key\":\"k\",\"whereis\":[{\"uuid\":\"a\"},{\"uuid\":\"\"}]}\n\
                {\"key\":\"l\"}\n{\"key\":\"k\",\"untrusted\":[{\"uuid\":\"b\"}]}\n";
    assert_eq!(whereis_json_lines(text).len(), 5);
    let answer = records(text);
    let locs = parse_whereis_records(&answer);
    assert_eq!(locs.len(), 2);
    assert_eq!(locs.get("k").unwrap().len(), 1);
    assert!(locs.get("k").unwrap().contains("b"));
    assert!(locs.get("l").unwrap().is_empty());
    let all = merge_locations(&answer);
    assert_eq!(all.len(), 1);
    assert!(all.contains("b"));
}

use shadow::ParseError;
use shadow::ShadowEntry;
use shadow::collect_all;
use shadow::default_shadow_path;
use shadow::find_by_name;
use shadow::find_in_line;
use shadow::parse_line;

fn lines(v: &[&str]) -> Vec<String> {
    v.iter().map(|s| s.to_string()).collect()
}

#[test]
fn alice_scenario() {
    let e = parse_line("alice:$6$abc123:18000:0:99999:7:::").unwrap();
    assert_eq!(e.name, "alice");
    assert_eq!(e.passwd, "$6$abc123");
    assert_eq!(e.last_change, 18000);
    assert_eq!(e.min, 0);
    assert_eq!(e.max, 99999);
    assert_eq!(e.warning, 7);
    assert_eq!(e.inactivity, -1);
    assert_eq!(e.expires, -1);
    assert_eq!(e.flag, 0);
}

#[test]
fn root_search_scenario() {
    let src = lines(&[
        "alice:$6$abc123:18000:0:99999:7:::",
        "root:*:18500:0:99999:7:::",
        "daemon:*:18474:0:99999:7:::",
    ]);
    let found = find_by_name(&src, "root").unwrap();
    assert_eq!(found.name, "root");
    assert_eq!(found.passwd, "*");
    assert_eq!(found.last_change, 18500);
    assert!(find_by_name(&src, "nosuchuser").is_none());
}

#[test]
fn malformed_line_scenario() {
    let r = parse_line("incomplete:onlytwofields");
    assert_eq!(r.unwrap_err(), ParseError::MalformedLine);

    // The lenient policy: enumeration skips the malformed line and goes on.
    let src = lines(&[
        "alice:$6$abc123:18000:0:99999:7:::",
        "incomplete:onlytwofields",
        "root:*:18500:0:99999:7:::",
    ]);
    let all = collect_all(&src);
    assert_eq!(all.len(), 2);
    assert_eq!(all[0].name, "alice");
    assert_eq!(all[1].name, "root");
}

#[test]
fn parse_is_deterministic() {
    let line = "bob:$1$xyz:17000:1:60:14:30:19000:2";
    let a = parse_line(line).unwrap();
    let b = parse_line(line).unwrap();
    assert!(a == b);
    assert_eq!(a, b);
}

#[test]
fn all_nine_fields_assigned() {
    let e = parse_line("bob:$1$xyz:17000:1:60:14:30:19000:2").unwrap();
    assert_eq!(e.name, "bob");
    assert_eq!(e.passwd, "$1$xyz");
    assert_eq!(e.last_change, 17000);
    assert_eq!(e.min, 1);
    assert_eq!(e.max, 60);
    assert_eq!(e.warning, 14);
    assert_eq!(e.inactivity, 30);
    assert_eq!(e.expires, 19000);
    assert_eq!(e.flag, 2);
}

#[test]
fn non_numeric_field_takes_sentinel_alone() {
    let e = parse_line("carl:x:notanumber:1:2:3:4:5:6").unwrap();
    assert_eq!(e.last_change, -1);
    assert_eq!(e.min, 1);
    assert_eq!(e.max, 2);
    assert_eq!(e.warning, 3);
    assert_eq!(e.inactivity, 4);
    assert_eq!(e.expires, 5);
    assert_eq!(e.flag, 6);
    assert_eq!(e.name, "carl");
    assert_eq!(e.passwd, "x");
}

#[test]
fn empty_numeric_fields_take_sentinels() {
    let e = parse_line("dana:::::::::").unwrap();
    assert_eq!(e.last_change, -1);
    assert_eq!(e.min, -1);
    assert_eq!(e.max, -1);
    assert_eq!(e.warning, -1);
    assert_eq!(e.inactivity, -1);
    assert_eq!(e.expires, -1);
    assert_eq!(e.flag, 0);
}

#[test]
fn fewer_than_nine_fields_is_malformed() {
    assert_eq!(parse_line("").unwrap_err(), ParseError::MalformedLine);
    assert_eq!(parse_line("justaname").unwrap_err(), ParseError::MalformedLine);
    assert_eq!(
        parse_line("a:b:1:2:3:4:5:6").unwrap_err(),
        ParseError::MalformedLine
    );
}

#[test]
fn exactly_nine_or_more_fields_parses() {
    assert!(parse_line("a:b:1:2:3:4:5:6:7").is_ok());
    // A tenth field is tolerated and ignored.
    let e = parse_line("a:b:1:2:3:4:5:6:7:ignored").unwrap();
    assert_eq!(e.flag, 7);
}

#[test]
fn fields_are_trimmed() {
    let e = parse_line("  eve  : pw :\t18000 : 0: 1 : 2 : 3 : 4 : 5 ").unwrap();
    assert_eq!(e.name, "eve");
    assert_eq!(e.passwd, "pw");
    assert_eq!(e.last_change, 18000);
    assert_eq!(e.min, 0);
    assert_eq!(e.max, 1);
    assert_eq!(e.warning, 2);
    assert_eq!(e.inactivity, 3);
    assert_eq!(e.expires, 4);
    assert_eq!(e.flag, 5);
}

#[test]
fn signed_fields_accept_signs() {
    let e = parse_line("f:x:-3:+5:-1:0:0:0:0").unwrap();
    assert_eq!(e.last_change, -3);
    assert_eq!(e.min, 5);
    assert_eq!(e.max, -1);
}

#[test]
fn flag_rejects_minus_sign() {
    let e = parse_line("f:x:0:0:0:0:0:0:-2").unwrap();
    assert_eq!(e.flag, 0);
}

#[test]
fn numeric_bounds_and_overflow() {
    let e = parse_line("g:x:9223372036854775807:-9223372036854775808:0:0:0:0:18446744073709551615")
        .unwrap();
    assert_eq!(e.last_change, i64::MAX);
    assert_eq!(e.min, i64::MIN);
    assert_eq!(e.flag, u64::MAX);

    let o = parse_line("g:x:9223372036854775808:-9223372036854775809:0:0:0:0:18446744073709551616")
        .unwrap();
    assert_eq!(o.last_change, -1);
    assert_eq!(o.min, -1);
    assert_eq!(o.flag, 0);
}

#[test]
fn garbage_numeric_forms_take_sentinels() {
    let e = parse_line("h:x:12a:++1:- 2:1.5:0x10:':0").unwrap();
    assert_eq!(e.last_change, -1);
    assert_eq!(e.min, -1);
    assert_eq!(e.max, -1);
    assert_eq!(e.warning, -1);
    assert_eq!(e.inactivity, -1);
    assert_eq!(e.expires, -1);
    assert_eq!(e.flag, 0);
}

#[test]
fn collect_all_preserves_file_order() {
    let src = lines(&[
        "u1:a:1:0:0:0:0:0:0",
        "u2:b:2:0:0:0:0:0:0",
        "u3:c:3:0:0:0:0:0:0",
    ]);
    let all = collect_all(&src);
    assert_eq!(all.len(), 3);
    assert_eq!(all[0].name, "u1");
    assert_eq!(all[1].name, "u2");
    assert_eq!(all[2].name, "u3");
    assert_eq!(all[0].last_change, 1);
    assert_eq!(all[1].last_change, 2);
    assert_eq!(all[2].last_change, 3);
}

#[test]
fn collect_all_of_empty_source_is_empty() {
    let all = collect_all(&lines(&[]));
    assert!(all.is_empty());
}

#[test]
fn find_returns_first_match_in_file_order() {
    let src = lines(&[
        "dup:first:1:0:0:0:0:0:0",
        "other:x:9:0:0:0:0:0:0",
        "dup:second:2:0:0:0:0:0:0",
    ]);
    let found = find_by_name(&src, "dup").unwrap();
    assert_eq!(found.passwd, "first");
    assert_eq!(found.last_change, 1);
}

#[test]
fn find_skips_malformed_and_name_is_exact() {
    let src = lines(&["broken", "Root:*:1:0:0:0:0:0:0", "root:*:2:0:0:0:0:0:0"]);
    // Case-sensitive, exact comparison.
    let found = find_by_name(&src, "root").unwrap();
    assert_eq!(found.last_change, 2);
    assert!(find_by_name(&src, "roo").is_none());
    assert!(find_by_name(&src, "root ").is_none());
}

#[test]
fn find_in_line_matches_only_that_name() {
    let line = "alice:$6$abc123:18000:0:99999:7:::";
    let e = find_in_line(line, "alice").unwrap();
    assert_eq!(e.passwd, "$6$abc123");
    assert!(find_in_line(line, "bob").is_none());
    assert!(find_in_line("broken", "alice").is_none());
}

#[test]
fn default_path_is_etc_shadow() {
    assert_eq!(default_shadow_path(), "/etc/shadow");
}

#[test]
fn from_line_agrees_with_parse_line() {
    let line = "alice:$6$abc123:18000:0:99999:7:::";
    let a = ShadowEntry::from_line(line).unwrap();
    let b = parse_line(line).unwrap();
    assert_eq!(a, b);
}

#[test]
fn trailing_blank_line_is_skipped() {
    let src = lines(&["a:b:1:2:3:4:5:6:7", ""]);
    let all = collect_all(&src);
    assert_eq!(all.len(), 1);
    assert_eq!(all[0].name, "a");
}

#[test]
fn non_ascii_names_are_kept() {
    let e = parse_line("josé:§pw€:1:2:3:4:5:6:7").unwrap();
    assert_eq!(e.name, "josé");
    assert_eq!(e.passwd, "§pw€");
    let src = lines(&["root:*:1:0:0:0:0:0:0", "josé:§pw€:1:2:3:4:5:6:7"]);
    assert_eq!(find_by_name(&src, "josé").unwrap().passwd, "§pw€");
}

#[test]
fn unicode_whitespace_is_trimmed() {
    let e = parse_line("\u{a0}alice\u{2003}:\u{3000}pw\u{85}:1:2:3:4:5:6:7").unwrap();
    assert_eq!(e.name, "alice");
    assert_eq!(e.passwd, "pw");
}

#[test]
fn flag_accepts_plus_sign() {
    let e = parse_line("f:x:0:0:0:0:0:0:+7").unwrap();
    assert_eq!(e.flag, 7);
}

#[test]
fn records_differing_in_one_field_are_unequal() {
    let a = parse_line("a:b:1:2:3:4:5:6:7").unwrap();
    let b = parse_line("a:b:1:2:3:4:5:6:8").unwrap();
    assert_ne!(a, b);
}

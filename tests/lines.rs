use bucket_means::entry::{parse_values, Entry, Malformed, ParseEntryError};
use bucket_means::groups::{aggregate_lines, total, GroupTotal, ValueGroups};
use bucket_means::render::render_data;
use bucket_means::text::{find_char_in, parse_int};

fn lines(v: &[&str]) -> Vec<String> {
    v.iter().map(|s| s.to_string()).collect()
}

fn shown(t: &GroupTotal) -> String {
    format!("{}: {:.3}", t.max, t.sum as f64 / t.count as f64)
}

fn output(v: &[&str]) -> Vec<String> {
    aggregate_lines(&lines(v)).unwrap().iter().map(shown).collect()
}

#[test]
fn single_line_parses_and_averages() {
    let e = Entry::parse("2021-06-15 14:30|v1|5:10,20,30").unwrap();
    assert_eq!(e.max, 5);
    assert_eq!(e.values, vec![10, 20, 30]);
    assert_eq!(e.version, "v1");
    assert_eq!((e.timestamp.year, e.timestamp.month, e.timestamp.day), (2021, 6, 15));
    assert_eq!((e.timestamp.hour, e.timestamp.minute), (14, 30));
    assert_eq!(output(&["2021-06-15 14:30|v1|5:10,20,30"]), vec!["5: 20.000"]);
}

#[test]
fn two_lines_share_a_key() {
    let v = &["2021-01-01 00:00|v1|1:4,6", "2021-01-02 00:00|v2|1:10"];
    let totals = aggregate_lines(&lines(v)).unwrap();
    assert_eq!(totals, vec![GroupTotal { max: 1, sum: 20, count: 3 }]);
    assert_eq!(output(v), vec!["1: 6.667"]);
}

#[test]
fn missing_colon_is_bad_data_segment() {
    let v = &["2021-01-01 00:00|v1|5:1", "2021-01-01 00:00|v1|5,10,20"];
    match aggregate_lines(&lines(v)) {
        Err(ParseEntryError::Format(m)) => {
            assert_eq!(m, Malformed::BadData);
            assert_eq!(m.reason(), "bad data segment");
        }
        other => panic!("unexpected {:?}", other),
    }
}

#[test]
fn bad_integer_is_parse_int_error() {
    match aggregate_lines(&lines(&["2021-01-01 00:00|v1|5:10,x,20"])) {
        Err(ParseEntryError::ParseInt(t)) => assert_eq!(t, "x"),
        other => panic!("unexpected {:?}", other),
    }
}

#[test]
fn empty_input_gives_no_groups() {
    assert_eq!(aggregate_lines(&Vec::new()).unwrap(), Vec::<GroupTotal>::new());
}

#[test]
fn output_sorted_by_key() {
    let v = &[
        "2021-01-01 00:00|a|7:1",
        "2021-01-01 00:00|a|-3:2,4",
        "2021-01-01 00:00|a|7:3",
        "2021-01-01 00:00|a|0:5",
    ];
    assert_eq!(output(v), vec!["-3: 3.000", "0: 5.000", "7: 2.000"]);
}

#[test]
fn batches_add_up() {
    let a = &["2021-01-01 00:00|a|2:1,2", "2021-01-01 00:00|a|3:9"];
    let b = &["2021-01-01 00:00|b|2:6", "2021-01-01 00:00|b|3:1,1"];
    let all: Vec<&str> = a.iter().chain(b.iter()).copied().collect();
    let ta = aggregate_lines(&lines(a)).unwrap();
    let tb = aggregate_lines(&lines(b)).unwrap();
    let tall = aggregate_lines(&lines(&all)).unwrap();
    for (i, t) in tall.iter().enumerate() {
        assert_eq!(t.sum, ta[i].sum + tb[i].sum);
        assert_eq!(t.count, ta[i].count + tb[i].count);
    }
    let swapped: Vec<&str> = b.iter().chain(a.iter()).copied().collect();
    assert_eq!(aggregate_lines(&lines(&swapped)).unwrap(), tall);
}

#[test]
fn structure_errors() {
    let reason = |line: &str| match Entry::parse(line) {
        Err(ParseEntryError::Format(m)) => m,
        other => panic!("unexpected {:?}", other),
    };
    assert_eq!(reason(""), Malformed::MissingTimestamp);
    assert_eq!(reason("2021-01-01 00:00"), Malformed::MissingVersion);
    assert_eq!(reason("2021-01-01 00:00|v1"), Malformed::MissingData);
    assert_eq!(Malformed::MissingTimestamp.reason(), "missing timestamp");
    assert_eq!(Malformed::MissingVersion.reason(), "missing version");
    assert_eq!(Malformed::MissingData.reason(), "missing data segment");
}

#[test]
fn date_errors() {
    for line in [
        "garbage|v1|1:2",
        "2021-13-01 00:00|v1|1:2",
        "2021-02-30 00:00|v1|1:2",
        "2021-01-01 24:00|v1|1:2",
        "2021-01-01 00:00:00|v1|1:2",
    ] {
        assert!(matches!(Entry::parse(line), Err(ParseEntryError::ParseDate(_))), "{}", line);
    }
}

#[test]
fn empty_values_fail() {
    match Entry::parse("2021-01-01 00:00|v1|5:") {
        Err(ParseEntryError::ParseInt(t)) => assert_eq!(t, ""),
        other => panic!("unexpected {:?}", other),
    }
    match Entry::parse("2021-01-01 00:00|v1|q:1") {
        Err(ParseEntryError::ParseInt(t)) => assert_eq!(t, "q"),
        other => panic!("unexpected {:?}", other),
    }
}

#[test]
fn empty_version_and_extra_fields() {
    let e: Entry = "2021-01-01 00:00||4:1|ignored".parse().unwrap();
    assert_eq!(e.version, "");
    assert_eq!(e.max, 4);
    assert_eq!(e.values, vec![1]);
    let e = Entry::parse("2021-01-01 00:00|v|4:1:2");
    assert!(matches!(e, Err(ParseEntryError::ParseInt(ref t)) if t == "1:2"));
}

#[test]
fn integers_read_as_std_does() {
    for s in ["0", "-0", "+7", "2147483647", "-2147483648", "007", "12"] {
        assert_eq!(parse_int(s), s.parse::<i32>().ok(), "{}", s);
    }
    for s in ["", "-", "+", "2147483648", "-2147483649", "1 ", " 1", "1a", "99999999999"] {
        assert_eq!(parse_int(s), None, "{}", s);
    }
    assert_eq!(parse_values("1,-2,+3").unwrap(), vec![1, -2, 3]);
    assert_eq!(parse_values("1,,3").unwrap_err(), "");
    assert_eq!(find_char_in("ab|c|", '|'), Some(2));
    assert_eq!(find_char_in("abc", '|'), None);
}

#[test]
fn totals_are_wide() {
    assert_eq!(total(&[i32::MAX, i32::MAX, i32::MAX]), 3 * i32::MAX as i128);
    assert_eq!(total(&[i32::MIN, -1]), i32::MIN as i128 - 1);
    assert_eq!(total(&[]), 0);
}

#[test]
fn data_segment_round_trips() {
    let line = "2021-06-15 14:30|v1|+5:010,-20,30";
    let e = Entry::parse(line).unwrap();
    let data = render_data(e.max, &e.values);
    assert_eq!(data, "5:10,-20,30");
    let again = Entry::parse(&format!("2021-06-15 14:30|v1|{}", data)).unwrap();
    assert_eq!((again.max, again.values), (5, vec![10, -20, 30]));
    assert_eq!(render_data(i32::MIN, &[0, i32::MAX]), "-2147483648:0,2147483647");
}

#[test]
fn groups_fed_line_by_line() {
    let mut g = ValueGroups::new();
    g.add_line("2021-01-01 00:00|v|9:1,2").unwrap();
    assert!(g.add_line("2021-01-01 00:00|v|9:oops").is_err());
    g.add_line("2021-01-01 00:00|v|4:8").unwrap();
    g.add_line("2021-01-01 00:00|v|9:3").unwrap();
    assert_eq!(
        g.into_totals(),
        vec![GroupTotal { max: 4, sum: 8, count: 1 }, GroupTotal { max: 9, sum: 6, count: 3 }]
    );
}

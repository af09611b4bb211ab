use todo_outline::blocks::{convert_item_tup, convert_vec_items, count_dash, match_line, match_lines, read_lines_and_parse};
use todo_outline::entry::{item_body, item_head, parse_item};
use todo_outline::literals::{get_datetime, get_num, get_time, todo_box};
use todo_outline::text::{decode_text, trim_bytes};
use todo_outline::types::{DateTime, ParseError, Time};

#[test]
fn number_reads_digits() {
    assert_eq!(get_num(b"2023"), Ok(2023));
    assert_eq!(get_num(b"07"), Ok(7));
    assert_eq!(get_num(b"4294967295"), Ok(4294967295));
}

#[test]
fn number_rejects_bad_spans() {
    assert_eq!(get_num(b""), Err(ParseError::MalformedNumber));
    assert_eq!(get_num(b"2a"), Err(ParseError::MalformedNumber));
    assert_eq!(get_num(b"4294967296"), Err(ParseError::MalformedNumber));
}

#[test]
fn time_with_and_without_colon() {
    assert_eq!(get_time(b"09:30"), Ok((5, Time { hours: 9, minutes: 30 })));
    assert_eq!(get_time(b"0930:"), Ok((4, Time { hours: 9, minutes: 30 })));
    assert_eq!(get_time(b"99:99"), Ok((5, Time { hours: 99, minutes: 99 })));
}

#[test]
fn time_errors() {
    assert_eq!(get_time(b"9:30"), Err(ParseError::MalformedTime));
    assert_eq!(get_time(b"09:3"), Err(ParseError::MalformedTime));
    assert_eq!(get_time(b"0"), Err(ParseError::MalformedTime));
}

#[test]
fn datetime_all_separator_choices() {
    for (text, y, m, d) in [
        (&b"2016-12-13"[..], 2016, 12, 13),
        (&b"2016/12/13"[..], 2016, 12, 13),
        (&b"0001-02/03"[..], 1, 2, 3),
        (&b"9999/99-00"[..], 9999, 99, 0),
    ] {
        assert_eq!(
            get_datetime(text),
            Ok((10, DateTime { year: y, month: m, day: d, time: None }))
        );
    }
}

#[test]
fn datetime_with_time() {
    assert_eq!(
        get_datetime(b"2016/12/13T13:00:"),
        Ok((16, DateTime { year: 2016, month: 12, day: 13, time: Some(Time { hours: 13, minutes: 0 }) }))
    );
    assert_eq!(
        get_datetime(b"2023-06-01t0930"),
        Ok((15, DateTime { year: 2023, month: 6, day: 1, time: Some(Time { hours: 9, minutes: 30 }) }))
    );
    // A `T` not followed by a time is left unread.
    assert_eq!(
        get_datetime(b"2023-06-01T9"),
        Ok((10, DateTime { year: 2023, month: 6, day: 1, time: None }))
    );
}

#[test]
fn datetime_errors() {
    assert_eq!(get_datetime(b"2023.06.01"), Err(ParseError::MalformedDate));
    assert_eq!(get_datetime(b"20a3-06-01"), Err(ParseError::MalformedDate));
    assert_eq!(get_datetime(b"2023-06-1"), Err(ParseError::MalformedDate));
    assert_eq!(get_datetime(b""), Err(ParseError::MalformedDate));
}

#[test]
fn checkbox_literals() {
    assert_eq!(todo_box(b"[]"), Ok((2, false)));
    assert_eq!(todo_box(b"[ ]"), Ok((3, false)));
    assert_eq!(todo_box(b"[x]"), Ok((3, true)));
    assert_eq!(todo_box(b"[X]"), Ok((3, true)));
    assert_eq!(todo_box(b"[a]"), Err(ParseError::MalformedCheckbox));
    assert_eq!(todo_box(b"["), Err(ParseError::MalformedCheckbox));
    assert_eq!(todo_box(b"]"), Err(ParseError::MalformedCheckbox));
}

#[test]
fn head_and_body() {
    assert_eq!(item_head(b"  Buy milk ;; rest"), Ok((13, "Buy milk".to_string())));
    assert_eq!(item_head(b"no delimiter"), Err(ParseError::MissingTitleDelimiter));
    assert_eq!(item_head(b"\xff\xfe;;"), Err(ParseError::BlockParseFailure));
    assert_eq!(item_body(b"\n details here \n"), Some("details here".to_string()));
    assert_eq!(item_body(b" \n\t "), None);
    assert_eq!(item_body(b"\xff"), None);
}

#[test]
fn text_helpers() {
    assert_eq!(trim_bytes(b" \t a b \r\n"), b"a b".to_vec());
    assert_eq!(decode_text(b"h\xc3\xa9".to_vec()), Some("hé".to_string()));
    assert_eq!(decode_text(b"\xc3".to_vec()), None);
}

#[test]
fn entry_full() {
    let item = parse_item(b"[x] Line one ;; :2016/12/13T13:00:\n  some body text ").unwrap();
    assert_eq!(item.todo, Some(true));
    assert_eq!(item.text, "Line one");
    assert_eq!(
        item.time,
        Some(DateTime { year: 2016, month: 12, day: 13, time: Some(Time { hours: 13, minutes: 0 }) })
    );
    assert_eq!(item.description, Some("some body text".to_string()));
    assert!(item.children.is_empty());
}

#[test]
fn entry_bad_stamp_is_body() {
    let item = parse_item(b"[ ] Task ;; :2016-1-13: later").unwrap();
    assert_eq!(item.todo, Some(false));
    assert_eq!(item.time, None);
    assert_eq!(item.description, Some(":2016-1-13: later".to_string()));
}

#[test]
fn entry_bad_checkbox_is_title() {
    let item = parse_item(b"[a] Task ;;").unwrap();
    assert_eq!(item.todo, None);
    assert_eq!(item.text, "[a] Task");
    assert_eq!(item.description, None);
}

#[test]
fn entry_missing_delimiter() {
    assert_eq!(parse_item(b"[x] no delimiter here").err(), Some(ParseError::MissingTitleDelimiter));
}

#[test]
fn splitter_blocks() {
    assert_eq!(count_dash(b"-----x"), 2);
    assert_eq!(count_dash(b"x--"), 0);
    assert_eq!(match_line(b"--a\n--b"), Some((4, 1, &b"a"[..])));
    assert_eq!(match_line(b"b"), None);
    let blocks = match_lines(b"--a\n----b\nc\n---d\n").unwrap();
    assert_eq!(blocks, vec![(1, &b"a"[..]), (2, &b"b\nc"[..]), (1, &b"-d\n"[..])]);
    assert_eq!(match_lines(b"  \n\t"), Some(vec![]));
    assert_eq!(match_lines(b"text first\n--a"), None);
}

#[test]
fn pipeline_keeps_order_and_drops_failures() {
    let v = vec![(1, &b"a ;;"[..]), (2, &b"bad"[..]), (3, &b"c ;; body"[..])];
    let out = convert_vec_items(v);
    assert_eq!(out.len(), 2);
    assert_eq!((out[0].0, out[0].1.text.as_str()), (1, "a"));
    assert_eq!((out[1].0, out[1].1.text.as_str()), (3, "c"));
    assert_eq!(out[1].1.description, Some("body".to_string()));
    assert!(convert_item_tup((4, &b"no delimiter"[..])).is_none());
}

#[test]
fn two_entries_scenario() {
    let out = read_lines_and_parse(b"--[x] Buy milk ;; :2023-06-01T09:30: \n--Write report ;;\n details here").unwrap();
    assert_eq!(out.len(), 2);
    assert_eq!(out[0].0, 1);
    assert_eq!(out[0].1.todo, Some(true));
    assert_eq!(out[0].1.text, "Buy milk");
    assert_eq!(
        out[0].1.time,
        Some(DateTime { year: 2023, month: 6, day: 1, time: Some(Time { hours: 9, minutes: 30 }) })
    );
    assert_eq!(out[0].1.description, None);
    assert_eq!(out[1].0, 1);
    assert_eq!(out[1].1.todo, None);
    assert_eq!(out[1].1.text, "Write report");
    assert_eq!(out[1].1.time, None);
    assert_eq!(out[1].1.description, Some("details here".to_string()));
}

#[test]
fn nested_scenario() {
    let out = read_lines_and_parse(b"----Nested task ;;").unwrap();
    assert_eq!(out.len(), 1);
    assert_eq!(out[0].0, 2);
    assert_eq!(out[0].1.todo, None);
    assert_eq!(out[0].1.text, "Nested task");
    assert_eq!(out[0].1.time, None);
    assert_eq!(out[0].1.description, None);
}

#[test]
fn missing_delimiter_scenario() {
    assert_eq!(read_lines_and_parse(b"--Bad entry without delimiter").map(|v| v.len()), Some(0));
}

#[test]
fn blank_input_gives_nothing() {
    assert_eq!(read_lines_and_parse(b"").map(|v| v.len()), Some(0));
    assert_eq!(read_lines_and_parse(b" \n\t\r\n ").map(|v| v.len()), Some(0));
}

#[test]
fn block_text_splits_back_to_itself() {
    for input in [&b"--a\n---b ;;\n--"[..], &b"------x\n\n"[..]] {
        for (d, body) in match_lines(input).unwrap() {
            let mut text = b"--".repeat(d);
            text.extend_from_slice(body);
            assert_eq!(match_lines(&text), Some(vec![(d, body)]));
        }
    }
}

#[test]
fn written_entry_reads_back() {
    let item = parse_item("[ ] Café run ;; :2024-02-29T07:05: Grab beans,\ntwo bags".as_bytes()).unwrap();
    assert_eq!(item.todo, Some(false));
    assert_eq!(item.text, "Café run");
    assert_eq!(
        item.time,
        Some(DateTime { year: 2024, month: 2, day: 29, time: Some(Time { hours: 7, minutes: 5 }) })
    );
    assert_eq!(item.description, Some("Grab beans,\ntwo bags".to_string()));

    let bare = parse_item(b" Plain ;;  ").unwrap();
    assert_eq!((bare.todo, bare.text.as_str(), bare.time, bare.description), (None, "Plain", None, None));
}

#[test]
fn stamp_with_date_only() {
    let item = parse_item(b"Call ;; :1999/12-31: ").unwrap();
    assert_eq!(item.time, Some(DateTime { year: 1999, month: 12, day: 31, time: None }));
    assert_eq!(item.description, None);
}

use gdbmi::command::{write_value, MiCommand};
use gdbmi::grammar::{parse_line, read_value};
use gdbmi::record::{
    AsyncKind, OutOfBandRecord, ParseError, Record, ResultClass, ResultRecord, StreamKind,
    StreamRecord,
};
use gdbmi::value::Value;

fn text(s: &str) -> String {
    s.to_string()
}

fn num(s: &str) -> Value {
    Value::Number(text(s))
}

fn string(s: &str) -> Value {
    Value::Str(text(s))
}

#[test]
fn map_with_list_keeps_numbers_as_text() {
    let v = read_value("{a=\"1\",b=[1,2,3]}").unwrap();
    assert_eq!(
        v,
        Value::Object(vec![
            (text("a"), string("1")),
            (text("b"), Value::List(vec![string("1"), string("2"), string("3")])),
        ])
    );
    match &v {
        Value::Object(entries) => match &entries[1].1 {
            Value::List(items) => assert!(matches!(&items[0], Value::Str(t) if t == "1")),
            _ => panic!("b is not a list"),
        },
        _ => panic!("not a map"),
    }
}

#[test]
fn reply_payload_keeps_numbers_as_text() {
    assert_eq!(
        parse_line("^done,v={a=\"1\",b=[1,2,3]}"),
        Ok(Record::Result(ResultRecord {
            class: ResultClass::Done,
            results: vec![(
                text("v"),
                Value::Object(vec![
                    (text("a"), string("1")),
                    (text("b"), Value::List(vec![string("1"), string("2"), string("3")])),
                ]),
            )],
        }))
    );
}

#[test]
fn empty_map_and_list() {
    assert_eq!(read_value("{}"), Some(Value::Object(vec![])));
    assert_eq!(read_value("[]"), Some(Value::List(vec![])));
}

#[test]
fn keyed_list_entries_become_elements() {
    assert_eq!(
        read_value("[frame={level=\"0\"},frame={level=\"1\"},7]"),
        Some(Value::List(vec![
            Value::Object(vec![(text("level"), string("0"))]),
            Value::Object(vec![(text("level"), string("1"))]),
            string("7"),
        ]))
    );
}

#[test]
fn string_escapes_are_decoded() {
    assert_eq!(
        read_value("\"a\\\"b\\\\c\\nd\\te\""),
        Some(string("a\"b\\c\nd\te"))
    );
    assert_eq!(read_value("\"bad\\q\""), None);
    assert_eq!(read_value("\"open"), None);
}

#[test]
fn value_must_fill_the_text() {
    assert_eq!(read_value("1,2"), None);
    assert_eq!(read_value(""), None);
    assert_eq!(read_value("{a}"), None);
    assert_eq!(read_value("[1,2"), None);
}

#[test]
fn result_line_with_token() {
    assert_eq!(
        parse_line("12^done,value=\"42\""),
        Ok(Record::Result(ResultRecord {
            class: ResultClass::Done,
            results: vec![(text("value"), string("42"))],
        }))
    );
}

#[test]
fn result_classes() {
    let classes = [
        ("^done", ResultClass::Done),
        ("^running", ResultClass::Running),
        ("^connected", ResultClass::Connected),
        ("^error,msg=\"no\"", ResultClass::Error),
        ("^exit", ResultClass::Exit),
    ];
    for (line, class) in classes.iter() {
        match parse_line(line) {
            Ok(Record::Result(r)) => assert_eq!(r.class, *class),
            other => panic!("unexpected {:?}", other),
        }
    }
    assert_eq!(
        parse_line("^finished"),
        Err(ParseError { line: text("^finished") })
    );
}

#[test]
fn out_of_band_lines() {
    assert_eq!(
        parse_line("*stopped,reason=\"breakpoint-hit\",bkptno=\"1\""),
        Ok(Record::OutOfBand(OutOfBandRecord {
            kind: AsyncKind::Exec,
            class: text("stopped"),
            results: vec![
                (text("reason"), string("breakpoint-hit")),
                (text("bkptno"), string("1")),
            ],
        }))
    );
    assert_eq!(
        parse_line("=thread-group-added,id=\"i1\""),
        Ok(Record::OutOfBand(OutOfBandRecord {
            kind: AsyncKind::Notify,
            class: text("thread-group-added"),
            results: vec![(text("id"), string("i1"))],
        }))
    );
    assert_eq!(
        parse_line("+download"),
        Ok(Record::OutOfBand(OutOfBandRecord {
            kind: AsyncKind::Status,
            class: text("download"),
            results: vec![],
        }))
    );
}

#[test]
fn stream_lines() {
    assert_eq!(
        parse_line("~\"GNU gdb\\n\""),
        Ok(Record::Stream(StreamRecord { kind: StreamKind::Console, data: text("GNU gdb\n") }))
    );
    assert_eq!(
        parse_line("@\"out\""),
        Ok(Record::Stream(StreamRecord { kind: StreamKind::Target, data: text("out") }))
    );
    assert_eq!(
        parse_line("&\"log\""),
        Ok(Record::Stream(StreamRecord { kind: StreamKind::Log, data: text("log") }))
    );
    assert!(parse_line("~\"x\" trailing").is_err());
}

#[test]
fn malformed_lines_carry_the_line() {
    for line in ["", "(gdb) ", "^done,", "^done,a", "*running,a=", "~unquoted", "42"].iter() {
        assert_eq!(parse_line(line), Err(ParseError { line: text(line) }));
    }
}

#[test]
fn resync_after_malformed_line() {
    let lines = ["^done", "=a,b=\"1\"", "^done,x={", "~\"t\"", "*stopped"];
    let records: Vec<Record> = lines.iter().filter_map(|l| parse_line(l).ok()).collect();
    assert_eq!(records.len(), 4);
    assert!(matches!(records[0], Record::Result(_)));
    assert!(matches!(records[1], Record::OutOfBand(_)));
    assert!(matches!(records[2], Record::Stream(_)));
    assert!(matches!(records[3], Record::OutOfBand(_)));
}

#[test]
fn written_value_reads_back() {
    let v = Value::Object(vec![
        (text("name"), string("say \"hi\"\n")),
        (text("nums"), Value::List(vec![num("1"), num("0x40")])),
        (text("empty"), Value::Object(vec![])),
    ]);
    let mut out = String::new();
    write_value(&v, &mut out);
    assert_eq!(out, "{name=\"say \\\"hi\\\"\\n\",nums=[1,0x40],empty={}}");
    let back = Value::Object(vec![
        (text("name"), string("say \"hi\"\n")),
        (text("nums"), Value::List(vec![string("1"), string("0x40")])),
        (text("empty"), Value::Object(vec![])),
    ]);
    assert_eq!(read_value(&out), Some(back));
}

#[test]
fn written_strings_read_back_unchanged() {
    let v = Value::List(vec![string("a,b"), Value::Object(vec![(text("k"), string("]"))])]);
    let mut out = String::new();
    write_value(&v, &mut out);
    assert_eq!(read_value(&out), Some(v));
}

#[test]
fn null_and_bool_are_written_as_words() {
    let mut out = String::new();
    write_value(&Value::List(vec![Value::Null, Value::Bool(true), Value::Bool(false)]), &mut out);
    assert_eq!(out, "[null,true,false]");
}

#[test]
fn command_line_quotes_parameters_then_options() {
    let mut c = MiCommand::new("break-insert");
    c.parameters.push(string("main.c:12"));
    c.parameters.push(num("3"));
    c.parameters.push(Value::List(vec![string("a")]));
    c.options.push((text("-t"), None));
    c.options.push((text("--thread"), Some(text("1"))));
    assert_eq!(
        c.to_interpreter_string(),
        "-break-insert \"main.c:12\" \"3\" \"[\\\"a\\\"]\" -t --thread=1\n"
    );
}

#[test]
fn command_without_arguments() {
    assert_eq!(MiCommand::new("exec-run").to_interpreter_string(), "-exec-run\n");
}

#[test]
fn duplicate_keys_are_refused() {
    assert_eq!(read_value("{a=\"1\",a=\"2\"}"), None);
    assert_eq!(
        parse_line("^done,a=\"1\",a=\"2\""),
        Err(ParseError { line: text("^done,a=\"1\",a=\"2\"") })
    );
    assert_eq!(
        read_value("{a={a=\"1\"},b=\"2\"}"),
        Some(Value::Object(vec![
            (text("a"), Value::Object(vec![(text("a"), string("1"))])),
            (text("b"), string("2")),
        ]))
    );
}

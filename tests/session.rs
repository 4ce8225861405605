use gdbmi::command::MiCommand;
use gdbmi::record::{OutOfBandRecord, ResultClass, ResultRecord};
use gdbmi::session::{ExecuteError, LineOutcome, OutOfBandRecordSink, SessionState};
use gdbmi::value::Value;
use std::cell::RefCell;

struct Collect(RefCell<Vec<OutOfBandRecord>>);

impl OutOfBandRecordSink for Collect {
    fn send(&self, record: OutOfBandRecord) {
        self.0.borrow_mut().push(record);
    }
}

fn done_with(key: &str, value: &str) -> ResultRecord {
    ResultRecord {
        class: ResultClass::Done,
        results: vec![(key.to_string(), Value::Str(value.to_string()))],
    }
}

#[test]
fn running_debuggee_refuses_commands_until_it_stops() {
    let mut s = SessionState::new();
    assert!(!s.is_running());
    assert!(matches!(s.handle_line("*running,thread-id=\"all\""), LineOutcome::OutOfBand(_)));
    assert!(s.is_running());

    let mut written = String::new();
    assert_eq!(
        s.start_execute(&MiCommand::new("exec-next"), &mut written),
        Err(ExecuteError::Busy)
    );
    assert_eq!(written, "");

    s.handle_line("*stopped,reason=\"breakpoint-hit\"");
    assert!(!s.is_running());
    assert_eq!(s.start_execute(&MiCommand::new("data-evaluate-expression"), &mut written), Ok(()));
    assert_eq!(written, "-data-evaluate-expression\n");
    assert_eq!(s.take_result(), None);
    assert_eq!(s.handle_line("^done,value=\"42\""), LineOutcome::Queued);
    assert_eq!(s.take_result(), Some(Ok(done_with("value", "42"))));
}

#[test]
fn busy_writes_nothing_to_a_filled_buffer() {
    let mut s = SessionState::new();
    s.handle_line("*running");
    let mut written = String::from("earlier");
    assert_eq!(s.start_execute(&MiCommand::new("exec-next"), &mut written), Err(ExecuteError::Busy));
    assert_eq!(written, "earlier");
}

#[test]
fn replies_are_taken_in_order() {
    let mut s = SessionState::new();
    for n in 0..5 {
        s.handle_line(&format!("^done,n=\"{}\"", n));
        s.handle_line("=library-loaded,id=\"x\"");
    }
    assert_eq!(s.pending_len(), 5);
    for n in 0..5 {
        assert_eq!(s.take_result(), Some(Ok(done_with("n", &n.to_string()))));
    }
    assert_eq!(s.take_result(), None);
}

#[test]
fn each_command_gets_its_own_reply() {
    let mut s = SessionState::new();
    for n in 0..3 {
        let mut written = String::new();
        assert_eq!(s.start_execute(&MiCommand::new("thread-info"), &mut written), Ok(()));
        s.handle_line(&format!("^done,n=\"{}\"", n));
        assert_eq!(s.take_result(), Some(Ok(done_with("n", &n.to_string()))));
    }
}

#[test]
fn end_of_output_turns_waiting_into_quit() {
    let mut s = SessionState::new();
    s.handle_line("^done,n=\"0\"");
    assert_eq!(s.take_result(), Some(Ok(done_with("n", "0"))));
    assert_eq!(s.take_result(), None);
    s.handle_eof();
    assert!(s.is_closed());
    assert_eq!(s.take_result(), Some(Err(ExecuteError::Quit)));
    assert_eq!(s.take_result(), Some(Err(ExecuteError::Quit)));
}

#[test]
fn replies_read_before_the_end_are_still_handed_out() {
    let mut s = SessionState::new();
    s.handle_line("^done,n=\"0\"");
    s.handle_eof();
    assert_eq!(s.take_result(), Some(Ok(done_with("n", "0"))));
    assert_eq!(s.take_result(), Some(Err(ExecuteError::Quit)));
}

#[test]
fn malformed_line_changes_nothing() {
    let mut s = SessionState::new();
    s.handle_line("*running");
    match s.handle_line("*stopped,reason=") {
        LineOutcome::Malformed(e) => assert_eq!(e.line, "*stopped,reason="),
        other => panic!("unexpected {:?}", other),
    }
    assert!(s.is_running());
    assert_eq!(s.pending_len(), 0);
}

#[test]
fn only_exec_records_change_the_running_state() {
    let mut s = SessionState::new();
    s.handle_line("=running");
    assert!(!s.is_running());
    s.handle_line("*running");
    s.handle_line("+stopped");
    assert!(s.is_running());
    s.handle_line("*other");
    assert!(s.is_running());
}

#[test]
fn end_of_output_while_running_gives_quit() {
    let mut s = SessionState::new();
    s.handle_line("*running");
    assert!(s.is_running());
    s.handle_eof();
    assert!(!s.is_running());
    let mut written = String::new();
    assert_eq!(s.start_execute(&MiCommand::new("exec-next"), &mut written), Err(ExecuteError::Quit));
    assert_eq!(written, "");
    assert_eq!(s.take_result(), Some(Err(ExecuteError::Quit)));
    s.handle_line("*running");
    assert!(!s.is_running());
    assert_eq!(s.start_execute(&MiCommand::new("exec-next"), &mut written), Err(ExecuteError::Quit));
}

#[test]
fn sink_receives_what_the_reader_hands_it() {
    let mut s = SessionState::new();
    let sink = Collect(RefCell::new(Vec::new()));
    for line in ["*running", "^done", "~\"hello\"", "garbage"].iter() {
        if let LineOutcome::OutOfBand(record) = s.handle_line(line) {
            sink.send(record);
        }
    }
    let got = sink.0.borrow();
    assert_eq!(got.len(), 1);
    assert_eq!(got[0].class, "running");
    assert!(s.is_running());
    assert_eq!(s.pending_len(), 1);
}

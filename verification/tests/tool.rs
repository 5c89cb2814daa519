use tzmath::batch::{BatchAction, BatchEvent, BatchState};
use tzmath::commands::{add, convert, diff};

fn run_lines(lines: &[&str], fail_read_at: Option<usize>, op: fn(&str) -> Result<String, String>) -> Result<String, String> {
    let mut state = BatchState::new();
    let mut next = 0;
    let mut action = BatchAction::ReadNext;
    loop {
        let event = match action {
            BatchAction::ReadNext => {
                if fail_read_at == Some(next) {
                    BatchEvent::ReadFailed("stream did not contain valid UTF-8".to_string())
                } else if next < lines.len() {
                    next += 1;
                    BatchEvent::Line(lines[next - 1].to_string())
                } else {
                    BatchEvent::End
                }
            }
            BatchAction::Apply(line) => BatchEvent::Applied(op(&line)),
            BatchAction::Finish(result) => return result,
        };
        action = state.step(event);
    }
}

fn shout(s: &str) -> Result<String, String> {
    if s.starts_with('!') {
        Err(format!("refused '{s}'"))
    } else {
        Ok(s.to_uppercase())
    }
}

#[test]
fn batch_skips_blank_lines_and_joins_results() {
    assert_eq!(run_lines(&["  a ", "", " \t ", "b"], None, shout), Ok("A\nB".to_string()));
    assert_eq!(run_lines(&["one"], None, shout), Ok("ONE".to_string()));
}

#[test]
fn batch_stops_at_the_first_refused_line_counting_blank_ones() {
    assert_eq!(
        run_lines(&["a", "", "  !b ", "c"], None, shout),
        Err("line 3: refused '!b'".to_string())
    );
}

#[test]
fn batch_refuses_a_run_without_timestamps() {
    assert_eq!(run_lines(&[], None, shout), Err("no timestamps read from stdin".to_string()));
    assert_eq!(run_lines(&["", "   "], None, shout), Err("no timestamps read from stdin".to_string()));
}

#[test]
fn batch_reports_a_failed_read_as_it_is() {
    assert_eq!(
        run_lines(&["a", "b"], Some(1), shout),
        Err("stream did not contain valid UTF-8".to_string())
    );
}

#[test]
fn batch_counts_lines_read() {
    let mut state = BatchState::new();
    assert_eq!(state.line_count(), 0);
    let _ = state.step(BatchEvent::Line(String::new()));
    let _ = state.step(BatchEvent::Line("x".to_string()));
    assert_eq!(state.line_count(), 2);
}

#[test]
fn commands_on_text() {
    assert_eq!(
        convert("2024-03-10T14:30:00-05:00", "+09:00"),
        Ok("2024-03-11T04:30:00+09:00".to_string())
    );
    assert_eq!(
        add("2024-03-10T14:30:00-05:00", "3h30m"),
        Some(Ok("2024-03-10T18:00:00-05:00".to_string()))
    );
    assert_eq!(
        add("2024-03-10T14:30:00-05:00", "-90m"),
        Some(Ok("2024-03-10T13:00:00-05:00".to_string()))
    );
    assert_eq!(
        diff("2024-03-10T14:30:00-05:00", "2024-03-10T18:00:00-05:00"),
        Ok("3h30m".to_string())
    );
    assert_eq!(
        diff("2024-03-10T18:00:00-05:00", "2024-03-10T14:30:00-05:00"),
        Ok("-3h30m".to_string())
    );
}

#[test]
fn commands_report_what_was_refused() {
    assert_eq!(convert("x", "Z"), Err("'x' is too short to be a timestamp".to_string()));
    assert_eq!(
        convert("2024-03-10T14:30:00Z", "+5:00"),
        Err("bad offset '+5:00', expected +HH:MM, -HH:MM or Z".to_string())
    );
    assert_eq!(
        add("2024-03-10T14:30:00Z", " 3x "),
        Some(Err("unknown duration unit 'x' in '3x'".to_string()))
    );
    assert_eq!(
        diff("2024-03-10T14:30:00Z", "2024-02-30T00:00:00Z"),
        Err("day 30 out of range for 2024-02".to_string())
    );
}

#[test]
fn adding_past_64_bit_seconds_is_signalled() {
    assert_eq!(add("9999-12-31T23:59:59Z", "106751991167300d"), None);
    assert_eq!(add("0000-01-01T00:00:00+14:00", "-106751991167300d"), None);
}

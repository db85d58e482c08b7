use operator_log::lines::split_lines;
use operator_log::log::append_content;
use operator_log::log::render_entry;
use operator_log::log::tail_lines;
use operator_log::log::tail_outcome;

fn strings(items: &[&str]) -> Vec<String> {
    items.iter().map(|s| String::from(*s)).collect()
}

#[test]
fn append_writes_entry_and_newline() {
    assert_eq!(render_entry("a"), "a\n");
    assert_eq!(render_entry(""), "\n");
    assert_eq!(render_entry("{\"k\":1}"), "{\"k\":1}\n");
}

#[test]
fn append_to_empty_creates_single_line() {
    assert_eq!(append_content("", "a"), "a\n");
}

#[test]
fn append_is_cumulative() {
    let first = append_content("", "a");
    let second = append_content(&first, "b");
    let third = append_content(&second, "c");
    assert_eq!(third, "a\nb\nc\n");
}

#[test]
fn tail_read_is_newest_first() {
    assert_eq!(tail_lines("a\nb\nc\n", 2), strings(&["c", "b"]));
    assert_eq!(tail_lines("a\nb\nc\n", 3), strings(&["c", "b", "a"]));
}

#[test]
fn tail_read_over_request_returns_all_lines() {
    assert_eq!(tail_lines("a\nb\n", 10), strings(&["b", "a"]));
}

#[test]
fn tail_read_zero_is_empty() {
    assert_eq!(tail_lines("a\nb\nc\n", 0), strings(&[]));
}

#[test]
fn tail_read_of_empty_contents_is_empty() {
    assert_eq!(tail_lines("", 5), strings(&[]));
}

#[test]
fn tail_read_keeps_unterminated_last_line() {
    assert_eq!(tail_lines("a\nb", 10), strings(&["b", "a"]));
}

#[test]
fn tail_read_strips_carriage_return_before_newline() {
    assert_eq!(tail_lines("a\r\nb\n", 10), strings(&["b", "a"]));
}

#[test]
fn tail_read_keeps_trailing_carriage_return_without_newline() {
    assert_eq!(tail_lines("a\r", 10), strings(&["a\r"]));
}

#[test]
fn lone_newline_is_one_empty_line() {
    assert_eq!(tail_lines("\n", 10), strings(&[""]));
    assert_eq!(tail_lines("a\n\nb\n", 10), strings(&["b", "", "a"]));
}

#[test]
fn split_lines_is_oldest_first() {
    assert_eq!(split_lines("a\nb\nc\n"), strings(&["a", "b", "c"]));
    assert_eq!(split_lines(""), strings(&[]));
}

#[test]
fn successful_read_outcome_is_the_tail() {
    let read: Result<String, String> = Ok(String::from("x\ny\n"));
    assert_eq!(tail_outcome(read, 1), Ok(strings(&["y"])));
}

#[test]
fn missing_file_read_outcome_is_the_error() {
    let message = String::from("No such file or directory (os error 2)");
    let read: Result<String, String> = Err(message.clone());
    assert_eq!(tail_outcome(read, 5), Err(message));
}

#[test]
fn repeated_reads_agree() {
    let contents = "a\nb\nc\n";
    let first = tail_lines(contents, 2);
    let second = tail_lines(contents, 2);
    assert_eq!(first, second);
}

#[test]
fn appended_entry_is_read_back_first() {
    let log = append_content("a\nb\n", "c");
    assert_eq!(tail_lines(&log, 1), strings(&["c"]));
}

use chash::logger::{current_timestamp, final_table_log, lock_count_lines, thread_log_line};

#[test]
fn thread_line_format() {
    assert_eq!(thread_log_line(123, 4, "WAITING FOR MY TURN"), "123: THREAD 4 WAITING FOR MY TURN\n");
}

#[test]
fn count_lines_format() {
    assert_eq!(
        lock_count_lines(5, 10, 9),
        "5: Number of lock acquisitions: 10\n5: Number of lock releases: 9\n"
    );
}

#[test]
fn final_table_drops_header() {
    assert_eq!(
        final_table_log(7, "Current Database:\n1,a,2\n3,b,4\n"),
        "7: Final Table:\n1,a,2\n3,b,4\n"
    );
    assert_eq!(final_table_log(7, "Current Database:\n"), "7: Final Table:\n");
    assert_eq!(final_table_log(7, ""), "7: Final Table:\n");
    assert_eq!(final_table_log(7, "h\r\nx\r\ny\r"), "7: Final Table:\nx\ny\r\n");
}

#[test]
fn timestamps_do_not_go_back() {
    let a = current_timestamp().unwrap();
    let b = current_timestamp().unwrap();
    assert!(a > 0 && b >= a);
}

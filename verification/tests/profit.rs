use lumagg::profit::{format_xlm4, format_xlm4_u, ProfitBook, ProfitWindow};

#[test]
fn formats_four_decimals() {
    assert_eq!(format_xlm4_u(595_035_000), "59.5035");
    assert_eq!(format_xlm4(1_074_562), "0.1074");
    assert_eq!(format_xlm4(-690_000), "-0.0690");
}

#[test]
fn hour_window_resets() {
    let mut book = ProfitBook::default();
    book.record_success("abc", 100_000_000, 380_000, 1_074_562);
    let (hour, session, recent) = book.snapshot_for_hourly_report();
    assert_eq!(hour.succeeded, 1);
    assert_eq!(session.succeeded, 1);
    assert_eq!(recent.len(), 1);
    let (hour2, session2, _) = book.snapshot_for_hourly_report();
    assert_eq!(hour2.succeeded, 0);
    assert_eq!(session2.succeeded, 1);
}

#[test]
fn formats_extreme_values() {
    assert_eq!(format_xlm4(0), "0.0000");
    assert_eq!(format_xlm4(i128::MIN), "-17014118346046923173168730371588.4105");
    assert_eq!(format_xlm4_u(u128::MAX), "-0.0000");
    assert_eq!(format_xlm4(-1), "-0.0000");
}

#[test]
fn recent_list_keeps_newest_five() {
    let mut book = ProfitBook::new();
    for i in 0..7u128 {
        book.record_success(&format!("tx{i}"), 1, i, 0);
    }
    book.record_submitted();
    book.record_failed();
    book.record_unknown();
    let (hour, session, recent) = book.snapshot_for_hourly_report();
    assert_eq!(recent.len(), 5);
    assert_eq!(recent[0].hash, "tx6");
    assert_eq!(recent[4].hash, "tx2");
    assert_eq!(hour.succeeded, 7);
    assert_eq!(session.gross_profit_stroops, 21);
    assert_eq!(session.submitted, 1);
    assert_eq!(session.failed, 1);
    assert_eq!(session.unknown, 1);
}

#[test]
fn net_profit_and_take() {
    let mut w = ProfitWindow { succeeded: 2, failed: 1, unknown: 0, submitted: 3, gross_profit_stroops: 500_000, fee_stroops: 1_000_000 };
    assert_eq!(w.net_profit_stroops(), -500_000);
    let taken = w.take();
    assert_eq!(taken.succeeded, 2);
    assert_eq!(w, ProfitWindow::default());
}

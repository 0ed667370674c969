use std::collections::HashMap;

use ecooff::process::Proc;
use ecooff::rule::parse;
use ecooff::scan::{
    format_timestamp, log_entry, process_table, released, report, scan_step, sort_processes,
    wide_name, ProcessState, ScanState,
};

fn proc(pid: u32, parent: u32, name: &str) -> Proc {
    Proc { pid, parent, name: name.to_string() }
}

fn state(pid: u32, name: &str) -> ProcessState {
    ProcessState {
        pid,
        parent_pid: 0,
        name: name.to_string(),
        parent: String::new(),
        ok: true,
        detail: String::new(),
    }
}

#[test]
fn wide_name_stops_at_nul() {
    let mut buf = [0u16; 8];
    for (i, c) in "abc".encode_utf16().enumerate() {
        buf[i] = c;
    }
    buf[4] = 'z' as u16;
    assert_eq!(wide_name(&buf), "abc");
    let full: Vec<u16> = "Code.exe".encode_utf16().collect();
    assert_eq!(wide_name(&full), "Code.exe");
    assert_eq!(wide_name(&[0xD800, 0x0041]), "\u{FFFD}A");
    assert_eq!(wide_name(&[0u16; 4]), "");
    assert_eq!(wide_name(&[0xD83D, 0xDE00, 0x41, 0]), "\u{1F600}A");
    assert_eq!(wide_name(&[0xDE00, 0xD83D]), "\u{FFFD}\u{FFFD}");
}

#[test]
fn process_table_keeps_last_entry_per_pid() {
    let t = process_table(vec![proc(1, 0, "a"), proc(2, 1, "b"), proc(1, 0, "c")]);
    assert_eq!(t.len(), 2);
    assert_eq!(t.get(&1).unwrap().name, "c");
    assert_eq!(t.get(&2).unwrap().name, "b");
}

#[test]
fn report_logs_only_changes() {
    let all = process_table(vec![proc(1, 0, "Code.exe"), proc(7, 1, "node.exe")]);
    let p = proc(7, 1, "node.exe");
    let mut previous = HashMap::new();
    let (msg, st) = report(&p, &all, Ok(()), &previous);
    assert_eq!(msg.as_deref(), Some("ecooff pid=7 name=node.exe"));
    assert_eq!(st.pid, 7);
    assert_eq!(st.parent_pid, 1);
    assert_eq!(st.name, "node.exe");
    assert_eq!(st.parent, "Code.exe");
    assert!(st.ok);
    assert_eq!(st.detail, "已解除效能限制");
    previous.insert(7, Ok(()));
    let (msg, _) = report(&p, &all, Ok(()), &previous);
    assert_eq!(msg, None);
    let (msg, st) = report(&p, &all, Err(5), &previous);
    assert_eq!(msg.as_deref(), Some("failed pid=7 name=node.exe error=5"));
    assert!(!st.ok);
    assert_eq!(st.detail, "失败 · 5");
    previous.insert(7, Err(5));
    assert_eq!(report(&p, &all, Err(5), &previous).0, None);
    assert_eq!(
        report(&p, &all, Err(6), &previous).0.as_deref(),
        Some("failed pid=7 name=node.exe error=6")
    );
}

#[test]
fn report_marks_missing_parent() {
    let all = process_table(vec![proc(7, 99, "node.exe")]);
    let (_, st) = report(&proc(7, 99, "node.exe"), &all, Ok(()), &HashMap::new());
    assert_eq!(st.parent, "—");
}

#[test]
fn processes_sorted_by_name_then_pid() {
    let v = vec![state(9, "b"), state(3, "a"), state(1, "b"), state(2, "B"), state(5, "a")];
    let s = sort_processes(v);
    let keys: Vec<(String, u32)> = s.iter().map(|p| (p.name.clone(), p.pid)).collect();
    assert_eq!(
        keys,
        vec![
            ("B".to_string(), 2),
            ("a".to_string(), 3),
            ("a".to_string(), 5),
            ("b".to_string(), 1),
            ("b".to_string(), 9)
        ]
    );
}

#[test]
fn scan_state_orders_processes() {
    let s = ScanState::new("t".to_string(), 42, vec![state(2, "z"), state(1, "y")]);
    assert_eq!(s.last_scan, "t");
    assert_eq!(s.scanned, 42);
    assert_eq!(s.processes[0].name, "y");
    assert_eq!(s.processes[1].name, "z");
    let d = ScanState::default();
    assert_eq!(d.scanned, 0);
    assert!(d.processes.is_empty());
}

#[test]
fn timestamp_is_zero_padded() {
    assert_eq!(format_timestamp(2024, 1, 5, 3, 4, 9), "2024-01-05 03:04:09");
    assert_eq!(format_timestamp(999, 12, 31, 23, 59, 59), "0999-12-31 23:59:59");
    assert_eq!(format_timestamp(12345, 100, 0, 0, 0, 0), "12345-100-00 00:00:00");
}

#[test]
fn log_entry_brackets_time() {
    assert_eq!(log_entry("2024-01-05 03:04:09", "config saved"), "[2024-01-05 03:04:09] config saved");
}

#[test]
fn dashboard_shows_scan_and_sorted_config() {
    let config = ecooff::rule::parse("scan_interval_secs = 30\nallow = [\"b.exe\", \"A.exe\"]");
    let scan = ScanState::new("now".to_string(), 3, vec![state(4, "x")]);
    let d = ecooff::scan::Dashboard::new(
        scan,
        &config,
        vec!["line".to_string()],
        "cfg".to_string(),
        "log".to_string(),
    );
    assert!(d.active);
    assert_eq!(d.last_scan, "now");
    assert_eq!(d.scanned, 3);
    assert_eq!(d.processes.len(), 1);
    assert_eq!(d.config.scan_interval_secs, 30);
    assert_eq!(d.config.allow, vec!["a.exe".to_string(), "b.exe".to_string()]);
    assert_eq!(d.logs, vec!["line".to_string()]);
    assert_eq!(d.config_path, "cfg");
    assert_eq!(d.log_path, "log");
}

#[test]
fn released_keeps_matched_in_order() {
    let all = process_table(vec![
        proc(1, 0, "Code.exe"),
        proc(2, 1, "node.exe"),
        proc(3, 0, "other.exe"),
        proc(4, 0, "python.exe"),
    ]);
    let rule = parse("allow = [\"python.exe\"]\nallow_parent = [\"code.exe\"]").rule;
    assert_eq!(released(&all, &vec![4, 3, 2, 1, 9], &rule), vec![4, 2]);
}

#[test]
fn scan_step_logs_changes_and_keeps_outcomes() {
    let all = process_table(vec![proc(1, 0, "Code.exe"), proc(2, 1, "node.exe")]);
    let attempts = vec![(2, Ok(())), (1, Err(5)), (9, Ok(()))];
    let first = scan_step(&all, &attempts, &HashMap::new());
    assert_eq!(
        first.messages,
        vec![
            "ecooff pid=2 name=node.exe".to_string(),
            "failed pid=1 name=Code.exe error=5".to_string()
        ]
    );
    assert_eq!(first.rows.len(), 2);
    assert_eq!(first.rows[0].pid, 2);
    assert_eq!(first.rows[0].parent, "Code.exe");
    assert_eq!(first.rows[1].detail, "失败 · 5");
    assert_eq!(first.next.len(), 2);
    assert_eq!(first.next.get(&1), Some(&Err(5)));
    // the same outcomes again: nothing is logged
    let second = scan_step(&all, &attempts, &first.next);
    assert!(second.messages.is_empty());
    assert_eq!(second.rows.len(), 2);
    // a changed outcome is logged
    let third = scan_step(&all, &vec![(1, Ok(()))], &second.next);
    assert_eq!(third.messages, vec!["ecooff pid=1 name=Code.exe".to_string()]);
}

#[test]
fn scan_lists_each_released_process_once() {
    let all = process_table(vec![
        proc(3, 0, "Code.exe"),
        proc(1, 3, "node.exe"),
        proc(2, 3, "node.exe"),
        proc(4, 0, "explorer.exe"),
    ]);
    let rule = parse("allow_parent = [\"code.exe\"]").rule;
    let order: Vec<u32> = all.keys().copied().collect();
    let targets = released(&all, &order, &rule);
    let attempts: Vec<(u32, Result<(), u32>)> = targets.iter().map(|&p| (p, Ok(()))).collect();
    let step = scan_step(&all, &attempts, &HashMap::new());
    let scan = ScanState::new("t".to_string(), all.len(), step.rows);
    assert_eq!(scan.scanned, 4);
    let keys: Vec<(String, u32)> = scan.processes.iter().map(|p| (p.name.clone(), p.pid)).collect();
    assert_eq!(keys, vec![("node.exe".to_string(), 1), ("node.exe".to_string(), 2)]);
}

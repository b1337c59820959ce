use overview::logger::{clear_logs, format_log_export, get_logs, log_debug, log_entry, log_error, log_info, log_warn, LogEntry, LogStore};

fn stamp() -> String {
    chrono::Local::now().format("%m-%d | %H:%M:%S%.3f").to_string()
}

fn unique_stamp() -> u128 {
    std::time::SystemTime::now()
        .duration_since(std::time::UNIX_EPOCH)
        .unwrap()
        .as_nanos()
}

#[test]
fn test_log_entry_creation() {
    let entry = LogEntry {
        timestamp: "2024-01-01 12:00:00".to_string(),
        level: "INFO".to_string(),
        message: "Test message".to_string(),
        module: Some("test".to_string()),
        source: "🦀".to_string(),
    };
    assert_eq!(entry.level, "INFO");
    assert_eq!(entry.message, "Test message");
}

#[test]
fn test_log_entry_structure() {
    let entry = LogEntry {
        timestamp: "02-03 | 14:30:00".to_string(),
        level: "INFO".to_string(),
        message: "Test message".to_string(),
        module: Some("test_module".to_string()),
        source: "🦀".to_string(),
    };

    assert_eq!(entry.level, "INFO");
    assert_eq!(entry.message, "Test message");
    assert_eq!(entry.module, Some("test_module".to_string()));
    assert_eq!(entry.source, "🦀");
}

#[test]
fn test_log_entry_clone() {
    let entry1 = LogEntry {
        timestamp: "01-01 | 12:00:00".to_string(),
        level: "INFO".to_string(),
        message: "Test".to_string(),
        module: Some("module".to_string()),
        source: "🦀".to_string(),
    };

    let entry2 = entry1.clone();
    assert_eq!(entry1.timestamp, entry2.timestamp);
    assert_eq!(entry1.level, entry2.level);
    assert_eq!(entry1.message, entry2.message);
    assert_eq!(entry1.module, entry2.module);
    assert_eq!(entry1.source, entry2.source);
}

#[test]
fn test_logging_functions_exist() {
    let mut store = LogStore::new();
    log_info(&mut store, stamp(), "Test");
    log_debug(&mut store, stamp(), "Test");
    log_error(&mut store, stamp(), "Test");
    log_warn(&mut store, stamp(), "Test");

    // The functions should not panic
    assert!(true);
}

#[test]
fn test_get_logs_returns_vec() {
    let store = LogStore::new();
    let logs = get_logs(&store);
    let _len: usize = logs.len();
}

#[test]
fn test_log_info_with_module() {
    let mut store = LogStore::new();
    let unique_msg = format!("Test with module at {}", unique_stamp());
    log_entry(&mut store, stamp(), "INFO", &unique_msg, Some("TestModule".to_string()));

    let logs = get_logs(&store);
    assert!(!logs.is_empty());

    let found = logs.iter().rev().take(10).find(|log| {
        log.message == unique_msg && log.level == "INFO" && log.module == Some("TestModule".to_string())
    });

    assert!(found.is_some(), "Could not find the log entry we just added");
    if let Some(entry) = found {
        assert_eq!(entry.source, "🦀");
    }
}

#[test]
fn test_log_all_levels() {
    let mut store = LogStore::new();
    let time = unique_stamp();
    log_entry(&mut store, stamp(), "DEBUG", &format!("Debug-{}", time), None);
    log_entry(&mut store, stamp(), "INFO", &format!("Info-{}", time), None);
    log_entry(&mut store, stamp(), "WARN", &format!("Warn-{}", time), None);
    log_entry(&mut store, stamp(), "ERROR", &format!("Error-{}", time), None);

    let logs = get_logs(&store);
    assert!(!logs.is_empty());

    let recent_logs: Vec<_> = logs.iter().rev().take(10).collect();
    let messages: Vec<_> = recent_logs.iter().map(|l| l.message.as_str()).collect();
    assert!(messages.iter().any(|m| m.contains(&format!("{}", time))));
}

#[test]
fn test_log_entry_timestamp_format() {
    let mut store = LogStore::new();
    clear_logs(&mut store);
    let unique_msg = format!("Timestamp test {}", unique_stamp());
    log_entry(&mut store, stamp(), "INFO", &unique_msg, None);

    let logs = get_logs(&store);
    assert!(!logs.is_empty());

    let entry = logs
        .iter()
        .rev()
        .find(|log| log.message == unique_msg)
        .expect("Could not find logged entry");
    // Timestamp should match format MM-DD | HH:MM:SS.mmm
    assert!(entry.timestamp.contains("|"));
    assert!(entry.timestamp.len() >= 16);
}

#[test]
fn test_multiple_log_entries() {
    let mut store = LogStore::new();
    clear_logs(&mut store);

    for i in 0..5 {
        log_entry(&mut store, stamp(), "INFO", &format!("Message {}", i), None);
    }

    let logs = get_logs(&store);
    assert!(logs.len() >= 5);
}

#[test]
fn test_clear_logs() {
    let mut store = LogStore::new();
    clear_logs(&mut store);

    log_entry(&mut store, stamp(), "INFO", "Log 1", None);
    log_entry(&mut store, stamp(), "INFO", "Log 2", None);

    let before = get_logs(&store);
    assert!(!before.is_empty());

    clear_logs(&mut store);
    let after = get_logs(&store);
    assert_eq!(after.len(), 0);
}

#[test]
fn test_log_entry_with_empty_message() {
    let mut store = LogStore::new();
    clear_logs(&mut store);
    log_entry(&mut store, stamp(), "INFO", "", Some("empty_msg_test".to_string()));

    let logs = get_logs(&store);
    assert!(!logs.is_empty());

    let entry = logs
        .iter()
        .rev()
        .find(|log| log.module == Some("empty_msg_test".to_string()))
        .expect("Could not find logged entry");
    assert_eq!(entry.message, "");
}

#[test]
fn test_log_entry_with_special_characters() {
    let mut store = LogStore::new();
    clear_logs(&mut store);
    let special_msg = "Message with special chars: !@#$%^&*()_+-=[]{}|;':\"<>,.?/";
    log_entry(&mut store, stamp(), "INFO", special_msg, Some("special_chars_test".to_string()));

    let logs = get_logs(&store);
    assert!(!logs.is_empty());

    let entry = logs
        .iter()
        .rev()
        .find(|log| log.module == Some("special_chars_test".to_string()))
        .expect("Could not find logged entry");
    assert_eq!(entry.message, special_msg);
}

#[test]
fn test_log_entry_with_unicode() {
    let mut store = LogStore::new();
    clear_logs(&mut store);
    let unicode_msg = "Unicode test: 你好 мир 🦀 🎉";
    log_entry(&mut store, stamp(), "INFO", unicode_msg, Some("unicode_test".to_string()));

    let logs = get_logs(&store);
    assert!(!logs.is_empty());

    let entry = logs
        .iter()
        .rev()
        .find(|log| log.module == Some("unicode_test".to_string()))
        .expect("Could not find logged entry");
    assert_eq!(entry.message, unicode_msg);
}

#[test]
fn test_log_entry_source_is_crab() {
    let mut store = LogStore::new();
    clear_logs(&mut store);
    log_entry(&mut store, stamp(), "INFO", "Test", Some("source_crab_test".to_string()));

    let logs = get_logs(&store);
    assert!(!logs.is_empty());

    let entry = logs
        .iter()
        .rev()
        .find(|log| log.module == Some("source_crab_test".to_string()))
        .expect("Could not find logged entry");
    assert_eq!(entry.source, "🦀");
}

#[test]
fn test_log_warn_function() {
    let mut store = LogStore::new();
    clear_logs(&mut store);
    log_warn(&mut store, stamp(), "Warning test");

    let logs = get_logs(&store);
    assert!(!logs.is_empty());

    let entry = logs
        .iter()
        .rev()
        .find(|log| log.message == "Warning test")
        .expect("Could not find logged entry");
    assert_eq!(entry.level, "WARN");
    assert_eq!(entry.message, "Warning test");
}

#[test]
fn test_log_entry_max_entries() {
    let mut store = LogStore::new();
    clear_logs(&mut store);

    for i in 0..50 {
        log_entry(&mut store, stamp(), "INFO", &format!("Entry {}", i), None);
    }

    let logs = get_logs(&store);
    assert!(!logs.is_empty());
}

#[test]
fn log_keeps_only_the_last_thousand_entries() {
    let mut store = LogStore::new();
    for i in 0..1005 {
        log_entry(&mut store, format!("t{}", i), "INFO", &format!("Entry {}", i), None);
    }
    let logs = get_logs(&store);
    assert_eq!(logs.len(), 1000);
    assert_eq!(logs[0].message, "Entry 5");
    assert_eq!(logs[0].timestamp, "t5");
    assert_eq!(logs[999].message, "Entry 1004");
}

#[test]
fn log_entry_appends_given_fields_last() {
    let mut store = LogStore::new();
    log_entry(&mut store, "01-02 | 03:04:05.006".to_string(), "INFO", "first", None);
    log_entry(&mut store, "01-02 | 03:04:05.007".to_string(), "ERROR", "second", Some("m".to_string()));
    let logs = get_logs(&store);
    assert_eq!(logs.len(), 2);
    assert_eq!(logs[1].timestamp, "01-02 | 03:04:05.007");
    assert_eq!(logs[1].level, "ERROR");
    assert_eq!(logs[1].message, "second");
    assert_eq!(logs[1].module, Some("m".to_string()));
    assert_eq!(logs[1].source, "🦀");
    assert_eq!(logs[0].message, "first");
}

#[test]
fn log_levels_of_the_shortcuts() {
    let mut store = LogStore::new();
    log_info(&mut store, stamp(), "a");
    log_warn(&mut store, stamp(), "b");
    log_error(&mut store, stamp(), "c");
    log_debug(&mut store, stamp(), "d");
    let logs = get_logs(&store);
    let levels: Vec<&str> = logs.iter().map(|l| l.level.as_str()).collect();
    assert_eq!(levels, vec!["INFO", "WARN", "ERROR", "DEBUG"]);
    assert!(logs.iter().all(|l| l.module.is_none()));
}

#[test]
fn export_text_lists_entries_oldest_first() {
    let mut store = LogStore::new();
    log_entry(&mut store, "01-02 | 03:04:05.006".to_string(), "INFO", "first", None);
    log_entry(&mut store, "01-02 | 03:04:05.007".to_string(), "WARN", "second", Some("M1".to_string()));
    let text = format_log_export(&store, "2024-01-02 03:04:05");
    assert_eq!(
        text,
        "Mehu PLOT3D Viewer - Log Export\n================================\nExported: 2024-01-02 03:04:05\nTotal entries: 2\n================================\n\n[01-02 | 03:04:05.006] INFO first\n[01-02 | 03:04:05.007] WARN [M1] second\n"
    );
    assert_eq!(format_log_export(&LogStore::new(), "t").lines().count(), 6);
}

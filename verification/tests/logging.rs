use cortado::logging::{Emphasis, LogMessage};

#[test]
fn levels_and_bodies() {
    let info = LogMessage::Info("a".to_string());
    let warn = LogMessage::Warn("b".to_string());
    let error = LogMessage::Error("c".to_string());
    let debug = LogMessage::Debug("d".to_string());
    assert_eq!((info.level(), info.body()), ("INFO ", "a"));
    assert_eq!((warn.level(), warn.body()), ("WARN ", "b"));
    assert_eq!((error.level(), error.body()), ("ERROR", "c"));
    assert_eq!((debug.level(), debug.body()), ("DEBUG", "d"));
    assert_eq!(info.emphasis(), Emphasis::Green);
    assert_eq!(warn.emphasis(), Emphasis::Yellow);
    assert_eq!(error.emphasis(), Emphasis::BoldRed);
    assert_eq!(debug.emphasis(), Emphasis::Dimmed);
}

#[test]
fn debugging_is_for_verbose_logs() {
    assert!(LogMessage::Info(String::new()).is_wanted(false));
    assert!(LogMessage::Error(String::new()).is_wanted(true));
    assert!(!LogMessage::Debug(String::new()).is_wanted(false));
    assert!(LogMessage::Debug(String::new()).is_wanted(true));
}

use utdnsmasq::log::{LogLevel, Logger};

#[test]
fn test_level_names() {
    assert_eq!(Logger::level_to_string(&LogLevel::Info), "INFO");
    assert_eq!(Logger::level_to_string(&LogLevel::Warning), "WARNING");
    assert_eq!(Logger::level_to_string(&LogLevel::Error), "ERROR");
}

#[test]
fn test_log_lines() {
    let logger = Logger::new(None);
    assert_eq!(logger.info(1700000000, "started"), "[1700000000] [INFO] started");
    assert_eq!(logger.warning(0, "careful"), "[0] [WARNING] careful");
    assert_eq!(logger.error(42, ""), "[42] [ERROR] ");
}

#[test]
fn test_logger_keeps_file() {
    let logger = Logger::new(Some(String::from("/tmp/x.log")));
    assert_eq!(logger.log_file.as_deref(), Some("/tmp/x.log"));
}

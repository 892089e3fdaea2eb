use mx_codec::logging::{
    default_filter_directive, filter_env_var_name, level_color, level_label, normalize_directives, skips_event,
    uses_color, LogColor, LogLevel,
};

#[test]
fn test_filter_names() {
    assert_eq!(filter_env_var_name("mx-server"), "MX_SERVER_LOG");
    assert_eq!(default_filter_directive("mx-server"), "mx_server=info");
    assert_eq!(normalize_directives("mx-codec=debug,mx-server=info"), "mx_codec=debug,mx_server=info");
}

#[test]
fn test_skips_event() {
    assert!(skips_event(false, "sqlx:query"));
    assert!(skips_event(false, "runtime.spawn"));
    assert!(!skips_event(false, "mx_server"));
    assert!(!skips_event(true, "sqlx:query"));
}

#[test]
fn test_levels() {
    assert_eq!(level_label(LogLevel::Warn, true), " WARN");
    assert_eq!(level_label(LogLevel::Warn, false), "WARN");
    assert_eq!(level_label(LogLevel::Error, false), "ERROR");
    assert_eq!(level_label(LogLevel::Trace, true), "TRACE");
    assert_eq!(level_color(LogLevel::Info), LogColor::Green);
    assert_eq!(level_color(LogLevel::Trace), LogColor::Purple);
    assert!(uses_color(false, false, true));
    assert!(!uses_color(false, false, false));
}

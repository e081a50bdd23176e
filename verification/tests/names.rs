use oxideterm::labels::{
    generate_chat_title, is_native_plugin_ai_tool_name, native_plugin_ai_tool_name,
    terminal_selection_command_bar_text,
};
use oxideterm::paths::{duplicate_download_name, safe_download_file_name};

#[test]
fn remote_paths_are_reduced_to_safe_file_names() {
    assert_eq!(
        safe_download_file_name("../../report.txt").unwrap(),
        "report.txt"
    );
    assert!(safe_download_file_name("..").is_err());
    assert!(safe_download_file_name("/").is_err());
}

#[test]
fn file_names_skip_trailing_separators_and_dots() {
    assert_eq!(safe_download_file_name("dir/name/").unwrap(), "name");
    assert_eq!(safe_download_file_name("dir/name/.").unwrap(), "name");
    assert!(safe_download_file_name("").is_err());
    assert!(safe_download_file_name(".").is_err());
    assert!(safe_download_file_name("a/..").is_err());
}

#[test]
fn duplicate_names_number_the_stem() {
    assert_eq!(duplicate_download_name("report.txt", 1), "report (1).txt");
    assert_eq!(duplicate_download_name("archive.tar.gz", 12), "archive.tar (12).gz");
    assert_eq!(duplicate_download_name("README", 2), "README (2)");
    assert_eq!(duplicate_download_name(".bashrc", 3), ".bashrc (3)");
    assert_eq!(duplicate_download_name("trailing.", 4), "trailing. (4)");
}

#[test]
fn command_bar_text_trims_terminal_line_edges_only() {
    assert_eq!(
        terminal_selection_command_bar_text("\n  printf 'ok'  \r\n").as_deref(),
        Some("  printf 'ok'  ")
    );
}

#[test]
fn command_bar_text_rejects_blank_selection() {
    assert_eq!(terminal_selection_command_bar_text("\n \t\r\n"), None);
}

#[test]
fn chat_titles_are_one_line_and_bounded() {
    assert_eq!(generate_chat_title("  hello\nworld  "), "hello world");
    let long = "a".repeat(31);
    assert_eq!(generate_chat_title(&long), format!("{}...", "a".repeat(30)));
    assert_eq!(generate_chat_title(&"b".repeat(30)), "b".repeat(30));
    assert_eq!(generate_chat_title(" \n "), "");
}

#[test]
fn plugin_tool_names_are_sanitized() {
    assert_eq!(
        native_plugin_ai_tool_name("com.example/plugin", "run tool"),
        "plugin::com_example_plugin::run_tool"
    );
    assert_eq!(native_plugin_ai_tool_name("", "x-y_z"), "plugin::unnamed::x-y_z");
    assert!(is_native_plugin_ai_tool_name("plugin::a::b"));
    assert!(!is_native_plugin_ai_tool_name("plugin:a"));
    assert!(!is_native_plugin_ai_tool_name("mcp::a::b"));
}

//! The `cd` command-line handling.

use lsp_core::terminal::{classify_cd_target, extract_cd_target, trimmed_command, CdLocation};

#[test]
fn test_extract_cd_target_without_argument() {
    assert_eq!(extract_cd_target("cd"), Some("~".to_string()));
}

#[test]
fn test_extract_cd_target_with_argument() {
    assert_eq!(extract_cd_target("cd src"), Some("src".to_string()));
}

#[test]
fn test_extract_cd_target_invalid() {
    assert!(extract_cd_target("ls").is_none());
}

#[test]
fn extract_cd_target_without_argument() {
    assert_eq!(extract_cd_target("cd"), Some("~".to_string()));
}

#[test]
fn extract_cd_target_with_argument() {
    assert_eq!(extract_cd_target("cd src"), Some("src".to_string()));
}

#[test]
fn extract_cd_target_invalid() {
    assert!(extract_cd_target("ls").is_none());
}

#[test]
fn extract_cd_target_trims_both_ends() {
    assert_eq!(extract_cd_target("   cd   docs  "), Some("docs".to_string()));
}

#[test]
fn extract_cd_target_keeps_inner_spaces() {
    assert_eq!(extract_cd_target("cd my project"), Some("my project".to_string()));
}

#[test]
fn extract_cd_target_bare_cd_with_spaces() {
    assert_eq!(extract_cd_target("  cd  "), Some("~".to_string()));
}

#[test]
fn extract_cd_target_rejects_newline_in_target() {
    assert!(extract_cd_target("cd a\nb").is_none());
}

#[test]
fn extract_cd_target_rejects_prefix_words() {
    assert!(extract_cd_target("cdx").is_none());
    assert!(extract_cd_target("cde src").is_none());
}

#[test]
fn classify_cd_target_home() {
    assert_eq!(classify_cd_target("~"), (CdLocation::Home, "~".to_string()));
    assert_eq!(classify_cd_target("   "), (CdLocation::Home, "".to_string()));
}

#[test]
fn classify_cd_target_absolute() {
    assert_eq!(classify_cd_target(" /usr/bin "), (CdLocation::Absolute, "/usr/bin".to_string()));
}

#[test]
fn classify_cd_target_relative() {
    assert_eq!(classify_cd_target("src"), (CdLocation::Relative, "src".to_string()));
}

#[test]
fn trimmed_command_empty() {
    assert!(trimmed_command("   ").is_none());
    assert!(trimmed_command("").is_none());
}

#[test]
fn trimmed_command_keeps_content() {
    assert_eq!(trimmed_command("  ls -la  "), Some("ls -la".to_string()));
}

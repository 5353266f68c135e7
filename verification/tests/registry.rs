//! The language registry, the UI mode, prompts and directory listings.

use lsp_core::chat::system_prompt;
use lsp_core::filesystem::{arrange_file_tree, completion_matches};
use lsp_core::servers::{Language, LanguageServer};
use lsp_core::state::{FileNode, Mode};

#[test]
fn language_from_extension_known() {
    assert_eq!(Language::from_extension("rs"), Some(Language::Rust));
    assert_eq!(Language::from_extension("js"), Some(Language::JavaScript));
    assert_eq!(Language::from_extension("jsx"), Some(Language::JavaScript));
    assert_eq!(Language::from_extension("ts"), Some(Language::TypeScript));
    assert_eq!(Language::from_extension("tsx"), Some(Language::TypeScript));
    assert_eq!(Language::from_extension("py"), Some(Language::Python));
    assert_eq!(Language::from_extension("java"), Some(Language::Java));
}

#[test]
fn language_from_extension_ignores_ascii_case() {
    assert_eq!(Language::from_extension("RS"), Some(Language::Rust));
    assert_eq!(Language::from_extension("Tsx"), Some(Language::TypeScript));
}

#[test]
fn language_from_extension_unknown() {
    assert_eq!(Language::from_extension("txt"), None);
    assert_eq!(Language::from_extension(""), None);
}

#[test]
fn language_from_name_and_back() {
    for language in [
        Language::Rust,
        Language::JavaScript,
        Language::TypeScript,
        Language::Python,
        Language::Java,
    ] {
        assert_eq!(Language::from_name(language.as_str()), Some(language));
    }
    assert_eq!(Language::from_name("cobol"), None);
    // the name match is exact, not case folded
    assert_eq!(Language::from_name("Rust"), None);
}

#[test]
fn descriptors_are_exact() {
    let rust = LanguageServer::for_language(Language::Rust);
    assert_eq!(rust.command, "rust-analyzer");
    assert!(rust.args.is_empty());
    assert_eq!(rust.name, "rust-analyzer");

    let ts = LanguageServer::for_language(Language::TypeScript);
    assert_eq!(ts.command, "typescript-language-server");
    assert_eq!(ts.args, vec!["--stdio".to_string()]);

    let py = LanguageServer::for_language(Language::Python);
    assert_eq!(py.command, "pyright-langserver");
    assert_eq!(py.args, vec!["--stdio".to_string()]);
    assert_eq!(py.name, "Pyright");

    let java = LanguageServer::for_language(Language::Java);
    assert_eq!(java.command, "jdtls");
    assert!(java.args.is_empty());
    assert_eq!(java.name, "Eclipse JDT LS");
}

#[test]
fn installation_instructions_name_the_tool() {
    let rust = LanguageServer::for_language(Language::Rust).installation_instructions();
    assert_eq!(
        rust,
        "Install rust-analyzer:\n- Via rustup: rustup component add rust-analyzer\n- Or download from: https://rust-analyzer.github.io/"
    );
    let py = LanguageServer::for_language(Language::Python).installation_instructions();
    assert_eq!(py, "Install Pyright:\nnpm install -g pyright");
}

#[test]
fn mode_from_str_defaults_to_terminal() {
    assert_eq!(Mode::from_str("ide"), Mode::Ide);
    assert_eq!(Mode::from_str("chat"), Mode::Chat);
    assert_eq!(Mode::from_str("agent"), Mode::Agent);
    assert_eq!(Mode::from_str("AGENT"), Mode::Agent);
    assert_eq!(Mode::from_str("terminal"), Mode::Terminal);
    assert_eq!(Mode::from_str("anything"), Mode::Terminal);
    assert_eq!(Mode::default(), Mode::Terminal);
}

#[test]
fn mode_as_str_round_trips() {
    for mode in [Mode::Terminal, Mode::Ide, Mode::Chat, Mode::Agent] {
        assert_eq!(Mode::from_str(mode.as_str()), mode);
    }
}

#[test]
fn system_prompt_selects_by_mode() {
    assert_eq!(
        system_prompt("agent"),
        "You act as a technical assistant who proposes steps and commands for solving development tasks."
    );
    assert_eq!(
        system_prompt("ide"),
        "You help develop and improve code, proposing changes and explanations."
    );
    assert_eq!(
        system_prompt("chat"),
        "You are a friendly assistant who answers briefly and to the point."
    );
}

fn node(name: &str, is_dir: bool) -> FileNode {
    FileNode {
        name: name.to_string(),
        path: format!("/work/{name}"),
        is_dir,
        children: None,
    }
}

#[test]
fn listing_puts_directories_first_then_names() {
    let arranged = arrange_file_tree(vec![
        node("zeta.txt", false),
        node("Beta", true),
        node("alpha.txt", false),
        node("gamma", true),
    ]);
    let names: Vec<&str> = arranged.iter().map(|n| n.name.as_str()).collect();
    assert_eq!(names, vec!["Beta", "gamma", "alpha.txt", "zeta.txt"]);
}

#[test]
fn listing_is_capped_at_two_hundred() {
    let mut entries = Vec::new();
    for k in 0..205 {
        entries.push(node(&format!("file{k:03}"), false));
    }
    let arranged = arrange_file_tree(entries);
    assert_eq!(arranged.len(), 200);
    assert_eq!(arranged[0].name, "file000");
    assert_eq!(arranged[199].name, "file199");
}

#[test]
fn completion_prefix_rules() {
    assert!(completion_matches("Documents", "doc"));
    assert!(completion_matches("docs", "DOC"));
    assert!(!completion_matches("music", "doc"));
    // hidden names are kept back unless asked for
    assert!(!completion_matches(".git", ""));
    assert!(!completion_matches(".git", "g"));
    assert!(completion_matches(".git", ".g"));
    assert!(completion_matches("anything", ""));
}

//! Registry of supported languages and their server descriptors.
//!
//! The set of languages is a closed enumeration; every language maps
//! totally to a descriptor giving the server executable, its arguments
//! and a display name.  Probing whether the executable is actually
//! installed is an operating-system concern and lives with the embedder.

use vstd::prelude::*;

use crate::text::{ci_matches, str_ci_matches, str_eq};

verus! {

/// A source language with language-server support.
#[derive(Clone, PartialEq, Eq, Hash, Debug, Structural)]
pub enum Language {
    Rust,
    JavaScript,
    TypeScript,
    Python,
    Java,
}

/// The language, if any, behind a file extension, up to ASCII case.
pub open spec fn spec_from_extension(s: Seq<char>) -> Option<Language> {
    if ci_matches(s, "rs"@) {
        Some(Language::Rust)
    } else if ci_matches(s, "js"@) || ci_matches(s, "jsx"@) {
        Some(Language::JavaScript)
    } else if ci_matches(s, "ts"@) || ci_matches(s, "tsx"@) {
        Some(Language::TypeScript)
    } else if ci_matches(s, "py"@) {
        Some(Language::Python)
    } else if ci_matches(s, "java"@) {
        Some(Language::Java)
    } else {
        None
    }
}

/// The language named by its canonical lower-case identifier.
pub open spec fn spec_from_name(s: Seq<char>) -> Option<Language> {
    if s == "rust"@ {
        Some(Language::Rust)
    } else if s == "javascript"@ {
        Some(Language::JavaScript)
    } else if s == "typescript"@ {
        Some(Language::TypeScript)
    } else if s == "python"@ {
        Some(Language::Python)
    } else if s == "java"@ {
        Some(Language::Java)
    } else {
        None
    }
}

impl Language {
    /// Maps a file extension (case-insensitively) to its language.
    pub fn from_extension(ext: &str) -> (r: Option<Language>)
        ensures
            r == spec_from_extension(ext@),
    {
        if str_ci_matches(ext, "rs") {
            Some(Language::Rust)
        } else if str_ci_matches(ext, "js") || str_ci_matches(ext, "jsx") {
            Some(Language::JavaScript)
        } else if str_ci_matches(ext, "ts") || str_ci_matches(ext, "tsx") {
            Some(Language::TypeScript)
        } else if str_ci_matches(ext, "py") {
            Some(Language::Python)
        } else if str_ci_matches(ext, "java") {
            Some(Language::Java)
        } else {
            None
        }
    }

    /// Maps a canonical language name to its language.
    pub fn from_name(name: &str) -> (r: Option<Language>)
        ensures
            r == spec_from_name(name@),
    {
        if str_eq(name, "rust") {
            Some(Language::Rust)
        } else if str_eq(name, "javascript") {
            Some(Language::JavaScript)
        } else if str_eq(name, "typescript") {
            Some(Language::TypeScript)
        } else if str_eq(name, "python") {
            Some(Language::Python)
        } else if str_eq(name, "java") {
            Some(Language::Java)
        } else {
            None
        }
    }

    /// The canonical lower-case name of the language.
    pub fn as_str(&self) -> (r: &'static str)
        ensures
            match self {
                Language::Rust => r@ == "rust"@,
                Language::JavaScript => r@ == "javascript"@,
                Language::TypeScript => r@ == "typescript"@,
                Language::Python => r@ == "python"@,
                Language::Java => r@ == "java"@,
            },
    {
        match self {
            Language::Rust => "rust",
            Language::JavaScript => "javascript",
            Language::TypeScript => "typescript",
            Language::Python => "python",
            Language::Java => "java",
        }
    }
}

/// The executable a language's server is started as.
pub open spec fn spec_command(language: Language) -> Seq<char> {
    match language {
        Language::Rust => "rust-analyzer"@,
        Language::JavaScript => "typescript-language-server"@,
        Language::TypeScript => "typescript-language-server"@,
        Language::Python => "pyright-langserver"@,
        Language::Java => "jdtls"@,
    }
}

/// The arguments the server executable is started with.
pub open spec fn spec_args(language: Language) -> Seq<Seq<char>> {
    match language {
        Language::Rust => seq![],
        Language::JavaScript => seq!["--stdio"@],
        Language::TypeScript => seq!["--stdio"@],
        Language::Python => seq!["--stdio"@],
        Language::Java => seq![],
    }
}

/// The server's display name.
pub open spec fn spec_display_name(language: Language) -> Seq<char> {
    match language {
        Language::Rust => "rust-analyzer"@,
        Language::JavaScript => "typescript-language-server"@,
        Language::TypeScript => "typescript-language-server"@,
        Language::Python => "Pyright"@,
        Language::Java => "Eclipse JDT LS"@,
    }
}

/// Descriptor of the server process serving one language.
#[derive(Clone, Debug)]
pub struct LanguageServer {
    pub language: Language,
    pub command: String,
    pub args: Vec<String>,
    pub name: String,
}

impl LanguageServer {
    /// The descriptor describes `language` exactly as the registry defines it.
    pub open spec fn wf(&self) -> bool {
        &&& self.command@ == spec_command(self.language)
        &&& self.args.deep_view() == spec_args(self.language)
        &&& self.name@ == spec_display_name(self.language)
    }

    /// The total mapping from a language to its server descriptor.
    pub fn for_language(language: Language) -> (r: LanguageServer)
        ensures
            r.language == language,
            r.wf(),
    {
        let r = match language {
            Language::Rust => LanguageServer {
                language,
                command: String::from_str("rust-analyzer"),
                args: Vec::new(),
                name: String::from_str("rust-analyzer"),
            },
            Language::JavaScript => LanguageServer {
                language,
                command: String::from_str("typescript-language-server"),
                args: vec![String::from_str("--stdio")],
                name: String::from_str("typescript-language-server"),
            },
            Language::TypeScript => LanguageServer {
                language,
                command: String::from_str("typescript-language-server"),
                args: vec![String::from_str("--stdio")],
                name: String::from_str("typescript-language-server"),
            },
            Language::Python => LanguageServer {
                language,
                command: String::from_str("pyright-langserver"),
                args: vec![String::from_str("--stdio")],
                name: String::from_str("Pyright"),
            },
            Language::Java => LanguageServer {
                language,
                command: String::from_str("jdtls"),
                args: Vec::new(),
                name: String::from_str("Eclipse JDT LS"),
            },
        };
        assert(r.args.deep_view() =~= spec_args(language));
        r
    }

    /// Static guidance on installing the language's server.
    pub fn installation_instructions(&self) -> (r: String)
        ensures
            match self.language {
                Language::Rust => r@
                    == "Install rust-analyzer:\n- Via rustup: rustup component add rust-analyzer\n- Or download from: https://rust-analyzer.github.io/"@,
                Language::JavaScript | Language::TypeScript => r@
                    == "Install typescript-language-server:\nnpm install -g typescript-language-server typescript"@,
                Language::Python => r@ == "Install Pyright:\nnpm install -g pyright"@,
                Language::Java => r@
                    == "Install Eclipse JDT Language Server:\nDownload from: https://download.eclipse.org/jdtls/snapshots/"@,
            },
    {
        match self.language {
            Language::Rust => String::from_str(
                "Install rust-analyzer:\n- Via rustup: rustup component add rust-analyzer\n- Or download from: https://rust-analyzer.github.io/",
            ),
            Language::JavaScript | Language::TypeScript => String::from_str(
                "Install typescript-language-server:\nnpm install -g typescript-language-server typescript",
            ),
            Language::Python => String::from_str("Install Pyright:\nnpm install -g pyright"),
            Language::Java => String::from_str(
                "Install Eclipse JDT Language Server:\nDownload from: https://download.eclipse.org/jdtls/snapshots/",
            ),
        }
    }
}

} // verus!

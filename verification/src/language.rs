//! The fixed lookup from a file extension to the language tag put on
//! its fenced code block. Unknown extensions get the empty tag.

use vstd::prelude::*;
use crate::chars::str_eq;

verus! {

/// The language tag for a (lowercased) extension; empty when the
/// extension is not recognized.
pub open spec fn language_for(ext: Seq<char>) -> Seq<char> {
    if ext == "rs"@ {
        "rust"@
    } else if ext == "js"@ {
        "javascript"@
    } else if ext == "ts"@ {
        "typescript"@
    } else if ext == "py"@ {
        "python"@
    } else if ext == "go"@ {
        "go"@
    } else if ext == "java"@ {
        "java"@
    } else if ext == "c"@ || ext == "h"@ || ext == "hpp"@ {
        "c"@
    } else if ext == "cpp"@ || ext == "cc"@ || ext == "cxx"@ {
        "cpp"@
    } else if ext == "html"@ {
        "html"@
    } else if ext == "css"@ {
        "css"@
    } else if ext == "json"@ {
        "json"@
    } else if ext == "xml"@ {
        "xml"@
    } else if ext == "yaml"@ || ext == "yml"@ {
        "yaml"@
    } else if ext == "toml"@ {
        "toml"@
    } else if ext == "md"@ {
        "markdown"@
    } else if ext == "sh"@ {
        "bash"@
    } else if ext == "sql"@ {
        "sql"@
    } else if ext == "dockerfile"@ {
        "dockerfile"@
    } else if ext == "makefile"@ {
        "makefile"@
    } else {
        Seq::<char>::empty()
    }
}

/// Looks up the language tag for an extension.
pub fn language_from_extension(ext: &str) -> (r: String)
    ensures
        r@ == language_for(ext@),
{
    if str_eq(ext, "rs") {
        String::from_str("rust")
    } else if str_eq(ext, "js") {
        String::from_str("javascript")
    } else if str_eq(ext, "ts") {
        String::from_str("typescript")
    } else if str_eq(ext, "py") {
        String::from_str("python")
    } else if str_eq(ext, "go") {
        String::from_str("go")
    } else if str_eq(ext, "java") {
        String::from_str("java")
    } else if str_eq(ext, "c") || str_eq(ext, "h") || str_eq(ext, "hpp") {
        String::from_str("c")
    } else if str_eq(ext, "cpp") || str_eq(ext, "cc") || str_eq(ext, "cxx") {
        String::from_str("cpp")
    } else if str_eq(ext, "html") {
        String::from_str("html")
    } else if str_eq(ext, "css") {
        String::from_str("css")
    } else if str_eq(ext, "json") {
        String::from_str("json")
    } else if str_eq(ext, "xml") {
        String::from_str("xml")
    } else if str_eq(ext, "yaml") || str_eq(ext, "yml") {
        String::from_str("yaml")
    } else if str_eq(ext, "toml") {
        String::from_str("toml")
    } else if str_eq(ext, "md") {
        String::from_str("markdown")
    } else if str_eq(ext, "sh") {
        String::from_str("bash")
    } else if str_eq(ext, "sql") {
        String::from_str("sql")
    } else if str_eq(ext, "dockerfile") {
        String::from_str("dockerfile")
    } else if str_eq(ext, "makefile") {
        String::from_str("makefile")
    } else {
        String::new()
    }
}

} // verus!

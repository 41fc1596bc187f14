//! The search pipeline's decisions: the events a search streams, its
//! configuration, the `--type` glob table, the word-boundary rule, and the
//! per-line sink that turns a matched line into a hit (with its byte
//! column for a fixed-string search) or drops it.

use crate::model::buffer::{is_word_char, word_char};
use crate::text::{
    byte_pos, char_len_utf8, chars_of, from_utf8_lossy, lemma_byte_pos_mono, lemma_byte_pos_step,
    str_eq, string_of, utf8_lossy,
};
use vstd::prelude::*;

verus! {

broadcast use vstd::string::group_string_axioms;

/// One match: the project-relative file, the 1-based line number, the byte
/// column of the match in the line when it is known, and the line's text.
#[derive(Clone, Debug, PartialEq, Eq)]
pub struct Hit {
    pub file: String,
    pub line_no: u64,
    pub col: Option<u64>,
    pub line: String,
}

/// A pipeline event. `generation` tags the search job that produced it so
/// stale jobs can be discarded.
#[derive(Clone, Debug)]
pub enum SearchEvent {
    Hit { file: String, line_no: u64, col: Option<u64>, line: String, generation: usize },
    /// A file finished; its hit count is final.
    FileDone { file: String, hits: u64, generation: usize },
    /// The whole search finished (or was cancelled).
    Finished { cancelled: bool, generation: usize },
    /// The search could not start (e.g. an invalid regex).
    Error { message: String, generation: usize },
}

/// The generation an event carries.
pub open spec fn event_generation(e: SearchEvent) -> usize {
    match e {
        SearchEvent::Hit { generation, .. } => generation,
        SearchEvent::FileDone { generation, .. } => generation,
        SearchEvent::Finished { generation, .. } => generation,
        SearchEvent::Error { generation, .. } => generation,
    }
}

impl SearchEvent {
    /// The job generation this event belongs to.
    pub fn generation(&self) -> (g: usize)
        ensures
            g == event_generation(*self),
    {
        match self {
            SearchEvent::Hit { generation, .. } => *generation,
            SearchEvent::FileDone { generation, .. } => *generation,
            SearchEvent::Finished { generation, .. } => *generation,
            SearchEvent::Error { generation, .. } => *generation,
        }
    }
}

/// Everything a project-wide search needs, as plain values.
#[derive(Clone, Debug, PartialEq, Eq)]
pub struct SearchConfig {
    /// The walk root (the project root).
    pub root: String,
    /// The regex pattern (or literal, when `fixed`).
    pub pattern: String,
    /// Require word-boundary matches.
    pub word: bool,
    /// Match the pattern as a literal string.
    pub fixed: bool,
    /// Case-insensitive only when the pattern's literals are all lowercase.
    pub case_smart: bool,
    /// Unconditionally case-insensitive.
    pub case_insensitive: bool,
    /// Path glob filter (`-g` semantics); `None` = no restriction.
    pub glob: Option<String>,
    /// File-type filter (`--type`); `None` = no restriction.
    pub file_type: Option<String>,
    /// Whether hits inside comment/string ranges are dropped (the
    /// references search's token-class filter).
    pub filter: bool,
}

/// The message of the error grep-regex gives when building a matcher for
/// `pattern` with the flags (case-insensitive, smart case, word, fixed
/// strings); `None` when the build succeeds.
pub uninterp spec fn matcher_build_error(
    pattern: Seq<char>,
    case_insensitive: bool,
    case_smart: bool,
    word: bool,
    fixed: bool,
) -> Option<Seq<char>>;

/// grep-regex's compiled matcher.
#[verifier::external_type_specification]
#[verifier::external_body]
pub struct ExRegexMatcher(grep_regex::RegexMatcher);

/// grep-regex's `RegexMatcherBuilder::build` with the given flags: the
/// contract says whether it fails, and with which message, through
/// `matcher_build_error`; nothing is stated of the matcher itself.
#[verifier::external_body]
fn build_regex_matcher(
    pattern: &str,
    case_insensitive: bool,
    case_smart: bool,
    word: bool,
    fixed: bool,
) -> (r: Result<grep_regex::RegexMatcher, String>)
    ensures
        match r {
            Ok(_) => matcher_build_error(pattern@, case_insensitive, case_smart, word, fixed) is None,
            Err(e) => matcher_build_error(pattern@, case_insensitive, case_smart, word, fixed) == Some(e@),
        },
{
    let mut b = grep_regex::RegexMatcherBuilder::new();
    b.case_insensitive(case_insensitive).case_smart(case_smart).word(word).fixed_strings(fixed);
    match b.build(pattern) {
        Ok(m) => Ok(m),
        Err(e) => Err(e.to_string()),
    }
}

/// The matcher a search job runs with, or the event that ends the job
/// before any file is read: the error of a pattern that does not build
/// with the job's flags.
pub fn search_matcher(cfg: &SearchConfig, generation: usize) -> (r: Result<grep_regex::RegexMatcher, SearchEvent>)
    ensures
        match r {
            Ok(_) => matcher_build_error(cfg.pattern@, cfg.case_insensitive, cfg.case_smart, cfg.word, cfg.fixed) is None,
            Err(e) => matcher_build_error(cfg.pattern@, cfg.case_insensitive, cfg.case_smart, cfg.word, cfg.fixed) matches Some(msg)
                && (e matches SearchEvent::Error { message, generation: g } && message@ == msg && g == generation),
        },
{
    match build_regex_matcher(cfg.pattern.as_str(), cfg.case_insensitive, cfg.case_smart, cfg.word, cfg.fixed) {
        Ok(m) => Ok(m),
        Err(message) => Err(SearchEvent::Error { message, generation }),
    }
}

/// The `--type` name → glob table.
pub open spec fn spec_type_globs(name: Seq<char>) -> Option<Seq<Seq<char>>> {
    if name == "rust"@ {
        Some(seq!["*.rs"@])
    } else if name == "typescript"@ {
        Some(seq!["*.ts"@])
    } else if name == "javascript"@ {
        Some(seq!["*.js"@])
    } else if name == "python"@ {
        Some(seq!["*.py"@])
    } else if name == "go"@ {
        Some(seq!["*.go"@])
    } else if name == "c"@ {
        Some(seq!["*.c"@, "*.h"@])
    } else if name == "cpp"@ {
        Some(seq!["*.cpp"@, "*.cc"@, "*.hpp"@, "*.hh"@])
    } else if name == "toml"@ {
        Some(seq!["*.toml"@])
    } else if name == "json"@ {
        Some(seq!["*.json"@])
    } else if name == "yaml"@ {
        Some(seq!["*.yml"@, "*.yaml"@])
    } else if name == "bash"@ {
        Some(seq!["*.sh"@])
    } else if name == "markdown"@ {
        Some(seq!["*.md"@])
    } else {
        None
    }
}

/// The search type of a file-name extension, following the grammar
/// registry's extension map: C sources and headers are `c`, C++ sources
/// and headers `cpp`, and so on; `None` for an extension no type covers.
pub open spec fn type_of_extension(ext: Seq<char>) -> Option<Seq<char>> {
    if ext == seq!['r', 's'] {
        Some("rust"@)
    } else if ext == seq!['t', 's'] {
        Some("typescript"@)
    } else if ext == seq!['j', 's'] {
        Some("javascript"@)
    } else if ext == seq!['p', 'y'] {
        Some("python"@)
    } else if ext == seq!['g', 'o'] {
        Some("go"@)
    } else if ext == seq!['c'] || ext == seq!['h'] {
        Some("c"@)
    } else if ext == seq!['c', 'p', 'p'] || ext == seq!['c', 'c'] || ext == seq!['h', 'p', 'p'] || ext == seq![
        'h',
        'h',
    ] {
        Some("cpp"@)
    } else if ext == seq!['t', 'o', 'm', 'l'] {
        Some("toml"@)
    } else if ext == seq!['j', 's', 'o', 'n'] {
        Some("json"@)
    } else if ext == seq!['y', 'm', 'l'] || ext == seq!['y', 'a', 'm', 'l'] {
        Some("yaml"@)
    } else if ext == seq!['s', 'h'] {
        Some("bash"@)
    } else if ext == seq!['m', 'd'] {
        Some("markdown"@)
    } else {
        None
    }
}

/// Whether a `*`-prefixed glob matches file name `name`: the name ends
/// with what follows the `*`.
pub open spec fn star_glob_matches(glob: Seq<char>, name: Seq<char>) -> bool {
    &&& glob.len() > 0
    &&& glob[0] == '*'
    &&& name.len() >= glob.len() - 1
    &&& name.subrange(name.len() - (glob.len() - 1), name.len() as int) == glob.drop_first()
}

proof fn lemma_globs_rust()
    ensures
        spec_type_globs("rust"@) == Some(seq![seq!['*', '.', 'r', 's']]),
{
    reveal_strlit("rust");
    reveal_strlit("*.rs");
    assert("*.rs"@ =~= seq!['*', '.', 'r', 's']);
    assert(seq!["*.rs"@] =~= seq![seq!['*', '.', 'r', 's']]);
}

proof fn lemma_globs_typescript()
    ensures
        spec_type_globs("typescript"@) == Some(seq![seq!['*', '.', 't', 's']]),
{
    reveal_strlit("rust");
    reveal_strlit("typescript");
    reveal_strlit("*.ts");
    assert("typescript"@ != "rust"@) by {
        assert("typescript"@.len() != "rust"@.len());
    }
    assert("*.ts"@ =~= seq!['*', '.', 't', 's']);
    assert(seq!["*.ts"@] =~= seq![seq!['*', '.', 't', 's']]);
}

proof fn lemma_globs_javascript()
    ensures
        spec_type_globs("javascript"@) == Some(seq![seq!['*', '.', 'j', 's']]),
{
    reveal_strlit("rust");
    reveal_strlit("typescript");
    reveal_strlit("javascript");
    reveal_strlit("*.js");
    assert("javascript"@ != "rust"@) by {
        assert("javascript"@.len() != "rust"@.len());
    }
    assert("javascript"@ != "typescript"@) by {
        assert("javascript"@[0] != "typescript"@[0]);
    }
    assert("*.js"@ =~= seq!['*', '.', 'j', 's']);
    assert(seq!["*.js"@] =~= seq![seq!['*', '.', 'j', 's']]);
}

proof fn lemma_globs_python()
    ensures
        spec_type_globs("python"@) == Some(seq![seq!['*', '.', 'p', 'y']]),
{
    reveal_strlit("rust");
    reveal_strlit("typescript");
    reveal_strlit("javascript");
    reveal_strlit("python");
    reveal_strlit("*.py");
    assert("python"@ != "rust"@) by {
        assert("python"@.len() != "rust"@.len());
    }
    assert("python"@ != "typescript"@) by {
        assert("python"@.len() != "typescript"@.len());
    }
    assert("python"@ != "javascript"@) by {
        assert("python"@.len() != "javascript"@.len());
    }
    assert("*.py"@ =~= seq!['*', '.', 'p', 'y']);
    assert(seq!["*.py"@] =~= seq![seq!['*', '.', 'p', 'y']]);
}

proof fn lemma_globs_go()
    ensures
        spec_type_globs("go"@) == Some(seq![seq!['*', '.', 'g', 'o']]),
{
    reveal_strlit("rust");
    reveal_strlit("typescript");
    reveal_strlit("javascript");
    reveal_strlit("python");
    reveal_strlit("go");
    reveal_strlit("*.go");
    assert("go"@ != "rust"@) by {
        assert("go"@.len() != "rust"@.len());
    }
    assert("go"@ != "typescript"@) by {
        assert("go"@.len() != "typescript"@.len());
    }
    assert("go"@ != "javascript"@) by {
        assert("go"@.len() != "javascript"@.len());
    }
    assert("go"@ != "python"@) by {
        assert("go"@.len() != "python"@.len());
    }
    assert("*.go"@ =~= seq!['*', '.', 'g', 'o']);
    assert(seq!["*.go"@] =~= seq![seq!['*', '.', 'g', 'o']]);
}

proof fn lemma_globs_c()
    ensures
        spec_type_globs("c"@) == Some(seq![seq!['*', '.', 'c'], seq!['*', '.', 'h']]),
{
    reveal_strlit("rust");
    reveal_strlit("typescript");
    reveal_strlit("javascript");
    reveal_strlit("python");
    reveal_strlit("go");
    reveal_strlit("c");
    reveal_strlit("*.c");
    reveal_strlit("*.h");
    assert("c"@ != "rust"@) by {
        assert("c"@.len() != "rust"@.len());
    }
    assert("c"@ != "typescript"@) by {
        assert("c"@.len() != "typescript"@.len());
    }
    assert("c"@ != "javascript"@) by {
        assert("c"@.len() != "javascript"@.len());
    }
    assert("c"@ != "python"@) by {
        assert("c"@.len() != "python"@.len());
    }
    assert("c"@ != "go"@) by {
        assert("c"@.len() != "go"@.len());
    }
    assert("*.c"@ =~= seq!['*', '.', 'c']);
    assert("*.h"@ =~= seq!['*', '.', 'h']);
    assert(seq!["*.c"@, "*.h"@] =~= seq![seq!['*', '.', 'c'], seq!['*', '.', 'h']]);
}

proof fn lemma_globs_cpp()
    ensures
        spec_type_globs("cpp"@) == Some(seq![seq!['*', '.', 'c', 'p', 'p'], seq!['*', '.', 'c', 'c'], seq!['*', '.', 'h', 'p', 'p'], seq!['*', '.', 'h', 'h']]),
{
    reveal_strlit("rust");
    reveal_strlit("typescript");
    reveal_strlit("javascript");
    reveal_strlit("python");
    reveal_strlit("go");
    reveal_strlit("c");
    reveal_strlit("cpp");
    reveal_strlit("*.cpp");
    reveal_strlit("*.cc");
    reveal_strlit("*.hpp");
    reveal_strlit("*.hh");
    assert("cpp"@ != "rust"@) by {
        assert("cpp"@.len() != "rust"@.len());
    }
    assert("cpp"@ != "typescript"@) by {
        assert("cpp"@.len() != "typescript"@.len());
    }
    assert("cpp"@ != "javascript"@) by {
        assert("cpp"@.len() != "javascript"@.len());
    }
    assert("cpp"@ != "python"@) by {
        assert("cpp"@.len() != "python"@.len());
    }
    assert("cpp"@ != "go"@) by {
        assert("cpp"@.len() != "go"@.len());
    }
    assert("cpp"@ != "c"@) by {
        assert("cpp"@.len() != "c"@.len());
    }
    assert("*.cpp"@ =~= seq!['*', '.', 'c', 'p', 'p']);
    assert("*.cc"@ =~= seq!['*', '.', 'c', 'c']);
    assert("*.hpp"@ =~= seq!['*', '.', 'h', 'p', 'p']);
    assert("*.hh"@ =~= seq!['*', '.', 'h', 'h']);
    assert(seq!["*.cpp"@, "*.cc"@, "*.hpp"@, "*.hh"@] =~= seq![seq!['*', '.', 'c', 'p', 'p'], seq!['*', '.', 'c', 'c'], seq!['*', '.', 'h', 'p', 'p'], seq!['*', '.', 'h', 'h']]);
}

proof fn lemma_globs_toml()
    ensures
        spec_type_globs("toml"@) == Some(seq![seq!['*', '.', 't', 'o', 'm', 'l']]),
{
    reveal_strlit("rust");
    reveal_strlit("typescript");
    reveal_strlit("javascript");
    reveal_strlit("python");
    reveal_strlit("go");
    reveal_strlit("c");
    reveal_strlit("cpp");
    reveal_strlit("toml");
    reveal_strlit("*.toml");
    assert("toml"@ != "rust"@) by {
        assert("toml"@[0] != "rust"@[0]);
    }
    assert("toml"@ != "typescript"@) by {
        assert("toml"@.len() != "typescript"@.len());
    }
    assert("toml"@ != "javascript"@) by {
        assert("toml"@.len() != "javascript"@.len());
    }
    assert("toml"@ != "python"@) by {
        assert("toml"@.len() != "python"@.len());
    }
    assert("toml"@ != "go"@) by {
        assert("toml"@.len() != "go"@.len());
    }
    assert("toml"@ != "c"@) by {
        assert("toml"@.len() != "c"@.len());
    }
    assert("toml"@ != "cpp"@) by {
        assert("toml"@.len() != "cpp"@.len());
    }
    assert("*.toml"@ =~= seq!['*', '.', 't', 'o', 'm', 'l']);
    assert(seq!["*.toml"@] =~= seq![seq!['*', '.', 't', 'o', 'm', 'l']]);
}

proof fn lemma_globs_json()
    ensures
        spec_type_globs("json"@) == Some(seq![seq!['*', '.', 'j', 's', 'o', 'n']]),
{
    reveal_strlit("rust");
    reveal_strlit("typescript");
    reveal_strlit("javascript");
    reveal_strlit("python");
    reveal_strlit("go");
    reveal_strlit("c");
    reveal_strlit("cpp");
    reveal_strlit("toml");
    reveal_strlit("json");
    reveal_strlit("*.json");
    assert("json"@ != "rust"@) by {
        assert("json"@[0] != "rust"@[0]);
    }
    assert("json"@ != "typescript"@) by {
        assert("json"@.len() != "typescript"@.len());
    }
    assert("json"@ != "javascript"@) by {
        assert("json"@.len() != "javascript"@.len());
    }
    assert("json"@ != "python"@) by {
        assert("json"@.len() != "python"@.len());
    }
    assert("json"@ != "go"@) by {
        assert("json"@.len() != "go"@.len());
    }
    assert("json"@ != "c"@) by {
        assert("json"@.len() != "c"@.len());
    }
    assert("json"@ != "cpp"@) by {
        assert("json"@.len() != "cpp"@.len());
    }
    assert("json"@ != "toml"@) by {
        assert("json"@[0] != "toml"@[0]);
    }
    assert("*.json"@ =~= seq!['*', '.', 'j', 's', 'o', 'n']);
    assert(seq!["*.json"@] =~= seq![seq!['*', '.', 'j', 's', 'o', 'n']]);
}

proof fn lemma_globs_yaml()
    ensures
        spec_type_globs("yaml"@) == Some(seq![seq!['*', '.', 'y', 'm', 'l'], seq!['*', '.', 'y', 'a', 'm', 'l']]),
{
    reveal_strlit("rust");
    reveal_strlit("typescript");
    reveal_strlit("javascript");
    reveal_strlit("python");
    reveal_strlit("go");
    reveal_strlit("c");
    reveal_strlit("cpp");
    reveal_strlit("toml");
    reveal_strlit("json");
    reveal_strlit("yaml");
    reveal_strlit("*.yml");
    reveal_strlit("*.yaml");
    assert("yaml"@ != "rust"@) by {
        assert("yaml"@[0] != "rust"@[0]);
    }
    assert("yaml"@ != "typescript"@) by {
        assert("yaml"@.len() != "typescript"@.len());
    }
    assert("yaml"@ != "javascript"@) by {
        assert("yaml"@.len() != "javascript"@.len());
    }
    assert("yaml"@ != "python"@) by {
        assert("yaml"@.len() != "python"@.len());
    }
    assert("yaml"@ != "go"@) by {
        assert("yaml"@.len() != "go"@.len());
    }
    assert("yaml"@ != "c"@) by {
        assert("yaml"@.len() != "c"@.len());
    }
    assert("yaml"@ != "cpp"@) by {
        assert("yaml"@.len() != "cpp"@.len());
    }
    assert("yaml"@ != "toml"@) by {
        assert("yaml"@[0] != "toml"@[0]);
    }
    assert("yaml"@ != "json"@) by {
        assert("yaml"@[0] != "json"@[0]);
    }
    assert("*.yml"@ =~= seq!['*', '.', 'y', 'm', 'l']);
    assert("*.yaml"@ =~= seq!['*', '.', 'y', 'a', 'm', 'l']);
    assert(seq!["*.yml"@, "*.yaml"@] =~= seq![seq!['*', '.', 'y', 'm', 'l'], seq!['*', '.', 'y', 'a', 'm', 'l']]);
}

proof fn lemma_globs_bash()
    ensures
        spec_type_globs("bash"@) == Some(seq![seq!['*', '.', 's', 'h']]),
{
    reveal_strlit("rust");
    reveal_strlit("typescript");
    reveal_strlit("javascript");
    reveal_strlit("python");
    reveal_strlit("go");
    reveal_strlit("c");
    reveal_strlit("cpp");
    reveal_strlit("toml");
    reveal_strlit("json");
    reveal_strlit("yaml");
    reveal_strlit("bash");
    reveal_strlit("*.sh");
    assert("bash"@ != "rust"@) by {
        assert("bash"@[0] != "rust"@[0]);
    }
    assert("bash"@ != "typescript"@) by {
        assert("bash"@.len() != "typescript"@.len());
    }
    assert("bash"@ != "javascript"@) by {
        assert("bash"@.len() != "javascript"@.len());
    }
    assert("bash"@ != "python"@) by {
        assert("bash"@.len() != "python"@.len());
    }
    assert("bash"@ != "go"@) by {
        assert("bash"@.len() != "go"@.len());
    }
    assert("bash"@ != "c"@) by {
        assert("bash"@.len() != "c"@.len());
    }
    assert("bash"@ != "cpp"@) by {
        assert("bash"@.len() != "cpp"@.len());
    }
    assert("bash"@ != "toml"@) by {
        assert("bash"@[0] != "toml"@[0]);
    }
    assert("bash"@ != "json"@) by {
        assert("bash"@[0] != "json"@[0]);
    }
    assert("bash"@ != "yaml"@) by {
        assert("bash"@[0] != "yaml"@[0]);
    }
    assert("*.sh"@ =~= seq!['*', '.', 's', 'h']);
    assert(seq!["*.sh"@] =~= seq![seq!['*', '.', 's', 'h']]);
}

proof fn lemma_globs_markdown()
    ensures
        spec_type_globs("markdown"@) == Some(seq![seq!['*', '.', 'm', 'd']]),
{
    reveal_strlit("rust");
    reveal_strlit("typescript");
    reveal_strlit("javascript");
    reveal_strlit("python");
    reveal_strlit("go");
    reveal_strlit("c");
    reveal_strlit("cpp");
    reveal_strlit("toml");
    reveal_strlit("json");
    reveal_strlit("yaml");
    reveal_strlit("bash");
    reveal_strlit("markdown");
    reveal_strlit("*.md");
    assert("markdown"@ != "rust"@) by {
        assert("markdown"@.len() != "rust"@.len());
    }
    assert("markdown"@ != "typescript"@) by {
        assert("markdown"@.len() != "typescript"@.len());
    }
    assert("markdown"@ != "javascript"@) by {
        assert("markdown"@.len() != "javascript"@.len());
    }
    assert("markdown"@ != "python"@) by {
        assert("markdown"@.len() != "python"@.len());
    }
    assert("markdown"@ != "go"@) by {
        assert("markdown"@.len() != "go"@.len());
    }
    assert("markdown"@ != "c"@) by {
        assert("markdown"@.len() != "c"@.len());
    }
    assert("markdown"@ != "cpp"@) by {
        assert("markdown"@.len() != "cpp"@.len());
    }
    assert("markdown"@ != "toml"@) by {
        assert("markdown"@.len() != "toml"@.len());
    }
    assert("markdown"@ != "json"@) by {
        assert("markdown"@.len() != "json"@.len());
    }
    assert("markdown"@ != "yaml"@) by {
        assert("markdown"@.len() != "yaml"@.len());
    }
    assert("markdown"@ != "bash"@) by {
        assert("markdown"@.len() != "bash"@.len());
    }
    assert("*.md"@ =~= seq!['*', '.', 'm', 'd']);
    assert(seq!["*.md"@] =~= seq![seq!['*', '.', 'm', 'd']]);
}

/// The type globs cover exactly the extensions of each type: every file
/// whose extension maps to a type is matched by some glob of that type
/// (so C headers are searched with `--type c`), and every glob of a type
/// is `*.` followed by an extension of that type.
pub proof fn lemma_type_globs_cover_extensions(ext: Seq<char>, name: Seq<char>, t: Seq<char>)
    ensures
        type_of_extension(ext) == Some(t) && name.len() > ext.len() && name.subrange(
            name.len() - ext.len() - 1,
            name.len() as int,
        ) == seq!['.'] + ext ==> (spec_type_globs(t) matches Some(gs) && exists|i: int|
            0 <= i < gs.len() && star_glob_matches(#[trigger] gs[i], name)),
        spec_type_globs(t) matches Some(gs) ==> forall|i: int|
            0 <= i < gs.len() ==> exists|e: Seq<char>| #[trigger] gs[i] == seq!['*', '.'] + e
                && type_of_extension(e) == Some(t),
{
    lemma_globs_rust();
    lemma_globs_typescript();
    lemma_globs_javascript();
    lemma_globs_python();
    lemma_globs_go();
    lemma_globs_c();
    lemma_globs_cpp();
    lemma_globs_toml();
    lemma_globs_json();
    lemma_globs_yaml();
    lemma_globs_bash();
    lemma_globs_markdown();
    if type_of_extension(ext) == Some(t) && name.len() > ext.len() && name.subrange(
        name.len() - ext.len() - 1,
        name.len() as int,
    ) == seq!['.'] + ext {
        let g = seq!['*', '.'] + ext;
        assert(g.drop_first() =~= seq!['.'] + ext);
        let gs = spec_type_globs(t)->0;
        if ext == seq!['r', 's'] {
            assert(t == "rust"@);
            assert(gs[0] =~= g);
            assert(star_glob_matches(gs[0], name));
        } else if ext == seq!['t', 's'] {
            assert(t == "typescript"@);
            assert(gs[0] =~= g);
            assert(star_glob_matches(gs[0], name));
        } else if ext == seq!['j', 's'] {
            assert(t == "javascript"@);
            assert(gs[0] =~= g);
            assert(star_glob_matches(gs[0], name));
        } else if ext == seq!['p', 'y'] {
            assert(t == "python"@);
            assert(gs[0] =~= g);
            assert(star_glob_matches(gs[0], name));
        } else if ext == seq!['g', 'o'] {
            assert(t == "go"@);
            assert(gs[0] =~= g);
            assert(star_glob_matches(gs[0], name));
        } else if ext == seq!['c'] {
            assert(t == "c"@);
            assert(gs[0] =~= g);
            assert(star_glob_matches(gs[0], name));
        } else if ext == seq!['h'] {
            assert(t == "c"@);
            assert(gs[1] =~= g);
            assert(star_glob_matches(gs[1], name));
        } else if ext == seq!['c', 'p', 'p'] {
            assert(t == "cpp"@);
            assert(gs[0] =~= g);
            assert(star_glob_matches(gs[0], name));
        } else if ext == seq!['c', 'c'] {
            assert(t == "cpp"@);
            assert(gs[1] =~= g);
            assert(star_glob_matches(gs[1], name));
        } else if ext == seq!['h', 'p', 'p'] {
            assert(t == "cpp"@);
            assert(gs[2] =~= g);
            assert(star_glob_matches(gs[2], name));
        } else if ext == seq!['h', 'h'] {
            assert(t == "cpp"@);
            assert(gs[3] =~= g);
            assert(star_glob_matches(gs[3], name));
        } else if ext == seq!['t', 'o', 'm', 'l'] {
            assert(t == "toml"@);
            assert(gs[0] =~= g);
            assert(star_glob_matches(gs[0], name));
        } else if ext == seq!['j', 's', 'o', 'n'] {
            assert(t == "json"@);
            assert(gs[0] =~= g);
            assert(star_glob_matches(gs[0], name));
        } else if ext == seq!['y', 'm', 'l'] {
            assert(t == "yaml"@);
            assert(gs[0] =~= g);
            assert(star_glob_matches(gs[0], name));
        } else if ext == seq!['y', 'a', 'm', 'l'] {
            assert(t == "yaml"@);
            assert(gs[1] =~= g);
            assert(star_glob_matches(gs[1], name));
        } else if ext == seq!['s', 'h'] {
            assert(t == "bash"@);
            assert(gs[0] =~= g);
            assert(star_glob_matches(gs[0], name));
        } else if ext == seq!['m', 'd'] {
            assert(t == "markdown"@);
            assert(gs[0] =~= g);
            assert(star_glob_matches(gs[0], name));
        }
    }
    if let Some(gs) = spec_type_globs(t) {
        assert forall|i: int| 0 <= i < gs.len() implies exists|e: Seq<char>| #[trigger] gs[i] == seq!['*', '.'] + e
            && type_of_extension(e) == Some(t) by {
            let e = gs[i].subrange(2, gs[i].len() as int);
            assert(gs[i] =~= seq!['*', '.'] + e);
            if t == "rust"@ {
                if i == 0 {
                    assert(e =~= seq!['r', 's']);
                    assert(type_of_extension(e) == Some(t));
                }
            } else if t == "typescript"@ {
                if i == 0 {
                    assert(e =~= seq!['t', 's']);
                    assert(type_of_extension(e) == Some(t));
                }
            } else if t == "javascript"@ {
                if i == 0 {
                    assert(e =~= seq!['j', 's']);
                    assert(type_of_extension(e) == Some(t));
                }
            } else if t == "python"@ {
                if i == 0 {
                    assert(e =~= seq!['p', 'y']);
                    assert(type_of_extension(e) == Some(t));
                }
            } else if t == "go"@ {
                if i == 0 {
                    assert(e =~= seq!['g', 'o']);
                    assert(type_of_extension(e) == Some(t));
                }
            } else if t == "c"@ {
                if i == 0 {
                    assert(e =~= seq!['c']);
                    assert(type_of_extension(e) == Some(t));
                }
                if i == 1 {
                    assert(e =~= seq!['h']);
                    assert(type_of_extension(e) == Some(t));
                }
            } else if t == "cpp"@ {
                if i == 0 {
                    assert(e =~= seq!['c', 'p', 'p']);
                    assert(type_of_extension(e) == Some(t));
                }
                if i == 1 {
                    assert(e =~= seq!['c', 'c']);
                    assert(type_of_extension(e) == Some(t));
                }
                if i == 2 {
                    assert(e =~= seq!['h', 'p', 'p']);
                    assert(type_of_extension(e) == Some(t));
                }
                if i == 3 {
                    assert(e =~= seq!['h', 'h']);
                    assert(type_of_extension(e) == Some(t));
                }
            } else if t == "toml"@ {
                if i == 0 {
                    assert(e =~= seq!['t', 'o', 'm', 'l']);
                    assert(type_of_extension(e) == Some(t));
                }
            } else if t == "json"@ {
                if i == 0 {
                    assert(e =~= seq!['j', 's', 'o', 'n']);
                    assert(type_of_extension(e) == Some(t));
                }
            } else if t == "yaml"@ {
                if i == 0 {
                    assert(e =~= seq!['y', 'm', 'l']);
                    assert(type_of_extension(e) == Some(t));
                }
                if i == 1 {
                    assert(e =~= seq!['y', 'a', 'm', 'l']);
                    assert(type_of_extension(e) == Some(t));
                }
            } else if t == "bash"@ {
                if i == 0 {
                    assert(e =~= seq!['s', 'h']);
                    assert(type_of_extension(e) == Some(t));
                }
            } else if t == "markdown"@ {
                if i == 0 {
                    assert(e =~= seq!['m', 'd']);
                    assert(type_of_extension(e) == Some(t));
                }
            }
        }
    }
}

/// The views of a list of string literals.
pub open spec fn views_of(v: Seq<&'static str>) -> Seq<Seq<char>> {
    v.map_values(|s: &'static str| s@)
}

/// The representative globs of a built-in type name (`None` when the
/// name is unknown).
pub fn type_globs(name: &str) -> (r: Option<Vec<&'static str>>)
    ensures
        match r {
            Some(v) => spec_type_globs(name@) == Some(views_of(v@)),
            None => spec_type_globs(name@) is None,
        },
{
    let r: Option<Vec<&'static str>> = if str_eq(name, "rust") {
        Some(vec!["*.rs"])
    } else if str_eq(name, "typescript") {
        Some(vec!["*.ts"])
    } else if str_eq(name, "javascript") {
        Some(vec!["*.js"])
    } else if str_eq(name, "python") {
        Some(vec!["*.py"])
    } else if str_eq(name, "go") {
        Some(vec!["*.go"])
    } else if str_eq(name, "c") {
        Some(vec!["*.c", "*.h"])
    } else if str_eq(name, "cpp") {
        Some(vec!["*.cpp", "*.cc", "*.hpp", "*.hh"])
    } else if str_eq(name, "toml") {
        Some(vec!["*.toml"])
    } else if str_eq(name, "json") {
        Some(vec!["*.json"])
    } else if str_eq(name, "yaml") {
        Some(vec!["*.yml", "*.yaml"])
    } else if str_eq(name, "bash") {
        Some(vec!["*.sh"])
    } else if str_eq(name, "markdown") {
        Some(vec!["*.md"])
    } else {
        None
    };
    proof {
        if r is Some {
            assert(views_of(r.unwrap()@) =~= spec_type_globs(name@).unwrap());
        }
    }
    r
}

/// The char index of `s` whose byte offset is `b` (a char boundary), if
/// `b` is one.
pub open spec fn boundary_index(s: Seq<char>, b: int) -> Option<int> {
    if exists|k: int| 0 <= k <= s.len() && byte_pos(s, k) == b {
        Some(choose|k: int| 0 <= k <= s.len() && byte_pos(s, k) == b)
    } else {
        None
    }
}

/// The char that ends at byte offset `b` of `s`, if any.
pub open spec fn char_ending_at(s: Seq<char>, b: int) -> Option<char> {
    match boundary_index(s, b) {
        Some(k) => if k > 0 {
            Some(s[k - 1])
        } else {
            None
        },
        None => None,
    }
}

/// The char that starts at byte offset `b` of `s`, if any.
pub open spec fn char_starting_at(s: Seq<char>, b: int) -> Option<char> {
    match boundary_index(s, b) {
        Some(k) => if k < s.len() {
            Some(s[k])
        } else {
            None
        },
        None => None,
    }
}

/// Word semantics at bytes `[idx, idx + len)` of `s`: neither side of the
/// span touches a word char.
pub open spec fn spec_word_boundary(s: Seq<char>, idx: int, len: int) -> bool {
    &&& !(char_ending_at(s, idx) matches Some(c) && word_char(c))
    &&& !(char_starting_at(s, idx + len) matches Some(c) && word_char(c))
}

proof fn lemma_byte_pos_injective(s: Seq<char>, j: int, k: int)
    requires
        0 <= j <= s.len(),
        0 <= k <= s.len(),
        byte_pos(s, j) == byte_pos(s, k),
    ensures
        j == k,
{
    if j < k {
        lemma_byte_pos_mono(s, j, k);
    } else if k < j {
        lemma_byte_pos_mono(s, k, j);
    }
}

proof fn lemma_boundary_index(s: Seq<char>, k: int)
    requires
        0 <= k <= s.len(),
    ensures
        boundary_index(s, byte_pos(s, k) as int) == Some(k),
{
    let b = byte_pos(s, k) as int;
    assert(0 <= k <= s.len() && byte_pos(s, k) == b);
    let c = boundary_index(s, b).unwrap();
    lemma_byte_pos_injective(s, c, k);
}

/// The char index at byte offset `b` of `s`, when `b` is a char boundary.
fn boundary_at(s: &[char], b: usize) -> (r: Option<usize>)
    ensures
        match r {
            Some(k) => boundary_index(s@, b as int) == Some(k as int) && k <= s@.len(),
            None => boundary_index(s@, b as int) is None,
        },
{
    let n = s.len();
    let mut k: usize = 0;
    let mut pos: u128 = 0;
    while k < n && pos < b as u128
        invariant
            n == s@.len(),
            k <= n,
            pos == byte_pos(s@, k as int),
            pos <= b + 4,
            forall|j: int| 0 <= j < k ==> byte_pos(s@, j) < b,
        decreases n - k,
    {
        proof {
            lemma_byte_pos_step(s@, k as int);
        }
        pos = pos + char_len_utf8(s[k]) as u128;
        k = k + 1;
    }
    if pos == b as u128 {
        proof {
            lemma_boundary_index(s@, k as int);
        }
        Some(k)
    } else {
        proof {
            assert forall|j: int| 0 <= j <= s@.len() implies byte_pos(s@, j) != b by {
                if j >= k {
                    lemma_byte_pos_mono(s@, k as int, j);
                }
            }
        }
        None
    }
}

/// ripgrep `word` semantics at bytes `[idx, idx + len)` of `line`: both
/// sides of the span are a line edge or a non-word char.
pub fn is_word_boundary(line: &str, idx: usize, len: usize) -> (b: bool)
    requires
        boundary_index(line@, idx as int) is Some,
        idx + len <= usize::MAX,
    ensures
        b == spec_word_boundary(line@, idx as int, len as int),
{
    let cs = chars_of(line);
    let k = match boundary_at(cs.as_slice(), idx) {
        Some(k) => k,
        None => {
            return true;
        },
    };
    let prev_word = k > 0 && is_word_char(cs[k - 1]);
    let next_word = match boundary_at(cs.as_slice(), idx + len) {
        Some(e) => e < cs.len() && is_word_char(cs[e]),
        None => false,
    };
    !prev_word && !next_word
}

/// `s` without its trailing `\n` and `\r` chars.
pub open spec fn trim_line_end(s: Seq<char>) -> Seq<char>
    decreases s.len(),
{
    if s.len() > 0 && (s.last() == '\n' || s.last() == '\r') {
        trim_line_end(s.drop_last())
    } else {
        s
    }
}

/// Whether `p` occurs in `s` at char `k`.
pub open spec fn occurs(s: Seq<char>, p: Seq<char>, k: int) -> bool {
    0 <= k && k + p.len() <= s.len() && s.subrange(k, k + p.len()) == p
}

/// Whether byte offset `a` falls in one of `ranges`.
pub open spec fn in_ranges(ranges: Seq<std::ops::Range<usize>>, a: int) -> bool {
    exists|i: int| 0 <= i < ranges.len() && #[trigger] range_has(ranges[i], a)
}

/// Whether `r` contains byte offset `a`.
pub open spec fn range_has(r: std::ops::Range<usize>, a: int) -> bool {
    r.start <= a < r.end
}

/// Whether the occurrence of `p` at char `k` of `s` counts: word semantics
/// when `word`, and its absolute byte offset outside the filtered ranges.
pub open spec fn occurrence_counts(
    s: Seq<char>,
    p: Seq<char>,
    k: int,
    word: bool,
    ranges: Option<Seq<std::ops::Range<usize>>>,
    abs: int,
) -> bool {
    &&& occurs(s, p, k)
    &&& (!word || spec_word_boundary(s, byte_pos(s, k) as int, byte_len_of(p)))
    &&& !(ranges matches Some(rs) && in_ranges(rs, abs + byte_pos(s, k)))
}

/// The number of UTF-8 bytes of `p`.
pub open spec fn byte_len_of(p: Seq<char>) -> int {
    crate::text::byte_len(p) as int
}

/// The first char index at or after `k` where an occurrence counts.
pub open spec fn first_counting(
    s: Seq<char>,
    p: Seq<char>,
    k: int,
    word: bool,
    ranges: Option<Seq<std::ops::Range<usize>>>,
    abs: int,
) -> Option<int>
    decreases s.len() + 1 - k,
{
    if k < 0 || k > s.len() {
        None
    } else if occurrence_counts(s, p, k, word, ranges, abs) {
        Some(k)
    } else {
        first_counting(s, p, k + 1, word, ranges, abs)
    }
}

/// The verdict on a matched line `s` for the fixed-string `p`: the first
/// counting occurrence gives the column; with none, a token-filtered
/// search drops the line and an unfiltered one reports it without a
/// column.
pub open spec fn spec_literal_verdict(
    s: Seq<char>,
    p: Seq<char>,
    word: bool,
    ranges: Option<Seq<std::ops::Range<usize>>>,
    abs: int,
) -> Option<Option<int>> {
    match first_counting(s, p, 0, word, ranges, abs) {
        Some(k) => Some(Some(byte_pos(s, k) as int)),
        None => if ranges is Some {
            None
        } else {
            Some(None)
        },
    }
}

/// The ranges' view.
pub open spec fn ranges_view(r: Option<Vec<std::ops::Range<usize>>>) -> Option<
    Seq<std::ops::Range<usize>>,
> {
    match r {
        Some(v) => Some(v@),
        None => None,
    }
}

/// Whether `p` occurs in `s` at char `k`.
fn occurs_at(s: &[char], p: &[char], k: usize) -> (b: bool)
    requires
        k <= s@.len(),
    ensures
        b == occurs(s@, p@, k as int),
{
    let sl = s.len();
    if p.len() > sl - k {
        return false;
    }
    let mut i: usize = 0;
    while i < p.len()
        invariant
            sl == s@.len(),
            k + p@.len() <= s@.len(),
            i <= p@.len(),
            forall|j: int| 0 <= j < i ==> s@[k + j] == p@[j],
        decreases p@.len() - i,
    {
        if s[k + i] != p[i] {
            assert(s@.subrange(k as int, k + p@.len())[i as int] != p@[i as int]);
            return false;
        }
        i = i + 1;
    }
    assert(s@.subrange(k as int, k + p@.len()) =~= p@);
    true
}

/// Whether absolute byte offset `a` falls in one of `ranges`.
fn offset_in_ranges(ranges: &[std::ops::Range<usize>], a: u128) -> (b: bool)
    ensures
        b == in_ranges(ranges@, a as int),
{
    let mut i: usize = 0;
    while i < ranges.len()
        invariant
            i <= ranges@.len(),
            forall|j: int| 0 <= j < i ==> !#[trigger] range_has(ranges@[j], a as int),
        decreases ranges@.len() - i,
    {
        let r = &ranges[i];
        if r.start as u128 <= a && a < r.end as u128 {
            assert(range_has(ranges@[i as int], a as int));
            return true;
        }
        i = i + 1;
    }
    false
}

/// Word semantics at chars `[k, k + m)` of `s`, given the byte offsets.
fn span_is_word_bounded(s: &[char], k: usize, m: usize) -> (b: bool)
    requires
        k + m <= s@.len(),
    ensures
        b == spec_word_boundary(s@, byte_pos(s@, k as int) as int, byte_pos(s@, k + m) - byte_pos(
            s@,
            k as int,
        )),
{
    proof {
        lemma_byte_pos_mono(s@, k as int, k + m);
        lemma_boundary_index(s@, k as int);
        lemma_boundary_index(s@, k + m);
    }
    let prev_word = k > 0 && is_word_char(s[k - 1]);
    let next_word = k + m < s.len() && is_word_char(s[k + m]);
    !prev_word && !next_word
}

proof fn lemma_occurrence_bytes(s: Seq<char>, p: Seq<char>, k: int)
    requires
        occurs(s, p, k),
    ensures
        byte_pos(s, k + p.len()) - byte_pos(s, k) == crate::text::byte_len(p),
    decreases p.len(),
{
    if p.len() > 0 {
        let q = p.drop_last();
        assert(s.subrange(k, k + q.len()) =~= q);
        lemma_occurrence_bytes(s, q, k);
        lemma_byte_pos_step(s, k + q.len());
        assert(s[k + q.len()] == p.last());
    }
}

/// The verdict on a matched `line` for the fixed-string `literal`.
fn literal_verdict(
    line: &[char],
    literal: &[char],
    word: bool,
    ranges: &Option<Vec<std::ops::Range<usize>>>,
    abs: usize,
) -> (r: Option<Option<u64>>)
    ensures
        match spec_literal_verdict(line@, literal@, word, ranges_view(*ranges), abs as int) {
            Some(Some(c)) => r == Some(Some(c as u64)),
            Some(None) => r == Some(None::<u64>),
            None => r is None,
        },
{
    let ghost s = line@;
    let ghost p = literal@;
    let ghost rv = ranges_view(*ranges);
    let n = line.len();
    let m = literal.len();
    let mut k: usize = 0;
    let mut pos: u128 = 0;
    loop
        invariant
            s == line@,
            p == literal@,
            rv == ranges_view(*ranges),
            n == s.len(),
            m == p.len(),
            k <= n,
            pos == byte_pos(s, k as int),
            pos <= 4 * k,
            n <= usize::MAX,
            first_counting(s, p, 0, word, rv, abs as int) == first_counting(
                s,
                p,
                k as int,
                word,
                rv,
                abs as int,
            ),
        ensures
            s == line@,
            p == literal@,
            rv == ranges_view(*ranges),
            first_counting(s, p, 0, word, rv, abs as int) is None,
        decreases n - k,
    {
        let occ = occurs_at(line, literal, k);
        if occ {
            proof {
                lemma_occurrence_bytes(s, p, k as int);
            }
            let bounded = !word || span_is_word_bounded(line, k, m);
            let filtered = match ranges {
                Some(rs) => offset_in_ranges(rs.as_slice(), abs as u128 + pos),
                None => false,
            };
            if bounded && !filtered {
                proof {
                    assert(occurrence_counts(s, p, k as int, word, rv, abs as int));
                    assert(byte_pos(s, k as int) <= 4 * n);
                }
                return Some(Some(pos as u64));
            }
            assert(!occurrence_counts(s, p, k as int, word, rv, abs as int));
        }
        if k == n {
            assert(first_counting(s, p, (k + 1) as int, word, rv, abs as int) is None);
            break;
        }
        proof {
            lemma_byte_pos_step(s, k as int);
        }
        pos = pos + char_len_utf8(line[k]) as u128;
        k = k + 1;
    }
    match ranges {
        Some(_) => None,
        None => Some(None),
    }
}

/// The per-file sink state: the file, the job generation, the literal
/// (for a fixed-string search), the word flag, the filtered byte ranges
/// (`None` = no token filter), and the hits reported so far.
pub struct StreamSink {
    pub file: String,
    pub gen_id: usize,
    pub literal: Option<String>,
    pub word: bool,
    pub ranges: Option<Vec<std::ops::Range<usize>>>,
    pub hits: u64,
}

/// The sink's answer to a matched line: whether the search of the file
/// goes on, and the event to publish.
pub struct SinkStep {
    pub keep_going: bool,
    pub event: Option<SearchEvent>,
}

/// Whether an empty literal has no counting position on line `l`.
pub open spec fn literal_stalls(
    literal: Option<String>,
    word: bool,
    ranges: Option<Vec<std::ops::Range<usize>>>,
    l: Seq<char>,
    abs: int,
) -> bool {
    match literal {
        Some(lit) => lit@.len() == 0 && first_counting(l, lit@, 0, word, ranges_view(ranges), abs)
            is None,
        None => false,
    }
}

impl StreamSink {
    /// Count a hit and build its event.
    pub fn emit_hit(&mut self, line_no: u64, col: Option<u64>, line: String) -> (e: SearchEvent)
        requires
            old(self).hits < u64::MAX,
        ensures
            final(self).hits == old(self).hits + 1,
            final(self).file == old(self).file,
            final(self).gen_id == old(self).gen_id,
            final(self).literal == old(self).literal,
            final(self).word == old(self).word,
            final(self).ranges == old(self).ranges,
            e matches SearchEvent::Hit { file, line_no: ln, col: c, line: l, generation } && file@
                == old(self).file@ && ln == line_no && c == col && l@ == line@ && generation
                == old(self).gen_id,
    {
        self.hits = self.hits + 1;
        SearchEvent::Hit {
            file: self.file.clone(),
            line_no,
            col,
            line,
            generation: self.gen_id,
        }
    }

    /// The event that closes the file: its final hit count.
    pub fn finish(&self) -> (e: SearchEvent)
        ensures
            e matches SearchEvent::FileDone { file, hits, generation } && file@ == self.file@
                && hits == self.hits && generation == self.gen_id,
    {
        SearchEvent::FileDone { file: self.file.clone(), hits: self.hits, generation: self.gen_id }
    }

    /// A matched line (`bytes`, terminator included, starting at absolute
    /// byte `abs` of the file): stop when `cancelled`; otherwise report it
    /// (with the first counting occurrence's column for a fixed-string
    /// search) or drop it when every occurrence falls in a filtered range.
    /// `None` for an empty literal none of whose positions counts, where
    /// the scan for a counting occurrence would run past the line's end.
    pub fn matched(
        &mut self,
        cancelled: bool,
        line_no: Option<u64>,
        abs: usize,
        bytes: &[u8],
    ) -> (r: Option<SinkStep>)
        requires
            old(self).hits < u64::MAX,
        ensures
            final(self).file == old(self).file,
            final(self).gen_id == old(self).gen_id,
            final(self).literal == old(self).literal,
            final(self).word == old(self).word,
            final(self).ranges == old(self).ranges,
            r is None <==> (!cancelled && literal_stalls(
                old(self).literal,
                old(self).word,
                old(self).ranges,
                trim_line_end(utf8_lossy(bytes@)),
                abs as int,
            )),
            r is None ==> final(self).hits == old(self).hits,
            cancelled ==> (r is Some && !r.unwrap().keep_going && r.unwrap().event is None
                && final(self).hits == old(self).hits),
            (!cancelled && r is Some) ==> {
                let step = r.unwrap();
                let l = trim_line_end(utf8_lossy(bytes@));
                let ln = match line_no {
                    Some(v) => v,
                    None => 0,
                };
                let col = match old(self).literal {
                    Some(lit) => spec_literal_verdict(
                        l,
                        lit@,
                        old(self).word,
                        ranges_view(old(self).ranges),
                        abs as int,
                    ),
                    None => Some(None),
                };
                &&& step.keep_going
                &&& match col {
                    None => step.event is None && final(self).hits == old(self).hits,
                    Some(c) => final(self).hits == old(self).hits + 1 && (step.event matches Some(
                        SearchEvent::Hit { file, line_no: n, col: ec, line, generation },
                    ) && file@ == old(self).file@ && n == ln && line@ == l && generation == old(
                        self,
                    ).gen_id && match c {
                        Some(x) => ec == Some(x as u64),
                        None => ec is None,
                    }),
                }
            },
    {
        if cancelled {
            return Some(SinkStep { keep_going: false, event: None });
        }
        let ln = match line_no {
            Some(v) => v,
            None => 0,
        };
        let decoded = from_utf8_lossy(bytes);
        let all = chars_of(decoded.as_str());
        let line_chars = trim_end_chars(all.as_slice());
        let line = string_of(line_chars.as_slice());
        match &self.literal {
            Some(lit) => {
                let p = chars_of(lit.as_str());
                let verdict = literal_verdict(
                    line_chars.as_slice(),
                    p.as_slice(),
                    self.word,
                    &self.ranges,
                    abs,
                );
                let found = match verdict {
                    Some(Some(_)) => true,
                    _ => false,
                };
                if p.len() == 0 && !found {
                    return None;
                }
                match verdict {
                    Some(col) => {
                        let e = self.emit_hit(ln, col, line);
                        Some(SinkStep { keep_going: true, event: Some(e) })
                    },
                    None => Some(SinkStep { keep_going: true, event: None }),
                }
            },
            None => {
                let e = self.emit_hit(ln, None, line);
                Some(SinkStep { keep_going: true, event: Some(e) })
            },
        }
    }
}

/// `cs` without its trailing `\n` and `\r` chars.
fn trim_end_chars(cs: &[char]) -> (r: Vec<char>)
    ensures
        r@ == trim_line_end(cs@),
{
    let mut j = cs.len();
    assert(cs@.take(j as int) =~= cs@);
    while j > 0 && (cs[j - 1] == '\n' || cs[j - 1] == '\r')
        invariant
            j <= cs@.len(),
            trim_line_end(cs@) == trim_line_end(cs@.take(j as int)),
        decreases j,
    {
        assert(cs@.take(j as int).drop_last() =~= cs@.take(j - 1));
        j = j - 1;
    }
    let r = crate::text::slice_vec(cs, 0, j);
    assert(r@ =~= cs@.take(j as int));
    r
}

/// A `-g` glob filter: a positive glob keeps only the files it matches,
/// a `!`-prefixed glob drops them. `pattern` is the glob without the `!`.
#[derive(Clone, Debug, PartialEq, Eq)]
pub struct GlobRule {
    pub negate: bool,
    pub pattern: String,
}

/// The glob rule of a `-g` option: none for an absent or empty glob.
pub open spec fn spec_glob_rule(glob: Option<Seq<char>>) -> Option<(bool, Seq<char>)> {
    match glob {
        None => None,
        Some(g) => if g.len() == 0 {
            None
        } else if g[0] == '!' {
            Some((true, g.drop_first()))
        } else {
            Some((false, g))
        },
    }
}

/// The view of an optional `&str`.
pub open spec fn opt_str_view(o: Option<&str>) -> Option<Seq<char>> {
    match o {
        Some(s) => Some(s@),
        None => None,
    }
}

/// The rule of a `-g` glob (`None` for an absent or empty glob).
pub fn glob_rule(glob: Option<&str>) -> (r: Option<GlobRule>)
    ensures
        match spec_glob_rule(opt_str_view(glob)) {
            Some((neg, pat)) => r matches Some(g) && g.negate == neg && g.pattern@ == pat,
            None => r is None,
        },
{
    let g = match glob {
        None => {
            return None;
        },
        Some(g) => g,
    };
    let cs = chars_of(g);
    if cs.len() == 0 {
        return None;
    }
    if cs[0] == '!' {
        let rest = crate::text::slice_vec(cs.as_slice(), 1, cs.len());
        assert(rest@ =~= g@.drop_first());
        Some(GlobRule { negate: true, pattern: string_of(rest.as_slice()) })
    } else {
        Some(GlobRule { negate: false, pattern: g.to_owned() })
    }
}

impl GlobRule {
    /// Whether a file the glob matcher answered `matched` for is dropped:
    /// a non-match of a positive glob, a match of a `!` glob.
    pub fn drops(&self, matched: bool) -> (b: bool)
        ensures
            b == (matched == self.negate),
    {
        matched == self.negate
    }
}

/// Whether the walk needs the combined entry filter: outside a git repo
/// (the project's ignore files are applied by hand), or with a non-empty
/// glob.
pub fn needs_entry_filters(is_git_repo: bool, glob: Option<&str>) -> (b: bool)
    ensures
        b == (!is_git_repo || (glob matches Some(g) && g@.len() > 0)),
{
    if !is_git_repo {
        return true;
    }
    match glob {
        Some(g) => g.unicode_len() > 0,
        None => false,
    }
}

/// The message for a `--type` name that is neither a standard type nor in
/// the built-in table.
pub fn unknown_type_message(t: &str) -> (m: String)
    ensures
        m@ == "unknown file type `"@ + t@ + "`"@,
{
    let mut m = String::from_str("unknown file type `");
    m.append(t);
    m.append("`");
    m
}

/// The message for a `--type` whose globs cannot be used, with the
/// builder's error when there is one.
pub fn unusable_type_message(t: &str, detail: Option<&str>) -> (m: String)
    ensures
        m@ == match detail {
            Some(d) => "file type `"@ + t@ + "` is not usable: "@ + d@,
            None => "file type `"@ + t@ + "` is not usable"@,
        },
{
    let mut m = String::from_str("file type `");
    m.append(t);
    match detail {
        Some(d) => {
            m.append("` is not usable: ");
            m.append(d);
        },
        None => {
            m.append("` is not usable");
        },
    }
    m
}

} // verus!

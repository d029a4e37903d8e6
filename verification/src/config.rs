use vstd::prelude::*;

verus! {

/// Number of hits a search returns when the caller names no limit.
pub const DEFAULT_SEARCH_LIMIT: usize = 20;

/// Longest snippet, in characters, that a search asks the engine for.
pub const DEFAULT_SNIPPET_MAX_CHARS: usize = 150;

/// Port the HTTP transport listens on when none is named.
pub const DEFAULT_HTTP_PORT: u16 = 8000;

/// The address the HTTP transport binds: this machine only (`127.0.0.1`)
/// when no host is asked for, every interface (`0.0.0.0`) when a host is
/// asked for with no address, and the named address otherwise.
pub fn bind_host(requested: Option<Option<String>>) -> (r: String)
    ensures
        r@ == match requested {
            None => "127.0.0.1"@,
            Some(None) => "0.0.0.0"@,
            Some(Some(a)) => a@,
        },
{
    match requested {
        None => "127.0.0.1".to_string(),
        Some(None) => "0.0.0.0".to_string(),
        Some(Some(a)) => a,
    }
}

/// Options controlling one search.
#[derive(Clone, Debug)]
pub struct SearchOptions {
    /// Maximum number of results to return.
    pub limit: usize,
    /// Maximum snippet length in characters; `None` disables snippets.
    pub snippet_max_chars: Option<usize>,
}

impl Default for SearchOptions {
    fn default() -> (r: Self)
        ensures
            r.limit == DEFAULT_SEARCH_LIMIT,
            r.snippet_max_chars == Some(DEFAULT_SNIPPET_MAX_CHARS),
    {
        SearchOptions { limit: DEFAULT_SEARCH_LIMIT, snippet_max_chars: Some(DEFAULT_SNIPPET_MAX_CHARS) }
    }
}

impl SearchOptions {
    /// The options of a search request: the requested limit, or the default
    /// one, with the default snippet length.
    pub fn for_request(limit: Option<usize>) -> (r: SearchOptions)
        ensures
            r.limit == match limit {
                Some(n) => n,
                None => DEFAULT_SEARCH_LIMIT,
            },
            r.snippet_max_chars == Some(DEFAULT_SNIPPET_MAX_CHARS),
    {
        let defaults = SearchOptions::default();
        let limit = match limit {
            Some(n) => n,
            None => defaults.limit,
        };
        SearchOptions { limit, ..defaults }
    }
}


/// Settings read from the user's configuration file; every field is optional.
pub struct Config {
    /// Server instructions shown to the client in place of the built-in ones.
    pub instructions: Option<String>,
    /// Description of the `search` tool in place of the built-in one.
    pub search_description: Option<String>,
    /// Description of the `read_file` tool in place of the built-in one.
    pub read_file_description: Option<String>,
    /// Description of the `list_files` tool in place of the built-in one.
    pub list_files_description: Option<String>,
    /// Name the server reports to clients in place of its own.
    pub server_name: Option<String>,
    /// Version the server reports to clients in place of its own.
    pub server_version: Option<String>,
}

impl Default for Config {
    fn default() -> (r: Self)
        ensures
            r.instructions is None,
            r.search_description is None,
            r.read_file_description is None,
            r.list_files_description is None,
            r.server_name is None,
            r.server_version is None,
    {
        Config {
            instructions: None,
            search_description: None,
            read_file_description: None,
            list_files_description: None,
            server_name: None,
            server_version: None,
        }
    }
}

/// A tool's configured description: the one of its own `[tools.<name>]`
/// table when that is given, else the one of the flat key.
pub fn tool_description(table: Option<String>, flat: Option<String>) -> (r: Option<String>)
    ensures
        r == match table {
            Some(d) => Some(d),
            None => flat,
        },
{
    match table {
        Some(d) => Some(d),
        None => flat,
    }
}

/// Built-in server instructions.
pub open spec fn default_instructions() -> Seq<char> {
    "terrain MCP server – search and read indexed Markdown files"@
}

/// Built-in description of the search tool.
pub open spec fn default_search_description() -> Seq<char> {
    "Search local Markdown files (knowledge base) using full-text search. This engine is highly optimized for Japanese text using morphological analysis, so you can confidently pass natural Japanese keywords, phrases, or technical terms. Space-separated keywords are OR-combined and results are ranked by BM25, so listing several candidate keywords or synonyms is a good strategy. Use this as your first action to find relevant context to answer the user's question. It returns a list of matching absolute file paths, relevance scores, and surrounding text snippets."@
}

/// Built-in description of the read tool.
pub open spec fn default_read_file_description() -> Seq<char> {
    "Read the full contents of a specific Markdown file. Use this when you find a promising snippet from the 'search' tool and need more detailed context, full sections, or complete code blocks. Provide the exact absolute file path retrieved from the search results."@
}

/// Built-in description of the listing tool.
pub open spec fn default_list_files_description() -> Seq<char> {
    "List the absolute paths of all indexed Markdown files, sorted and paged with 'limit' and 'offset' ('limit' 0 returns only the total count). Use this to discover which documents exist without guessing search keywords; every returned path can be passed directly to 'read_file'."@
}

/// The name the server reports when none is configured.
pub open spec fn default_server_name() -> Seq<char> {
    "terrain"@
}

/// The version the server reports when none is configured: the package's.
pub open spec fn default_server_version() -> Seq<char> {
    "0.2.2"@
}

/// The configured text, or the built-in one where none is configured.
pub open spec fn configured_or(value: Option<String>, fallback: Seq<char>) -> Seq<char> {
    match value {
        Some(s) => s@,
        None => fallback,
    }
}

/// What the server tells a client about itself and its tools.
pub struct ToolSurface {
    /// Server instructions.
    pub instructions: String,
    /// Description of the search tool.
    pub search_description: String,
    /// Description of the read tool.
    pub read_file_description: String,
    /// Description of the listing tool.
    pub list_files_description: String,
    /// The name the server reports.
    pub server_name: String,
    /// The version the server reports.
    pub server_version: String,
}

fn text_or(value: &Option<String>, fallback: &str) -> (r: String)
    ensures
        r@ == match value {
            Some(s) => s@,
            None => fallback@,
        },
{
    match value {
        Some(s) => s.clone(),
        None => fallback.to_string(),
    }
}

impl ToolSurface {
    /// The instructions, tool descriptions and server identity for `config`:
    /// each configured text replaces the built-in one, and the built-in text
    /// stands otherwise.
    pub fn from_config(config: &Config) -> (r: ToolSurface)
        ensures
            r.instructions@ == configured_or(config.instructions, default_instructions()),
            r.search_description@ == configured_or(config.search_description, default_search_description()),
            r.read_file_description@ == configured_or(
                config.read_file_description,
                default_read_file_description(),
            ),
            r.list_files_description@ == configured_or(
                config.list_files_description,
                default_list_files_description(),
            ),
            r.server_name@ == configured_or(config.server_name, default_server_name()),
            r.server_version@ == configured_or(config.server_version, default_server_version()),
    {
        let instructions = text_or(
            &config.instructions,
            "terrain MCP server – search and read indexed Markdown files",
        );
        let search_description = text_or(
            &config.search_description,
            "Search local Markdown files (knowledge base) using full-text search. This engine is highly optimized for Japanese text using morphological analysis, so you can confidently pass natural Japanese keywords, phrases, or technical terms. Space-separated keywords are OR-combined and results are ranked by BM25, so listing several candidate keywords or synonyms is a good strategy. Use this as your first action to find relevant context to answer the user's question. It returns a list of matching absolute file paths, relevance scores, and surrounding text snippets.",
        );
        let read_file_description = text_or(
            &config.read_file_description,
            "Read the full contents of a specific Markdown file. Use this when you find a promising snippet from the 'search' tool and need more detailed context, full sections, or complete code blocks. Provide the exact absolute file path retrieved from the search results.",
        );
        let list_files_description = text_or(
            &config.list_files_description,
            "List the absolute paths of all indexed Markdown files, sorted and paged with 'limit' and 'offset' ('limit' 0 returns only the total count). Use this to discover which documents exist without guessing search keywords; every returned path can be passed directly to 'read_file'.",
        );
        let server_name = text_or(&config.server_name, "terrain");
        let server_version = text_or(&config.server_version, "0.2.2");
        ToolSurface {
            instructions,
            search_description,
            read_file_description,
            list_files_description,
            server_name,
            server_version,
        }
    }
}

} // verus!

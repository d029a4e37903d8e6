use terrain::{index_namespace, tool_description, Config, SearchOptions, ToolSurface};

#[test]
fn search_defaults() {
    let opts = SearchOptions::default();
    assert_eq!(opts.limit, 20);
    assert_eq!(opts.snippet_max_chars, Some(150));
}

#[test]
fn search_request_limit() {
    assert_eq!(SearchOptions::for_request(None).limit, 20);
    let opts = SearchOptions::for_request(Some(3));
    assert_eq!(opts.limit, 3);
    assert_eq!(opts.snippet_max_chars, Some(150));
}

#[test]
fn built_in_texts_stand_without_configuration() {
    let surface = ToolSurface::from_config(&Config::default());
    assert_eq!(surface.instructions, "terrain MCP server – search and read indexed Markdown files");
    assert!(surface.search_description.starts_with("Search local Markdown files"));
    assert!(surface.read_file_description.starts_with("Read the full contents"));
    assert!(surface.list_files_description.starts_with("List the absolute paths"));
    assert_eq!(surface.server_name, "terrain");
    assert_eq!(surface.server_version, "0.2.2");
}

#[test]
fn search_description_documents_or_and_bm25() {
    let surface = ToolSurface::from_config(&Config::default());
    assert!(surface.search_description.contains("OR-combined"));
    assert!(surface.search_description.contains("BM25"));
}

#[test]
fn configured_texts_replace_built_in_ones() {
    let config = Config {
        instructions: Some("custom instructions".to_string()),
        search_description: Some("find notes".to_string()),
        read_file_description: None,
        list_files_description: Some("list notes".to_string()),
        server_name: Some("host-app".to_string()),
        server_version: Some("9.9.9".to_string()),
    };
    let surface = ToolSurface::from_config(&config);
    assert_eq!(surface.instructions, "custom instructions");
    assert_eq!(surface.search_description, "find notes");
    assert!(surface.read_file_description.starts_with("Read the full contents"));
}

#[test]
fn configured_identity_and_listing_text() {
    let config = Config {
        list_files_description: Some("list notes".to_string()),
        server_name: Some("host-app".to_string()),
        server_version: Some("9.9.9".to_string()),
        ..Config::default()
    };
    let surface = ToolSurface::from_config(&config);
    assert_eq!(surface.list_files_description, "list notes");
    assert_eq!(surface.server_name, "host-app");
    assert_eq!(surface.server_version, "9.9.9");
}

#[test]
fn tool_table_description_wins_over_flat_key() {
    assert_eq!(tool_description(Some("table".to_string()), Some("flat".to_string())), Some("table".to_string()));
    assert_eq!(tool_description(None, Some("flat".to_string())), Some("flat".to_string()));
    assert_eq!(tool_description(Some("table".to_string()), None), Some("table".to_string()));
    assert_eq!(tool_description(None, None), None);
}

#[test]
fn index_namespace_is_fnv1a() {
    assert_eq!(index_namespace(""), 0xcbf29ce484222325);
    assert_eq!(index_namespace("a"), 0xaf63dc4c8601ec8c);
    assert_eq!(index_namespace("foobar"), 0x85944171f73967e8);
}

#[test]
fn different_directories_get_different_namespaces() {
    assert_ne!(index_namespace("/home/a/notes"), index_namespace("/home/b/notes"));
    assert_eq!(index_namespace("/home/a/notes"), index_namespace("/home/a/notes"));
}

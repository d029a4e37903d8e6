//! Core logic of a local Markdown knowledge-base server: which paths count as
//! Markdown notes, the registry of indexed paths that grants read access, paged
//! listings of that registry, the debouncing of file-system change events into
//! index updates, and the settings that shape the search and read tools.

mod config;

pub use config::{
    bind_host, DEFAULT_HTTP_PORT,
    configured_or, default_instructions, default_list_files_description, default_read_file_description,
    default_search_description, default_server_name, default_server_version, tool_description, Config,
    SearchOptions, ToolSurface, DEFAULT_SEARCH_LIMIT, DEFAULT_SNIPPET_MAX_CHARS,
};

mod markdown;

mod paths;

pub use paths::{ascii_upper, drive_component, char_views, is_named, leading_component, named_pieces, path_components, same_path};

pub use markdown::{
    after_prefix, extension, file_name, has_drive_prefix, is_markdown, is_markdown_in, is_markdown_path,
    is_md_extension, is_separator, last_index_of, last_name, last_separator, lemma_last_separator,
    PathStyle,
};

mod order;

pub use order::{
    lemma_lex_asymmetric, lemma_lex_irreflexive, lemma_lex_total, lemma_lex_transitive, lex_lt, strictly_sorted,
};

mod indexed_paths;

pub use indexed_paths::{
    components_distinct, is_page, lemma_rank_in_sorted, lemma_sorted_no_duplicates, page_len, rank, registers, views_of, with_path,
    with_paths, without_path, without_paths, FileList,
    FileContent, IndexedPaths, ListOptions, ReadFileError, DEFAULT_LIST_LIMIT,
};

mod events;

pub use events::{
    accumulate, accumulated, calls_for_indexing, mark, mark_by_presence, mark_each, paths_to_index,
    paths_to_remove, plans, presence_kind, record, BatchPlan, EventKind, EventPath, FsEvent,
    PendingEvents, PendingMap, RenameMode,
};

mod index_location;

pub use index_location::{fnv1a, fnv_step, index_namespace, FNV_OFFSET_BASIS, FNV_PRIME};

mod scan;

pub use scan::{classify_entry, EntryAction};

mod laws;

pub use laws::{
    law_batch_disjoint, law_batch_paths_are_markdown, law_empty_pages, law_full_listing_complete,
    law_insert_idempotent, law_latest_kind_wins, law_listed_paths_are_readable, law_md_suffix,
    law_styles_agree, law_trailing_separator,
    law_only_markdown_pending, law_other_paths_unaffected, law_page_unique, law_pages_concatenate,
    law_registration_grants_read, law_remove_undoes_insert, law_rename_moves, law_renames_resolved,
    law_unregistration_revokes_read, law_first_spelling_kept, lemma_rank_injective,
    renames_resolved, well_kept, law_rename_to_markdown_creates, law_rename_to_creates,
    law_remove_all_keeps_others, law_with_paths_keeps, law_with_paths_keeps_access,
    law_components_end_with_name, law_distinct_names_distinct_paths, law_fnv_push,
    law_last_character_changes_key, law_change_then_quiet_reindexes, law_removal_then_quiet_drops,
    law_reindexed_paths_registered, law_failed_indexing_adds_nothing, law_removed_paths_unregistered, law_accumulate_frame, law_accumulate_idempotent, touches,
    last_presence,
};

mod debounce;

pub use debounce::{Debouncer, WatchAction, WatchInput, WatchPhase};

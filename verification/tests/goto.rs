use ctags_ls::ctags::CtagsEntry;
use ctags_ls::document::{DocumentError, DocumentsCache, Position, TextDocument};
use ctags_ls::goto_handler::{
    file_url, files_of, find_tags_location, symbol_under_cursor, GotoHandler, Location, SourceFile,
};
use ctags_ls::server::{GotoDeclarationHandler, GotoDefinitionHandler, GotoImplementationHandler};

fn entry(name: &str, file: &str, pattern: &str, kind: &str) -> CtagsEntry {
    CtagsEntry {
        name: name.to_string(),
        file: file.to_string(),
        pattern: pattern.to_string(),
        kind: kind.to_string(),
    }
}

fn source(path: &str, lines: &[&str]) -> SourceFile {
    SourceFile { path: path.to_string(), lines: lines.iter().map(|l| l.to_string()).collect() }
}

fn span(location: &Location) -> (usize, usize, usize, usize) {
    (
        location.range.start.line,
        location.range.start.character,
        location.range.end.line,
        location.range.end.character,
    )
}

fn a_c() -> SourceFile {
    source(
        "/src/a.c",
        &["#include <stdio.h>", "", "int foo();", "", "int foo() {", "    return 1;", "}"],
    )
}

fn foo_records() -> Vec<CtagsEntry> {
    vec![
        entry("foo", "/src/a.c", "int foo() {", "f"),
        entry("foo", "/src/a.c", "int foo();", "p"),
    ]
}

#[test]
fn no_records_give_no_locations() {
    let mut locations = Vec::new();
    assert!(find_tags_location(&Vec::new(), &Vec::new(), &mut locations).is_ok());
    assert!(locations.is_empty());
    assert!(find_tags_location(&Vec::new(), &vec![a_c()], &mut locations).is_ok());
    assert!(locations.is_empty());
}

#[test]
fn record_resolves_to_first_line_with_pattern_and_name() {
    let records = vec![entry("foo", "/src/a.c", "int foo() {", "f")];
    let mut locations = Vec::new();
    find_tags_location(&records, &vec![a_c()], &mut locations).unwrap();
    assert_eq!(locations.len(), 1);
    assert_eq!(locations[0].uri, "file:///src/a.c");
    assert_eq!(span(&locations[0]), (4, 4, 4, 7));
}

#[test]
fn two_records_of_one_file_resolve_to_their_own_lines() {
    let mut locations = Vec::new();
    find_tags_location(&foo_records(), &vec![a_c()], &mut locations).unwrap();
    assert_eq!(locations.len(), 2);
    assert_eq!(span(&locations[0]), (2, 4, 2, 7));
    assert_eq!(span(&locations[1]), (4, 4, 4, 7));
    assert_eq!(locations[0].uri, "file:///src/a.c");
    assert_eq!(locations[1].uri, "file:///src/a.c");
}

#[test]
fn locations_are_added_behind_what_is_there() {
    let mut locations = Vec::new();
    find_tags_location(&foo_records(), &vec![a_c()], &mut locations).unwrap();
    find_tags_location(
        &vec![entry("return", "/src/a.c", "return 1", "x")],
        &vec![a_c()],
        &mut locations,
    )
    .unwrap();
    assert_eq!(locations.len(), 3);
    assert_eq!(span(&locations[0]), (2, 4, 2, 7));
    assert_eq!(span(&locations[2]), (5, 4, 5, 10));
}

#[test]
fn column_is_the_first_occurrence_of_the_name() {
    let records = vec![entry("bar", "/f.c", "bar = bar + 1", "v")];
    let file = source("/f.c", &["int bar;", "  foobar(bar = bar + 1);"]);
    let mut locations = Vec::new();
    find_tags_location(&records, &vec![file], &mut locations).unwrap();
    assert_eq!(locations.len(), 1);
    assert_eq!(span(&locations[0]), (1, 5, 1, 8));
}

#[test]
fn column_counts_characters() {
    let records = vec![entry("größe", "/f.c", "int größe", "v")];
    let file = source("/f.c", &["/* ä */ int größe = 1;"]);
    let mut locations = Vec::new();
    find_tags_location(&records, &vec![file], &mut locations).unwrap();
    assert_eq!(span(&locations[0]), (0, 12, 0, 17));
}

#[test]
fn line_needs_both_pattern_and_name() {
    let records = vec![entry("foo", "/f.c", "int x", "v")];
    let file = source("/f.c", &["int x;", "foo();", "int x = foo();"]);
    let mut locations = Vec::new();
    find_tags_location(&records, &vec![file], &mut locations).unwrap();
    assert_eq!(locations.len(), 1);
    assert_eq!(span(&locations[0]), (2, 8, 2, 11));
}

#[test]
fn record_without_a_line_is_dropped() {
    let records = vec![
        entry("gone", "/src/a.c", "int gone(void)", "f"),
        entry("foo", "/src/a.c", "int foo() {", "f"),
    ];
    let mut locations = Vec::new();
    find_tags_location(&records, &vec![a_c()], &mut locations).unwrap();
    assert_eq!(locations.len(), 1);
    assert_eq!(span(&locations[0]), (4, 4, 4, 7));
}

#[test]
fn empty_file_resolves_nothing() {
    let mut locations = Vec::new();
    find_tags_location(&foo_records(), &vec![source("/src/a.c", &[])], &mut locations).unwrap();
    assert!(locations.is_empty());
}

#[test]
fn a_line_settles_one_record_only() {
    let records = vec![entry("x", "/f.c", "x", "v"), entry("x", "/f.c", "x = 1", "v")];
    let file = source("/f.c", &["x = 1;", "y = 2;", "x;"]);
    let mut locations = Vec::new();
    find_tags_location(&records, &vec![file], &mut locations).unwrap();
    assert_eq!(locations.len(), 1);
    assert_eq!(span(&locations[0]), (0, 0, 0, 1));
}

#[test]
fn prototype_and_definition_resolve_whatever_their_order_in_the_file() {
    let records =
        vec![entry("foo", "/f.c", "int foo();", "p"), entry("foo", "/f.c", "int foo() {", "f")];
    let file = source("/f.c", &["int foo() {", "}", "int foo();"]);
    let mut locations = Vec::new();
    find_tags_location(&records, &vec![file], &mut locations).unwrap();
    assert_eq!(locations.len(), 2);
    assert_eq!(span(&locations[0]), (0, 4, 0, 7));
    assert_eq!(span(&locations[1]), (2, 4, 2, 7));
}

#[test]
fn records_read_from_the_index_resolve_to_their_own_lines() {
    let w = ctags_ls::workspace::Workspace {
        folder: ctags_ls::workspace::WorkspaceFolder {
            uri: "file:///w".to_string(),
            name: "w".to_string(),
        },
        path: "/w".to_string(),
        tag_file_path: Some("/w/tags".to_string()),
    };
    let output = "foo\tsrc/a.c\t/^int foo() {$/;\"\tkind:f\nfoo\tsrc/a.c\t/^int foo();$/;\"\tkind:p\n";
    let records = ctags_ls::ctags::CtagsHandler::parse_output(output, &w);
    assert_eq!(records[1].pattern, "int foo();");
    let file = source("/w/src/a.c", &["int foo() {", "    return 1;", "}", "int foo();"]);
    let sources = vec![file];
    let definition = GotoDefinitionHandler
        .handle_goto(ctags_ls::ctags::CtagsHandler::parse_output(output, &w), &sources)
        .unwrap();
    assert_eq!(definition.len(), 1);
    assert_eq!(span(&definition[0]), (0, 4, 0, 7));
    let declaration = GotoDeclarationHandler.handle_goto(records, &sources).unwrap();
    assert_eq!(declaration.len(), 1);
    assert_eq!(span(&declaration[0]), (3, 4, 3, 7));
}

#[test]
fn later_record_takes_a_later_line() {
    let records = vec![entry("x", "/f.c", "x", "v"), entry("x", "/f.c", "x", "v")];
    let file = source("/f.c", &["x = 1;", "y = 2;", "  x = 3;"]);
    let mut locations = Vec::new();
    find_tags_location(&records, &vec![file], &mut locations).unwrap();
    assert_eq!(locations.len(), 2);
    assert_eq!(span(&locations[0]), (0, 0, 0, 1));
    assert_eq!(span(&locations[1]), (2, 2, 2, 3));
}

#[test]
fn files_are_taken_in_order_of_first_appearance() {
    let records = vec![
        entry("b", "/two.c", "b", "v"),
        entry("a", "/one.c", "a", "v"),
        entry("c", "/two.c", "c", "v"),
    ];
    let sources = vec![source("/one.c", &["a"]), source("/two.c", &["c", "b"])];
    let mut locations = Vec::new();
    find_tags_location(&records, &sources, &mut locations).unwrap();
    assert_eq!(locations.len(), 3);
    assert_eq!(locations[0].uri, "file:///two.c");
    assert_eq!(span(&locations[0]), (0, 0, 0, 1));
    assert_eq!(locations[1].uri, "file:///two.c");
    assert_eq!(span(&locations[1]), (1, 0, 1, 1));
    assert_eq!(locations[2].uri, "file:///one.c");
}

#[test]
fn first_source_with_the_path_is_read() {
    let records = vec![entry("a", "/f.c", "a", "v")];
    let sources = vec![source("/f.c", &["", "a"]), source("/f.c", &["a"])];
    let mut locations = Vec::new();
    find_tags_location(&records, &sources, &mut locations).unwrap();
    assert_eq!(span(&locations[0]), (1, 0, 1, 1));
}

#[test]
fn missing_source_resolves_nothing_and_is_no_error() {
    let records = vec![
        entry("bar", "/src/missing.c", "int bar()", "f"),
        entry("foo", "/src/a.c", "int foo() {", "f"),
    ];
    let mut locations = vec![Location {
        uri: "file:///kept".to_string(),
        range: ctags_ls::document::Range {
            start: Position { line: 1, character: 2 },
            end: Position { line: 1, character: 3 },
        },
    }];
    assert!(find_tags_location(&records, &vec![a_c()], &mut locations).is_ok());
    assert_eq!(locations.len(), 2);
    assert_eq!(locations[0].uri, "file:///kept");
    assert_eq!(locations[1].uri, "file:///src/a.c");
    assert_eq!(span(&locations[1]), (4, 4, 4, 7));
}

#[test]
fn records_of_missing_sources_alone_give_no_locations() {
    let records = vec![entry("zzz", "/nowhere.c", "zzz", "f")];
    let mut locations = Vec::new();
    assert!(find_tags_location(&records, &Vec::new(), &mut locations).is_ok());
    assert!(locations.is_empty());
}

#[test]
fn files_of_lists_each_file_once_in_order_of_first_appearance() {
    let records = vec![
        entry("b", "/two.c", "b", "v"),
        entry("a", "/one.c", "a", "v"),
        entry("c", "/two.c", "c", "v"),
        entry("d", "/three.c", "d", "v"),
        entry("e", "/one.c", "e", "v"),
    ];
    assert_eq!(files_of(&records), vec!["/two.c", "/one.c", "/three.c"]);
    assert!(files_of(&Vec::new()).is_empty());
}

#[test]
fn path_without_address_is_an_error_only_when_a_record_is_found() {
    let bad = "a b:x/f.c";
    assert!(file_url(bad).is_none());
    let sources = vec![source(bad, &["int foo;"])];
    let mut locations = Vec::new();
    let unmatched = vec![entry("bar", bad, "int bar", "v")];
    assert!(find_tags_location(&unmatched, &sources, &mut locations).is_ok());
    assert!(locations.is_empty());
    let matched = vec![entry("foo", bad, "int foo", "v")];
    let error = find_tags_location(&matched, &sources, &mut locations).unwrap_err();
    assert_eq!(error.file, bad);
    assert!(locations.is_empty());
}

#[test]
fn address_is_what_the_url_parser_makes_of_the_path() {
    assert_eq!(file_url("/src/a.c"), Some("file:///src/a.c".to_string()));
    assert_eq!(file_url("/my project/a b.c"), Some("file:///my%20project/a%20b.c".to_string()));
    assert_eq!(file_url("/src/../lib/./x.c"), Some("file:///lib/x.c".to_string()));
}

#[test]
fn location_address_is_normalised() {
    let records = vec![entry("x", "/my project/sub/../x.c", "x", "v")];
    let sources = vec![source("/my project/sub/../x.c", &["x"])];
    let mut locations = Vec::new();
    find_tags_location(&records, &sources, &mut locations).unwrap();
    assert_eq!(locations[0].uri, "file:///my%20project/x.c");
}

#[test]
fn empty_name_is_found_at_column_zero() {
    let records = vec![entry("", "/f.c", "abc", "v")];
    let sources = vec![source("/f.c", &["xx", "  abc"])];
    let mut locations = Vec::new();
    find_tags_location(&records, &sources, &mut locations).unwrap();
    assert_eq!(span(&locations[0]), (1, 0, 1, 0));
}

#[test]
fn definition_filter_rejects_prototypes() {
    let h = GotoDefinitionHandler;
    assert!(h.filter(&entry("n", "f", "p", "f")));
    assert!(h.filter(&entry("n", "f", "p", "function")));
    assert!(h.filter(&entry("n", "f", "p", "v")));
    assert!(h.filter(&entry("n", "f", "p", "")));
    assert!(h.filter(&entry("n", "f", "p", "P")));
    assert!(!h.filter(&entry("n", "f", "p", "p")));
    assert!(!h.filter(&entry("n", "f", "p", "prototype")));
}

#[test]
fn declaration_filter_accepts_only_prototypes() {
    let h = GotoDeclarationHandler;
    assert!(h.filter(&entry("n", "f", "p", "p")));
    assert!(h.filter(&entry("n", "f", "p", "prototype")));
    assert!(!h.filter(&entry("n", "f", "p", "f")));
    assert!(!h.filter(&entry("n", "f", "p", "proto")));
    assert!(!h.filter(&entry("n", "f", "p", "")));
}

#[test]
fn implementation_filter_accepts_only_functions() {
    let h = GotoImplementationHandler;
    assert!(h.filter(&entry("n", "f", "p", "f")));
    assert!(h.filter(&entry("n", "f", "p", "function")));
    assert!(!h.filter(&entry("n", "f", "p", "p")));
    assert!(!h.filter(&entry("n", "f", "p", "v")));
    assert!(!h.filter(&entry("n", "f", "p", "func")));
}

#[test]
fn filters_split_every_kind() {
    for kind in ["f", "function", "p", "prototype", "v", "m", "", "class", "F", "pp"] {
        let e = entry("n", "f", "p", kind);
        assert_ne!(GotoDefinitionHandler.filter(&e), GotoDeclarationHandler.filter(&e));
        if GotoImplementationHandler.filter(&e) {
            assert!(GotoDefinitionHandler.filter(&e));
        }
    }
}

#[test]
fn select_keeps_accepted_records_in_order() {
    let records = vec![
        entry("a", "/1", "a", "p"),
        entry("b", "/2", "b", "f"),
        entry("c", "/3", "c", "v"),
        entry("d", "/4", "d", "prototype"),
    ];
    let kept = GotoDefinitionHandler.select(records);
    assert_eq!(kept.len(), 2);
    assert_eq!(kept[0].name, "b");
    assert_eq!(kept[1].name, "c");
}

#[test]
fn definition_request_resolves_the_function_record() {
    let locations = GotoDefinitionHandler.handle_goto(foo_records(), &vec![a_c()]).unwrap();
    assert_eq!(locations.len(), 1);
    assert_eq!(locations[0].uri, "file:///src/a.c");
    assert_eq!(span(&locations[0]), (4, 4, 4, 7));
}

#[test]
fn declaration_request_resolves_the_prototype_record() {
    let locations = GotoDeclarationHandler.handle_goto(foo_records(), &vec![a_c()]).unwrap();
    assert_eq!(locations.len(), 1);
    assert_eq!(locations[0].uri, "file:///src/a.c");
    assert_eq!(span(&locations[0]), (2, 4, 2, 7));
}

#[test]
fn implementation_request_resolves_the_function_record() {
    let locations = GotoImplementationHandler.handle_goto(foo_records(), &vec![a_c()]).unwrap();
    assert_eq!(locations.len(), 1);
    assert_eq!(span(&locations[0]), (4, 4, 4, 7));
}

#[test]
fn request_without_records_gives_no_locations() {
    assert!(GotoDefinitionHandler.handle_goto(Vec::new(), &Vec::new()).unwrap().is_empty());
    assert!(GotoDeclarationHandler.handle_goto(Vec::new(), &vec![a_c()]).unwrap().is_empty());
    assert!(GotoImplementationHandler.handle_goto(Vec::new(), &Vec::new()).unwrap().is_empty());
}

#[test]
fn request_whose_records_are_all_rejected_needs_no_sources() {
    let records = vec![entry("foo", "/src/unread.c", "int foo();", "p")];
    assert!(GotoImplementationHandler.handle_goto(records, &Vec::new()).unwrap().is_empty());
}

#[test]
fn request_with_unread_file_gives_no_locations() {
    assert!(GotoDefinitionHandler.handle_goto(foo_records(), &Vec::new()).unwrap().is_empty());
}

#[test]
fn symbol_under_cursor_takes_any_column() {
    let mut documents = DocumentsCache::new();
    documents.insert("file:///a.c".to_string(), TextDocument::new("x = foo".to_string()));
    let behind = Position { line: 0, character: 40 };
    assert_eq!(symbol_under_cursor(&documents, "file:///a.c", behind), Ok("foo".to_string()));
    let on_space = Position { line: 0, character: 1 };
    assert_eq!(symbol_under_cursor(&documents, "file:///a.c", on_space), Ok("".to_string()));
}

#[test]
fn symbol_under_cursor_reads_the_open_document() {
    let mut documents = DocumentsCache::new();
    documents.insert("file:///a.c".to_string(), TextDocument::new("int x = foo(1);".to_string()));
    let at = Position { line: 0, character: 9 };
    assert_eq!(symbol_under_cursor(&documents, "file:///a.c", at), Ok("foo".to_string()));
}

#[test]
fn symbol_under_cursor_of_unknown_document_is_not_found() {
    let documents = DocumentsCache::new();
    let at = Position { line: 0, character: 0 };
    assert_eq!(symbol_under_cursor(&documents, "file:///a.c", at), Err(DocumentError::NotFound));
}

#[test]
fn symbol_under_cursor_of_missing_line_is_invalid_data() {
    let mut documents = DocumentsCache::new();
    documents.insert("file:///a.c".to_string(), TextDocument::new("one line".to_string()));
    let at = Position { line: 3, character: 0 };
    assert_eq!(symbol_under_cursor(&documents, "file:///a.c", at), Err(DocumentError::InvalidData));
}

#[test]
fn symbol_after_close_is_not_found() {
    let mut documents = DocumentsCache::new();
    documents.insert("file:///a.c".to_string(), TextDocument::new("foo".to_string()));
    documents.remove("file:///a.c");
    let at = Position { line: 0, character: 1 };
    assert_eq!(symbol_under_cursor(&documents, "file:///a.c", at), Err(DocumentError::NotFound));
}

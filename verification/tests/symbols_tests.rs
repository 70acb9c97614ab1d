use igrep::error::IgrepError;
use igrep::symbols::{
    classify_function, FileLocation, FunctionSite, IndexResult, OneFileLocation, SymbolsJson,
};

fn loc(file: &str, line: u32) -> FileLocation {
    FileLocation::new(file.to_string(), OneFileLocation::new(line, 1, 0, 4))
}

#[test]
fn location_getters_return_their_fields() {
    let l = OneFileLocation::new(7, 3, 120, 9);
    assert_eq!(l.line(), 7);
    assert_eq!(l.column(), 3);
    assert_eq!(l.offset(), 120);
    assert_eq!(l.len(), 9);
    let f = loc("/src/main.c", 7);
    assert_eq!(f.file(), "/src/main.c");
    assert_eq!(f.loc().line(), 7);
}

#[test]
fn classification_follows_the_entity_flags() {
    assert!(matches!(classify_function(true, false), Ok(FunctionSite::Definition)));
    assert!(matches!(classify_function(true, true), Ok(FunctionSite::Definition)));
    assert!(matches!(classify_function(false, true), Ok(FunctionSite::Declaration)));
    assert!(classify_function(false, false).is_err());
}

#[test]
fn system_header_sites_are_ignored() {
    let mut index = IndexResult::new();
    let usr = "c:@F@main".to_string();
    index
        .add_function_site(&usr, loc("/usr/include/x.h", 1), true, true, true)
        .unwrap();
    assert_eq!(index.len(), 0);
}

#[test]
fn sites_are_gathered_under_their_symbol() {
    let mut index = IndexResult::new();
    let usr = "c:@F@main".to_string();
    index
        .add_function_site(&usr, loc("/src/main.c", 3), true, true, false)
        .unwrap();
    index
        .add_function_site(&usr, loc("/src/main.h", 1), false, true, false)
        .unwrap();
    index.add_function_call(&usr, loc("/src/other.c", 9));
    assert_eq!(index.len(), 1);
    let fns = index.get_functions();
    assert_eq!(fns[0].0, "c:@F@main");
    assert_eq!(fns[0].1.definitions().len(), 1);
    assert_eq!(fns[0].1.declarations().len(), 1);
    assert_eq!(fns[0].1.calls().len(), 1);
}

#[test]
fn repeated_sites_are_recorded_once() {
    let mut index = IndexResult::new();
    let usr = "c:@F@twice".to_string();
    index
        .add_function_site(&usr, loc("/src/a.c", 4), true, true, false)
        .unwrap();
    index
        .add_function_site(&usr, loc("/src/a.c", 4), true, true, false)
        .unwrap();
    index.add_function_call(&usr, loc("/src/b.c", 9));
    index.add_function_call(&usr, loc("/src/b.c", 9));
    let fns = index.get_functions();
    assert_eq!(fns[0].1.definitions().len(), 1);
    assert_eq!(fns[0].1.calls().len(), 1);
}

#[test]
fn malformed_entity_is_refused() {
    let mut index = IndexResult::new();
    let usr = "c:@F@ghost".to_string();
    assert_eq!(
        index.add_function_site(&usr, loc("/src/a.c", 1), false, false, false),
        Err(IgrepError::AlreadyExists)
    );
    assert_eq!(index.len(), 0);
}

#[test]
fn viewer_links_are_sorted_by_file_then_line() {
    let mut index = IndexResult::new();
    let usr = "c:@F@f".to_string();
    index.add_function_call(&usr, loc("/src/z.c", 1));
    index.add_function_call(&usr, loc("/src/a.c", 9));
    index.add_function_call(&usr, loc("/src/a.c", 2));
    let symbols = SymbolsJson::from_index(&index).unwrap();
    assert_eq!(symbols.symbols.len(), 1);
    let calls = &symbols.symbols[0].call;
    let got = calls
        .iter()
        .map(|l| (l.file.as_str(), l.line))
        .collect::<Vec<_>>();
    assert_eq!(got, vec![("/src/a.c", 2), ("/src/a.c", 9), ("/src/z.c", 1)]);
}

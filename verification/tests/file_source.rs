use turbo_gc_hmr::file_source::{
    content_plan, description, link_target, redirect_to, ContentError, ContentPlan, FileSource,
    FileSystemEntryType, LinkContent, LinkTarget, WriteLinkTarget,
};

#[test]
fn constructors_default_query_and_fragment_to_empty() {
    let source = FileSource::new("/project/a.js".to_string());
    assert_eq!(source.path, "/project/a.js");
    assert_eq!(source.query, "");
    assert_eq!(source.fragment, "");

    let source = FileSource::new_with_query("/project/a.js", "?raw".to_string());
    assert_eq!(source.query, "?raw");
    assert_eq!(source.fragment, "");

    let source =
        FileSource::new_with_query_and_fragment("/p", "?q".to_string(), "#f".to_string());
    assert_eq!((source.path, source.query.as_str(), source.fragment.as_str()), ("/p", "?q", "#f"));
}

#[test]
fn description_names_the_path() {
    assert_eq!(description("[project]/src/index.js"), "file content of [project]/src/index.js");
}

#[test]
fn content_plan_follows_the_entry_type() {
    assert_eq!(content_plan(FileSystemEntryType::Symlink), Ok(ContentPlan::ReadLink));
    assert_eq!(content_plan(FileSystemEntryType::File), Ok(ContentPlan::ReadFile));
    assert_eq!(content_plan(FileSystemEntryType::NotFound), Ok(ContentPlan::NotFound));
    assert_eq!(
        content_plan(FileSystemEntryType::Directory),
        Err(ContentError::InvalidFileType(FileSystemEntryType::Directory))
    );
    assert_eq!(
        content_plan(FileSystemEntryType::Other),
        Err(ContentError::InvalidFileType(FileSystemEntryType::Other))
    );
    assert_eq!(
        content_plan(FileSystemEntryType::Error),
        Err(ContentError::InvalidFileType(FileSystemEntryType::Error))
    );
}

#[test]
fn error_messages() {
    assert_eq!(ContentError::InvalidSymlink.message(), "Invalid symlink");
    assert_eq!(
        ContentError::InvalidFileType(FileSystemEntryType::Directory).message(),
        "Invalid file type Directory"
    );
}

#[test]
fn invalid_link_is_an_invalid_symlink() {
    assert!(matches!(link_target(LinkContent::Invalid), Err(ContentError::InvalidSymlink)));
    let target = link_target(LinkContent::Link { target: LinkTarget::Relative { raw: "../x".to_string() } });
    assert!(matches!(target, Ok(LinkTarget::Relative { ref raw }) if raw == "../x"));
}

#[test]
fn redirect_keeps_the_link_spelling() {
    let redirect = redirect_to(LinkTarget::Relative { raw: "../lib".to_string() }, FileSystemEntryType::Directory);
    assert!(matches!(redirect.target, WriteLinkTarget::Relative(ref raw) if raw == "../lib"));
    assert!(redirect.is_directory);

    let redirect = redirect_to(
        LinkTarget::Absolute { resolved_path: "opt/data.json".to_string() },
        FileSystemEntryType::File,
    );
    assert!(matches!(redirect.target, WriteLinkTarget::Absolute(ref p) if p == "opt/data.json"));
    assert!(!redirect.is_directory);
}

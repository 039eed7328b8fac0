//! A raw source: the content found at a path, with the query and fragment it was requested with,
//! and the decisions that turn what the filesystem reports at that path into asset content.
use vstd::prelude::*;
use vstd::string::StringExecFns;

verus! {

/// The raw source at `path`: its content without any references to other sources.
pub struct FileSource<P> {
    pub path: P,
    pub query: String,
    pub fragment: String,
}

impl<P> FileSource<P> {
    /// The source at `path`, with an empty query and fragment.
    pub fn new(path: P) -> (source: Self)
        ensures
            source.path == path,
            source.query@ == Seq::<char>::empty(),
            source.fragment@ == Seq::<char>::empty(),
    {
        FileSource::new_with_query_and_fragment(path, String::new(), String::new())
    }

    /// The source at `path` with `query`, and an empty fragment.
    pub fn new_with_query(path: P, query: String) -> (source: Self)
        ensures
            source.path == path,
            source.query == query,
            source.fragment@ == Seq::<char>::empty(),
    {
        FileSource::new_with_query_and_fragment(path, query, String::new())
    }

    /// The source at `path` with `query` and `fragment`.
    pub fn new_with_query_and_fragment(path: P, query: String, fragment: String) -> (source: Self)
        ensures
            source.path == path,
            source.query == query,
            source.fragment == fragment,
    {
        FileSource { path, query, fragment }
    }
}

/// The description of a source whose path displays as `path_display`.
pub fn description(path_display: &str) -> (text: String)
    ensures
        text@ == "file content of "@ + path_display@,
{
    let prefix = String::from_str("file content of ");
    prefix.concat(path_display)
}

/// The kind of entry the filesystem reports at a path.
#[derive(Clone, Copy, PartialEq, Eq, Debug, Structural)]
pub enum FileSystemEntryType {
    NotFound,
    File,
    Directory,
    Symlink,
    Other,
    Error,
}

/// The name of an entry type.
pub open spec fn entry_type_name(file_type: FileSystemEntryType) -> Seq<char> {
    match file_type {
        FileSystemEntryType::NotFound => "NotFound"@,
        FileSystemEntryType::File => "File"@,
        FileSystemEntryType::Directory => "Directory"@,
        FileSystemEntryType::Symlink => "Symlink"@,
        FileSystemEntryType::Other => "Other"@,
        FileSystemEntryType::Error => "Error"@,
    }
}

impl FileSystemEntryType {
    /// The entry type's name.
    pub fn name(&self) -> (text: &'static str)
        ensures
            text@ == entry_type_name(*self),
    {
        match self {
            FileSystemEntryType::NotFound => "NotFound",
            FileSystemEntryType::File => "File",
            FileSystemEntryType::Directory => "Directory",
            FileSystemEntryType::Symlink => "Symlink",
            FileSystemEntryType::Other => "Other",
            FileSystemEntryType::Error => "Error",
        }
    }
}

/// Why a source has no content.
#[derive(Clone, Copy, PartialEq, Eq, Debug, Structural)]
pub enum ContentError {
    /// The path is a symlink, but it could not be read as a link.
    InvalidSymlink,
    /// The path is neither a file, a symlink, nor missing.
    InvalidFileType(FileSystemEntryType),
}

/// The message of a content error.
pub open spec fn content_error_message(error: ContentError) -> Seq<char> {
    match error {
        ContentError::InvalidSymlink => "Invalid symlink"@,
        ContentError::InvalidFileType(file_type) => "Invalid file type "@ + entry_type_name(
            file_type,
        ),
    }
}

impl ContentError {
    /// The error's message.
    pub fn message(&self) -> (text: String)
        ensures
            text@ == content_error_message(*self),
    {
        match self {
            ContentError::InvalidSymlink => String::from_str("Invalid symlink"),
            ContentError::InvalidFileType(file_type) => String::from_str(
                "Invalid file type ",
            ).concat(file_type.name()),
        }
    }
}

/// What has to be read to produce a source's content.
#[derive(Clone, Copy, PartialEq, Eq, Debug, Structural)]
pub enum ContentPlan {
    /// Read the link at the path and redirect to its target.
    ReadLink,
    /// Read the file at the path.
    ReadFile,
    /// The content is the not-found file content.
    NotFound,
}

/// How a source's content is obtained from the type of the entry at its path: a symlink is
/// followed as a redirect, a file is read, a missing entry gives the not-found content, and any
/// other entry is an error.
pub fn content_plan(file_type: FileSystemEntryType) -> (plan: Result<ContentPlan, ContentError>)
    ensures
        plan == (match file_type {
            FileSystemEntryType::Symlink => Ok::<ContentPlan, ContentError>(ContentPlan::ReadLink),
            FileSystemEntryType::File => Ok(ContentPlan::ReadFile),
            FileSystemEntryType::NotFound => Ok(ContentPlan::NotFound),
            other => Err(ContentError::InvalidFileType(other)),
        }),
{
    match file_type {
        FileSystemEntryType::Symlink => Ok(ContentPlan::ReadLink),
        FileSystemEntryType::File => Ok(ContentPlan::ReadFile),
        FileSystemEntryType::NotFound => Ok(ContentPlan::NotFound),
        other => Err(ContentError::InvalidFileType(other)),
    }
}

/// Where a link points, as read from the filesystem.
pub enum LinkTarget {
    /// An absolute target, with the path it resolves to from the filesystem root.
    Absolute { resolved_path: String },
    /// A relative target, as spelled in the link.
    Relative { raw: String },
}

/// What reading a link gives.
pub enum LinkContent {
    /// A link and its target.
    Link { target: LinkTarget },
    /// Anything else: not a link, or not readable as one.
    Invalid,
}

/// The target a redirect recreates the link with.
pub enum WriteLinkTarget {
    Absolute(String),
    Relative(String),
}

/// A redirect to a link's target.
pub struct Redirect {
    pub target: WriteLinkTarget,
    /// Whether the target is a directory (directory links must be junction points on Windows).
    pub is_directory: bool,
}

/// The target of the link read at a symlink's path, or an error when it is not a link.
pub fn link_target(link: LinkContent) -> (target: Result<LinkTarget, ContentError>)
    ensures
        match link {
            LinkContent::Link { target: t } => target == Ok::<LinkTarget, ContentError>(t),
            LinkContent::Invalid => target == Err::<LinkTarget, ContentError>(
                ContentError::InvalidSymlink,
            ),
        },
{
    match link {
        LinkContent::Link { target } => Ok(target),
        LinkContent::Invalid => Err(ContentError::InvalidSymlink),
    }
}

/// The redirect for a link: the link is recreated with its original spelling, so a relative link
/// stays relative and an absolute one is written back from the filesystem root; `target_type` is
/// the type of the entry the link points to.
pub fn redirect_to(target: LinkTarget, target_type: FileSystemEntryType) -> (redirect: Redirect)
    ensures
        match target {
            LinkTarget::Absolute { resolved_path } => redirect.target == WriteLinkTarget::Absolute(
                resolved_path,
            ),
            LinkTarget::Relative { raw } => redirect.target == WriteLinkTarget::Relative(raw),
        },
        redirect.is_directory == (target_type == FileSystemEntryType::Directory),
{
    let write_target = match target {
        LinkTarget::Absolute { resolved_path } => WriteLinkTarget::Absolute(resolved_path),
        LinkTarget::Relative { raw } => WriteLinkTarget::Relative(raw),
    };
    Redirect { target: write_target, is_directory: target_type == FileSystemEntryType::Directory }
}

} // verus!

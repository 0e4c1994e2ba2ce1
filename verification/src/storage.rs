//! Table URIs and listings of a blob store.
use crate::model::DeltaError;
use crate::table::ObjectMeta;
use crate::text::{ends_with_char, has_prefix, starts_with, trim_slashes, trim_slashes_of};
use vstd::prelude::*;

verus! {

/// The parts of a URL that the library reads, as plain values.
#[derive(Debug, Clone)]
pub struct UrlParts {
    /// The URL as text.
    pub text: String,
    pub scheme: String,
    pub path: String,
}

pub struct UrlModel {
    pub text: Seq<char>,
    pub scheme: Seq<char>,
    pub path: Seq<char>,
}

impl DeepView for UrlParts {
    type V = UrlModel;

    open spec fn deep_view(&self) -> UrlModel {
        UrlModel { text: self.text@, scheme: self.scheme@, path: self.path@ }
    }
}

/// A table's URI, parsed: the URL as text, its scheme, and the path of the
/// table's root in the blob store.
#[derive(Debug, Clone)]
pub struct ParsedUri {
    pub url: String,
    pub scheme: String,
    pub root: String,
}

impl DeepView for ParsedUri {
    type V = UrlModel;

    open spec fn deep_view(&self) -> UrlModel {
        UrlModel { text: self.url@, scheme: self.scheme@, path: self.root@ }
    }
}

/// The URL that `url::Url::parse` reads from `uri`, or `None` where it
/// rejects the text.
pub uninterp spec fn url_parsed(uri: Seq<char>) -> Option<UrlModel>;

/// `url::Url::parse`, with the URL that it reads handed out as text
/// (`as_str`), scheme (`scheme`) and path (`path`). The contract only names
/// the outcome.
#[verifier::external_body]
fn url_parse(uri: &str) -> (r: Option<UrlParts>)
    ensures
        r.deep_view() == url_parsed(uri@),
{
    match url::Url::parse(uri) {
        Ok(u) => Some(
            UrlParts { text: u.as_str().to_owned(), scheme: u.scheme().to_owned(), path: u.path().to_owned() },
        ),
        Err(_) => None,
    }
}

/// `url::Url::from_file_path`, with the URL that it builds handed out as
/// text, scheme and path. It rejects a path that is not absolute; what it
/// builds is a URL of the `file` scheme. How it reads a path depends on the
/// platform, so the contract says no more.
#[verifier::external_body]
fn url_from_file_path(path: &str) -> (r: Option<UrlParts>)
    ensures
        r matches Some(p) ==> p.scheme@ == "file"@,
{
    match url::Url::from_file_path(path) {
        Ok(u) => Some(
            UrlParts { text: u.as_str().to_owned(), scheme: u.scheme().to_owned(), path: u.path().to_owned() },
        ),
        Err(_) => None,
    }
}

/// Whether `uri` begins with one of the schemes that are parsed as URLs.
pub open spec fn names_scheme(uri: Seq<char>) -> bool {
    has_prefix(uri, "s3://"@) || has_prefix(uri, "gs://"@) || has_prefix(uri, "az://"@) || has_prefix(
        uri,
        "abfs://"@,
    ) || has_prefix(uri, "file://"@)
}

/// The path of an object in the blob store that a URL path stands for: the
/// path without its leading slashes.
pub fn object_path_from_url(path: &str) -> (r: String)
    ensures
        r@ == trim_slashes(path@),
{
    trim_slashes_of(path)
}

/// What a parsed URL gives for a table: the URL, with the path of the root
/// in place of the URL's path. No URL gives no table.
pub open spec fn spec_parsed_from(parts: Option<UrlModel>) -> Result<UrlModel, DeltaError> {
    match parts {
        Some(p) => Ok(UrlModel { text: p.text, scheme: p.scheme, path: trim_slashes(p.path) }),
        None => Err(DeltaError::InvalidUri),
    }
}

/// The model of the outcome of parsing a URI.
pub open spec fn outcome_model(r: Result<ParsedUri, DeltaError>) -> Result<UrlModel, DeltaError> {
    match r {
        Ok(p) => Ok(p.deep_view()),
        Err(e) => Err(e),
    }
}

/// What a parsed URL gives for a table.
pub fn parsed_from(parts: Option<UrlParts>) -> (r: Result<ParsedUri, DeltaError>)
    ensures
        outcome_model(r) == spec_parsed_from(parts.deep_view()),
{
    match parts {
        Some(p) => {
            let root = object_path_from_url(p.path.as_str());
            Ok(ParsedUri { url: p.text, scheme: p.scheme, root })
        },
        None => Err(DeltaError::InvalidUri),
    }
}

/// Parses the URI of a table.
///
/// A URI that begins with `s3://`, `gs://`, `az://`, `abfs://` or `file://`
/// is read as a URL. Any other is taken for the path of a local file, which
/// must be absolute, and gives a URL of the `file` scheme.
pub fn parse_uri(uri: &str) -> (r: Result<ParsedUri, DeltaError>)
    ensures
        names_scheme(uri@) ==> outcome_model(r) == spec_parsed_from(url_parsed(uri@)),
        !names_scheme(uri@) ==> match r {
            Ok(p) => p.scheme@ == "file"@ && (p.root@.len() == 0 || p.root@[0] != '/'),
            Err(e) => e == DeltaError::InvalidUri,
        },
{
    if starts_with(uri, "s3://") || starts_with(uri, "gs://") || starts_with(uri, "az://") || starts_with(
        uri,
        "abfs://",
    ) || starts_with(uri, "file://") {
        parsed_from(url_parse(uri))
    } else {
        let parts = url_from_file_path(uri);
        proof {
            if parts is Some {
                crate::text::lemma_trimmed(parts->Some_0.path@);
            }
        }
        parsed_from(parts)
    }
}

/// A listed object that is a file, not a directory: its location does not
/// end with a slash.
pub open spec fn is_file_entry() -> spec_fn(ObjectMeta) -> bool {
    |m: ObjectMeta| !(m.location@.len() > 0 && m.location@.last() == '/')
}

/// Drops from a listing the entries that stand for directories, keeping the
/// order of the others.
pub fn retain_files(listing: Vec<ObjectMeta>) -> (r: Vec<ObjectMeta>)
    ensures
        r@ == listing@.filter(is_file_entry()),
{
    let ghost all = listing@;
    let mut r: Vec<ObjectMeta> = Vec::new();
    for m in it: listing
        invariant
            it.seq() == all,
            r@ == all.take(it.index()).filter(is_file_entry()),
    {
        proof {
            let seen = all.take(it.index());
            assert(all.take(it.index() + 1) =~= seen.push(m));
            seen.lemma_filter_push(m, is_file_entry());
        }
        if !ends_with_char(m.location.as_str(), '/') {
            r.push(m);
        }
    }
    assert(all.take(all.len() as int) =~= all);
    r
}

} // verus!

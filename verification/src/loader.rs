//! Decisions taken while loading data: which decompression a source needs,
//! how a URL is fetched, and reading a serial.
use vstd::prelude::*;
use crate::names::digits_value;
use crate::text::{chars_of, opt_view, split_chars, split_on, string_of, trim_chars, trimmed, views};

verus! {

/// The size of the buffer into which the start of an FTP transfer is peeked
/// to recognise its type.
pub const MIME_BUFFER_SIZE: usize = 8192;

/// The port of the FTP command channel where a URL names none.
pub const FTP_CMD_DEFAULT_PORT: u16 = 21;

/// A compression that a source may come in.
#[derive(Clone, Copy, PartialEq, Eq, Structural)]
pub enum CompressionType {
    Gzip,
}

/// The compression that a media type names, if it is one that is supported.
pub open spec fn compression_of_media_type(media_type: Seq<char>) -> Option<CompressionType> {
    if media_type == "application/gzip"@ {
        Some(CompressionType::Gzip)
    } else {
        None
    }
}

/// The compression that a media type names, if it is one that is supported.
pub fn supported_compression(media_type: &String) -> (r: Option<CompressionType>)
    ensures
        r == compression_of_media_type(media_type@),
{
    if *media_type == "application/gzip".to_owned() {
        Some(CompressionType::Gzip)
    } else {
        None
    }
}

/// The first supported compression among `media_types`.
pub open spec fn first_compression(media_types: Seq<Seq<char>>) -> Option<CompressionType>
    decreases media_types.len(),
{
    if media_types.len() == 0 {
        None
    } else if compression_of_media_type(media_types[0]) is Some {
        compression_of_media_type(media_types[0])
    } else {
        first_compression(media_types.drop_first())
    }
}

/// The first supported compression among `media_types`.
pub fn find_compression(media_types: &Vec<String>) -> (r: Option<CompressionType>)
    ensures
        r == first_compression(views(media_types@)),
{
    let ghost all = views(media_types@);
    assert(all.skip(0) =~= all);
    let mut i: usize = 0;
    while i < media_types.len()
        invariant
            i <= media_types@.len(),
            all == views(media_types@),
            first_compression(all) == first_compression(all.skip(i as int)),
        decreases media_types@.len() - i,
    {
        let ghost rest = all.skip(i as int);
        assert(rest[0] == all[i as int]);
        assert(rest.drop_first() =~= all.skip(i + 1));
        let found = supported_compression(&media_types[i]);
        if found.is_some() {
            return found;
        }
        i = i + 1;
    }
    None
}

/// The media types of each file type that `file_type` knows by the file name
/// extension `extension`.
pub uninterp spec fn extension_media_types(extension: Seq<char>) -> Seq<Seq<Seq<char>>>;

/// `FileType::from_extension`, each file type read out as its media types.
#[verifier::external_body]
fn media_types_for_extension(extension: &str) -> (r: Vec<Vec<String>>)
    ensures
        r@.map_values(|v: Vec<String>| views(v@)) == extension_media_types(extension@),
{
    file_type::FileType::from_extension(extension)
        .iter()
        .map(|f| f.media_types().iter().map(|m| m.to_string()).collect())
        .collect()
}

/// The media types of the file type that `file_type` recognises in `bytes`.
pub uninterp spec fn sniffed_media_types(bytes: Seq<u8>) -> Seq<Seq<char>>;

/// `FileType::from_bytes`, read out as the media types of the file type.
#[verifier::external_body]
fn media_types_for_bytes(bytes: &[u8]) -> (r: Vec<String>)
    ensures
        views(r@) == sniffed_media_types(bytes@),
{
    file_type::FileType::from_bytes(bytes).media_types().iter().map(|m| m.to_string()).collect()
}

/// All elements of all of `lists`, in order.
pub open spec fn flatten_all(lists: Seq<Seq<Seq<char>>>) -> Seq<Seq<char>>
    decreases lists.len(),
{
    if lists.len() == 0 {
        Seq::empty()
    } else {
        flatten_all(lists.drop_last()) + lists.last()
    }
}

/// The extension of `path`: what follows its last `.`, or all of it.
pub open spec fn extension_of(path: Seq<char>) -> Seq<char> {
    split_on(path, '.').last()
}

/// The decompression to apply given the media types that the extension
/// names and those that the first bytes show (where they are known): the
/// compression found by either; where both are found and differ, the first
/// bytes win.
pub open spec fn decompression_from(extension_types: Seq<Seq<char>>, byte_types: Option<Seq<Seq<char>>>) -> Option<
    CompressionType,
> {
    let by_extension = first_compression(extension_types);
    let by_bytes = match byte_types {
        Some(types) => first_compression(types),
        None => None,
    };
    match (by_extension, by_bytes) {
        (Some(e), None) => Some(e),
        (None, Some(b)) => Some(b),
        (Some(e), Some(b)) => if e == b {
            Some(e)
        } else {
            Some(b)
        },
        (None, None) => None,
    }
}

/// The decompression that a source at `path` needs, by the media types of its
/// extension and of its first bytes.
pub open spec fn decompression_for(path: Seq<char>, sniffed: Option<Seq<u8>>) -> Option<CompressionType> {
    decompression_from(
        flatten_all(extension_media_types(extension_of(path))),
        match sniffed {
            Some(bytes) => Some(sniffed_media_types(bytes)),
            None => None,
        },
    )
}

/// The decompression to apply given the media types that the extension
/// names and, where the first bytes are known, those they show.
pub fn decompression_by_media_types(extension_types: &Vec<String>, byte_types: Option<Vec<String>>) -> (r: Option<
    CompressionType,
>)
    ensures
        r == decompression_from(
            views(extension_types@),
            match byte_types {
                Some(t) => Some(views(t@)),
                None => None,
            },
        ),
{
    let by_extension = find_compression(extension_types);
    let by_bytes = match byte_types {
        Some(types) => find_compression(&types),
        None => None,
    };
    match (by_extension, by_bytes) {
        (Some(e), None) => Some(e),
        (None, Some(b)) => Some(b),
        (Some(e), Some(b)) => if e == b {
            Some(e)
        } else {
            Some(b)
        },
        (None, None) => None,
    }
}

/// The decompression that a source at `path` needs, judged by its extension
/// and by `sniffed`, the first bytes of the data where they are known.
pub fn choose_decompression(path: &str, sniffed: Option<&[u8]>) -> (r: Option<CompressionType>)
    ensures
        r == decompression_for(
            path@,
            match sniffed {
                Some(b) => Some(b@),
                None => None,
            },
        ),
{
    let pieces = split_chars(&chars_of(path), '.');
    proof {
        crate::text::lemma_split_on_nonempty(path@, '.');
    }
    let extension = string_of(pieces[pieces.len() - 1].as_slice());
    assert(extension@ == extension_of(path@));
    let per_type = media_types_for_extension(extension.as_str());
    let mut extension_types: Vec<String> = Vec::new();
    let mut i: usize = 0;
    while i < per_type.len()
        invariant
            i <= per_type@.len(),
            views(extension_types@) == flatten_all(per_type@.map_values(|v: Vec<String>| views(v@)).take(i as int)),
        decreases per_type@.len() - i,
    {
        crate::text::extend_strings(&mut extension_types, &per_type[i]);
        proof {
            let all = per_type@.map_values(|v: Vec<String>| views(v@));
            assert(all.take(i + 1).drop_last() =~= all.take(i as int));
            assert(all.take(i + 1).last() == views(per_type@[i as int]@));
        }
        i = i + 1;
    }
    proof {
        let all = per_type@.map_values(|v: Vec<String>| views(v@));
        assert(all.take(per_type@.len() as int) =~= all);
    }
    let byte_types = match sniffed {
        Some(bytes) => Some(media_types_for_bytes(bytes)),
        None => None,
    };
    decompression_by_media_types(&extension_types, byte_types)
}

/// Whether an HTTP response with status `code` is read: a success status,
/// 200 to 299, as `StatusCode::is_success` decides.
pub fn is_success_status(code: u16) -> (b: bool)
    ensures
        b == (200 <= code && code <= 299),
{
    200 <= code && code <= 299
}

/// Whether a peek of `peeked` bytes into the buffer is used to recognise
/// the type of an FTP transfer: it must have read something, and no more
/// than the buffer holds.
pub fn peek_is_usable(peeked: usize) -> (b: bool)
    ensures
        b == (0 < peeked && peeked <= MIME_BUFFER_SIZE),
{
    peeked <= MIME_BUFFER_SIZE && peeked > 0
}


// ---------------------------------------------------------------------------
// URLs and files
// ---------------------------------------------------------------------------

/// How a URL is fetched.
pub enum UrlPlan {
    /// Over FTP, from the command channel at `host` and `port`.
    Ftp { host: String, port: u16 },
    /// Over HTTP or HTTPS.
    Http,
    /// From the local file that the URL names.
    File,
}

/// Why a URL cannot be fetched.
pub enum UrlPlanError {
    /// The scheme is none of `ftp`, `http`, `https` and `file`.
    UnsupportedSchema(String),
    /// An FTP URL without a host.
    NoHost,
    /// A `file` URL that names no local file.
    InvalidFileUrl,
    /// An empty source.
    EmptySource,
}

/// How to fetch a URL with scheme `scheme`, host `host` and port `port` (the
/// port the URL names or the known default of its scheme).
pub fn plan_url(scheme: &str, host: Option<String>, port: Option<u16>) -> (r: Result<UrlPlan, UrlPlanError>)
    ensures
        scheme@ == "ftp"@ ==> match host {
            None => r matches Err(UrlPlanError::NoHost),
            Some(h) => r matches Ok(UrlPlan::Ftp { host: rh, port: rp }) && rh@ == h@ && rp == match port {
                Some(p) => p,
                None => FTP_CMD_DEFAULT_PORT,
            },
        },
        (scheme@ == "http"@ || scheme@ == "https"@) ==> r matches Ok(UrlPlan::Http),
        scheme@ == "file"@ ==> r matches Ok(UrlPlan::File),
        !(scheme@ == "ftp"@ || scheme@ == "http"@ || scheme@ == "https"@ || scheme@ == "file"@) ==> (
        r matches Err(UrlPlanError::UnsupportedSchema(s)) && s@ == scheme@),
{
    proof {
        reveal_strlit("ftp");
        reveal_strlit("http");
        reveal_strlit("https");
        reveal_strlit("file");
        assert("ftp"@ != "http"@ && "ftp"@ != "https"@ && "ftp"@ != "file"@) by {
            assert("ftp"@.len() != "http"@.len());
            assert("ftp"@.len() != "https"@.len());
            assert("ftp"@.len() != "file"@.len());
        }
        assert("file"@ != "http"@ && "file"@ != "https"@) by {
            assert("file"@[0] != "http"@[0]);
            assert("file"@.len() != "https"@.len());
        }
    }
    let sch = scheme.to_owned();
    if sch == "ftp".to_owned() {
        match host {
            None => Err(UrlPlanError::NoHost),
            Some(h) => {
                let p = match port {
                    Some(p) => p,
                    None => FTP_CMD_DEFAULT_PORT,
                };
                Ok(UrlPlan::Ftp { host: h, port: p })
            },
        }
    } else if sch == "http".to_owned() || sch == "https".to_owned() {
        Ok(UrlPlan::Http)
    } else if sch == "file".to_owned() {
        Ok(UrlPlan::File)
    } else {
        Err(UrlPlanError::UnsupportedSchema(sch))
    }
}

/// A source's location as a URL: its scheme, host, port (the one it names or
/// the known default of its scheme), path, and the local file it names
/// where it is a `file` URL that names one.
pub struct SourceUrl {
    pub scheme: String,
    pub host: Option<String>,
    pub port: Option<u16>,
    pub path: String,
    pub file_path: Option<String>,
}

/// The parts of a parsed URL, as plain values.
pub type UrlParts = (Seq<char>, Option<Seq<char>>, Option<u16>, Seq<char>, Option<Seq<char>>);

pub open spec fn source_url_view(r: Option<SourceUrl>) -> Option<UrlParts> {
    match r {
        Some(u) => Some((u.scheme@, opt_view(u.host), u.port, u.path@, opt_view(u.file_path))),
        None => None,
    }
}

/// What `url::Url::parse` makes of a text, read out as `scheme()`,
/// `host_str()`, `port_or_known_default()`, `path()` and `to_file_path()`;
/// none where it does not parse.
pub uninterp spec fn url_parts(text: Seq<char>) -> Option<UrlParts>;

/// `Url::parse` (of the `url` crate, as `reqwest` exports it), with the parts
/// of the URL read out as plain values. The result is named by `url_parts`.
#[verifier::external_body]
fn parse_url(text: &str) -> (r: Option<SourceUrl>)
    ensures
        source_url_view(r) == url_parts(text@),
{
    reqwest::Url::parse(text).ok().map(|u| SourceUrl {
        scheme: u.scheme().to_string(),
        host: u.host_str().map(String::from),
        port: u.port_or_known_default(),
        path: u.path().to_string(),
        file_path: u.to_file_path().ok().and_then(|p| p.to_str().map(String::from)),
    })
}

/// How a configured source is fetched.
pub enum SourcePlan {
    /// Over FTP: the file at `path` from the command channel at `host` and
    /// `port`.
    Ftp { host: String, port: u16, path: String },
    /// Over HTTP or HTTPS, from `url`.
    Http { url: String },
    /// From the local file at `path`.
    File { path: String },
}

/// How to fetch the source `text`: a URL by its scheme (as `plan_url`
/// decides), and a text that is no URL as the path of a local file.
pub fn plan_source(text: &str) -> (r: Result<SourcePlan, UrlPlanError>)
    ensures
        match url_parts(text@) {
            Some((scheme, host, port, path, file_path)) => {
                &&& scheme == "ftp"@ ==> match host {
                    None => r matches Err(UrlPlanError::NoHost),
                    Some(h) => r matches Ok(SourcePlan::Ftp { host: rh, port: rp, path: rpath }) && rh@ == h
                        && rp == match port {
                        Some(p) => p,
                        None => FTP_CMD_DEFAULT_PORT,
                    } && rpath@ == path,
                }
                &&& (scheme == "http"@ || scheme == "https"@) ==> (r matches Ok(SourcePlan::Http { url })
                    && url@ == text@)
                &&& scheme == "file"@ ==> match file_path {
                    Some(fp) => r matches Ok(SourcePlan::File { path: rp }) && rp@ == fp,
                    None => r matches Err(UrlPlanError::InvalidFileUrl),
                }
                &&& !(scheme == "ftp"@ || scheme == "http"@ || scheme == "https"@ || scheme == "file"@) ==> (
                r matches Err(UrlPlanError::UnsupportedSchema(s)) && s@ == scheme)
            },
            None => if text@.len() > 0 {
                r matches Ok(SourcePlan::File { path }) && path@ == text@
            } else {
                r matches Err(UrlPlanError::EmptySource)
            },
        },
{
    match parse_url(text) {
        Some(url) => {
            match plan_url(url.scheme.as_str(), url.host, url.port) {
                Ok(UrlPlan::Ftp { host, port }) => Ok(SourcePlan::Ftp { host, port, path: url.path }),
                Ok(UrlPlan::Http) => Ok(SourcePlan::Http { url: text.to_owned() }),
                Ok(UrlPlan::File) => match url.file_path {
                    Some(path) => Ok(SourcePlan::File { path }),
                    None => Err(UrlPlanError::InvalidFileUrl),
                },
                Err(e) => Err(e),
            }
        },
        None => {
            if chars_of(text).len() > 0 {
                Ok(SourcePlan::File { path: text.to_owned() })
            } else {
                Err(UrlPlanError::EmptySource)
            }
        },
    }
}

#[verifier::external_type_specification]
#[verifier::external_body]
pub struct ExIoError(std::io::Error);

/// Why a local file cannot be loaded.
pub enum LoadFromFileError {
    /// The file could not be opened.
    Open(std::io::Error),
    /// Its path is not valid UTF-8.
    NonUtf8Path,
}

// ---------------------------------------------------------------------------
// Serials
// ---------------------------------------------------------------------------

#[verifier::external_type_specification]
#[verifier::external_body]
pub struct ExParseIntError(std::num::ParseIntError);

/// The number that `s` writes: an optional `+` and one or more decimal
/// digits; none for any other text.
pub open spec fn unsigned_value(s: Seq<char>) -> Option<nat> {
    let digits = if s.len() > 0 && s[0] == '+' {
        s.drop_first()
    } else {
        s
    };
    if digits.len() > 0 && forall|k: int| 0 <= k < digits.len() ==> '0' <= #[trigger] digits[k] <= '9' {
        Some(digits_value(digits))
    } else {
        None
    }
}

/// `str::parse::<u128>`: the number that the text writes, where it writes
/// one that fits in a `u128`.
#[verifier::external_body]
fn parse_u128(s: &str) -> (r: Result<u128, std::num::ParseIntError>)
    ensures
        match r {
            Ok(v) => unsigned_value(s@) == Some(v as nat),
            Err(_) => unsigned_value(s@) is None || unsigned_value(s@).unwrap() > u128::MAX,
        },
{
    s.parse::<u128>()
}

/// The serial a data source starts from: the one fetched from its serial file
/// where that was read and fits in 64 bits, the configured one otherwise.
pub fn starting_serial(fetched: Option<u128>, configured: u64) -> (r: u64)
    ensures
        r == match fetched {
            Some(v) => if v <= u64::MAX {
                v as u64
            } else {
                configured
            },
            None => configured,
        },
{
    match fetched {
        Some(v) => if v <= u64::MAX as u128 {
            v as u64
        } else {
            configured
        },
        None => configured,
    }
}

/// The serial that the text of a serial file writes, white space around it
/// ignored.
pub fn parse_serial(text: &str) -> (r: Result<u128, std::num::ParseIntError>)
    ensures
        match r {
            Ok(v) => unsigned_value(trimmed(text@)) == Some(v as nat),
            Err(_) => unsigned_value(trimmed(text@)) is None || unsigned_value(trimmed(text@)).unwrap()
                > u128::MAX,
        },
{
    let t = string_of(trim_chars(&chars_of(text)).as_slice());
    parse_u128(t.as_str())
}

} // verus!

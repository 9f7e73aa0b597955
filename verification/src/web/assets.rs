//! What a request for a file is answered with.
use vstd::prelude::*;

use crate::text::{self, begins, without_leading};

use super::cdn::{safe_path, stays_below, upstream_of, upstream_url};

verus! {

/// How long a cached image may be kept: its name stands for its contents.
pub const CACHE_CONTROL: &'static str = "public, max-age=31536000, immutable";

/// The media type that `mime_guess::from_path` gives a path by its extension,
/// or `application/octet-stream` where it gives none.
pub uninterp spec fn media_type(path: Seq<char>) -> Seq<char>;

/// The path means the same on every system: it holds neither a backslash nor a
/// colon, and does not begin with two slashes.
pub open spec fn portable(path: Seq<char>) -> bool {
    !path.contains('\\') && !path.contains(':') && !begins(path, "//"@)
}

/// `mime_guess::from_path` with `first_or_octet_stream`: the type goes by the
/// extension of the path alone. Where the path holds a backslash or a colon or
/// begins with two slashes, what counts as its extension is the system's to
/// say, and nothing is said of the type.
#[verifier::external_body]
fn guess(path: &str) -> (r: String)
    ensures
        portable(path@) ==> r@ == media_type(path@),
{
    mime_guess::from_path(path).first_or_octet_stream().as_ref().to_string()
}

/// The name of the file that an address without host asks for: what follows
/// the slashes at its beginning, or else the index.
pub open spec fn asset_of(path: Seq<char>) -> Seq<char> {
    if without_leading(path, '/').len() == 0 {
        "index.html"@
    } else {
        without_leading(path, '/')
    }
}

/// The name of the file that an address without host asks for.
pub fn asset_name(path: &str) -> (r: String)
    ensures
        r@ == asset_of(path@),
{
    let name = text::drop_leading(path, '/');
    if text::chars_of(name.as_str()).len() == 0 {
        text::owned("index.html")
    } else {
        name
    }
}

/// The answer to a request for a file.
#[derive(Debug)]
pub enum AssetReply {
    /// The path is refused.
    Invalid,
    /// The file, with its media type.
    File(String),
    /// The file is elsewhere.
    Redirect(String),
    /// There is no such file.
    Unknown,
}

impl AssetReply {
    /// The status of the answer.
    pub fn status(&self) -> (r: u16)
        ensures
            r == match self {
                AssetReply::Invalid => 400int,
                AssetReply::File(_) => 200int,
                AssetReply::Redirect(_) => 302int,
                AssetReply::Unknown => 404int,
            },
    {
        match self {
            AssetReply::Invalid => 400,
            AssetReply::File(_) => 200,
            AssetReply::Redirect(_) => 302,
            AssetReply::Unknown => 404,
        }
    }
}

/// The answer is the file with the type that its path gives.
pub open spec fn is_file_reply(r: AssetReply, path: Seq<char>) -> bool {
    r matches AssetReply::File(kind) && (portable(path) ==> kind@ == media_type(path))
}

/// The answer to a request for a file of the interface itself.
pub fn asset_reply(name: &str, found: bool) -> (r: AssetReply)
    ensures
        found ==> is_file_reply(r, name@),
        !found ==> r is Unknown,
{
    if found {
        AssetReply::File(guess(name))
    } else {
        AssetReply::Unknown
    }
}

/// The answer to a request for an image: nothing outside the cache is served,
/// a file of the cache is sent (`local` is its path, where it could be read),
/// and any other known path leads to where the image comes from.
pub fn image_reply(path: &str, local: Option<&str>) -> (r: AssetReply)
    ensures
        !stays_below(path@) ==> r is Invalid,
        stays_below(path@) && local is Some ==> is_file_reply(r, local.unwrap()@),
        stays_below(path@) && local is None ==> match upstream_of(path@) {
            Some(url) => r matches AssetReply::Redirect(u) && u@ == url,
            None => r is Unknown,
        },
{
    if !safe_path(path) {
        return AssetReply::Invalid;
    }
    match local {
        Some(file) => AssetReply::File(guess(file)),
        None => match upstream_url(path) {
            Some(url) => AssetReply::Redirect(url),
            None => AssetReply::Unknown,
        },
    }
}

/// The file that an address asks for is what stands behind its slashes, and the
/// index where nothing does.
pub proof fn law_asset_names(n: nat, name: Seq<char>)
    requires
        name.len() > 0 ==> name[0] != '/',
    ensures
        name.len() > 0 ==> asset_of(Seq::new(n, |i: int| '/') + name) == name,
        name.len() == 0 ==> asset_of(Seq::new(n, |i: int| '/') + name) == "index.html"@,
{
    text::law_without_leading(n, '/', name);
}

} // verus!

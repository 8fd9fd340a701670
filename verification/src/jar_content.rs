//! The addresses and the contents of files in archives.

use vstd::prelude::*;
use crate::archive::{archive_of, zip_open, zip_read, Member, MemberView};
use crate::index::jar::entry_path;
use crate::text::{chars_of, concat2, concat3, find_chars, find_from, string_of, unprefixed};

verus! {

/// `tower_lsp::lsp_types::Url`, a parsed address.
#[verifier::external_type_specification]
#[verifier::external_body]
pub struct ExUrl(tower_lsp::lsp_types::Url);

/// What `tower_lsp::lsp_types::Url::parse` says is wrong with an address; `None` where
/// nothing is.
pub uninterp spec fn url_error(address: Seq<char>) -> Option<Seq<char>>;

/// `tower_lsp::lsp_types::Url::parse`: whether an address is one, and what is wrong with
/// it where it is not, depend on its text alone. What the address says is not stated.
#[verifier::external_body]
fn url_parse(address: &str) -> (r: Result<tower_lsp::lsp_types::Url, String>)
    ensures
        match r {
            Ok(_) => url_error(address@) is None,
            Err(e) => url_error(address@) == Some(e@),
        },
{
    tower_lsp::lsp_types::Url::parse(address).map_err(|e| e.to_string())
}

/// `tower_lsp::lsp_types::Url::to_file_path`: the path of a file's address, where it has
/// one that is text. What a path looks like depends on the machine, so nothing is stated.
#[verifier::external_body]
fn url_file_path(url: &tower_lsp::lsp_types::Url) -> (r: Option<String>)
{
    url.to_file_path().ok().and_then(|p| p.to_str().map(str::to_string))
}

/// Why an address is not that of a file in an archive.
#[derive(Clone, Debug, PartialEq, Eq)]
pub enum JarUriError {
    /// It does not start with `jar:`.
    NotJar,
    /// Nothing separates the archive from the file in it.
    NoSeparator,
    /// The archive's address is malformed.
    BadUrl { address: String, error: String },
    /// The archive's address has no path.
    NoPath { address: String },
}

/// What a [`JarUriError`] says.
pub ghost enum JarUriErrorView {
    NotJar,
    NoSeparator,
    BadUrl { address: Seq<char>, error: Seq<char> },
    NoPath { address: Seq<char> },
}

impl DeepView for JarUriError {
    type V = JarUriErrorView;

    open spec fn deep_view(&self) -> JarUriErrorView {
        match self {
            JarUriError::NotJar => JarUriErrorView::NotJar,
            JarUriError::NoSeparator => JarUriErrorView::NoSeparator,
            JarUriError::BadUrl { address, error } => JarUriErrorView::BadUrl {
                address: address@,
                error: error@,
            },
            JarUriError::NoPath { address } => JarUriErrorView::NoPath { address: address@ },
        }
    }
}

/// What a failure to read the address `uri` says.
pub open spec fn message_of(uri: Seq<char>, e: JarUriErrorView) -> Seq<char> {
    match e {
        JarUriErrorView::NotJar => "URI does not start with 'jar:': "@ + uri,
        JarUriErrorView::NoSeparator => "JAR URI missing '!/' separator: "@ + uri,
        JarUriErrorView::BadUrl { address, error } => "Invalid file URL '"@ + address + "': "@
            + error,
        JarUriErrorView::NoPath { address } => "Cannot convert URL to path: "@ + address,
    }
}

impl JarUriError {
    /// What a failure to read the address `uri` says.
    pub fn message(&self, uri: &str) -> (r: String)
        ensures
            r@ == message_of(uri@, self.deep_view()),
    {
        match self {
            JarUriError::NotJar => concat2("URI does not start with 'jar:': ", uri),
            JarUriError::NoSeparator => concat2("JAR URI missing '!/' separator: ", uri),
            JarUriError::BadUrl { address, error } => {
                let front = concat3("Invalid file URL '", address.as_str(), "': ");
                concat2(front.as_str(), error.as_str())
            },
            JarUriError::NoPath { address } => concat2(
                "Cannot convert URL to path: ",
                address.as_str(),
            ),
        }
    }
}

/// `s` on both sides of its first `sep`.
pub open spec fn split_at(s: Seq<char>, sep: Seq<char>) -> Option<(Seq<char>, Seq<char>)> {
    match find_from(s, sep, 0) {
        Some(i) => Some((s.take(i as int), s.skip((i + sep.len()) as int))),
        None => None,
    }
}

fn split_on(s: &str, sep: &str) -> (r: Option<(String, String)>)
    ensures
        r.deep_view() == split_at(s@, sep@),
{
    let chars = chars_of(s);
    let mark = chars_of(sep);
    let len: usize = chars.len();
    match find_chars(&chars, &mark, 0) {
        Some(i) => {
            let before = string_of(&chars, 0, i);
            let after = string_of(&chars, i + mark.len(), len);
            assert(before@ =~= s@.take(i as int));
            assert(after@ =~= s@.skip((i + sep@.len()) as int));
            Some((before, after))
        },
        None => None,
    }
}

/// The archive's address and the file in it, of an address `jar:<archive>!/<file>`.
pub open spec fn jar_parts(uri: Seq<char>) -> Result<(Seq<char>, Seq<char>), JarUriErrorView> {
    match unprefixed(uri, "jar:"@) {
        Some(rest) => match split_at(rest, "!/"@) {
            Some(parts) => Ok(parts),
            None => Err(JarUriErrorView::NoSeparator),
        },
        None => Err(JarUriErrorView::NotJar),
    }
}

/// The archive's address and the file in it.
pub fn split_jar_uri(uri: &str) -> (r: Result<(String, String), JarUriError>)
    ensures
        match r {
            Ok((address, entry)) => jar_parts(uri@) == Ok::<
                (Seq<char>, Seq<char>),
                JarUriErrorView,
            >((address@, entry@)),
            Err(e) => jar_parts(uri@) == Err::<(Seq<char>, Seq<char>), JarUriErrorView>(
                e.deep_view(),
            ),
        },
{
    if !crate::handlers::matching::has_prefix(uri, "jar:") {
        return Err(JarUriError::NotJar);
    }
    let chars = chars_of(uri);
    let cut: usize = "jar:".unicode_len();
    let rest = string_of(&chars, cut, chars.len());
    assert(rest@ =~= uri@.skip("jar:"@.len() as int));
    match split_on(rest.as_str(), "!/") {
        Some(parts) => Ok(parts),
        None => Err(JarUriError::NoSeparator),
    }
}

/// The archive and the file in it, given the archive's path where its address has one.
pub fn located(address: String, entry: String, path: Option<String>) -> (r: Result<
    (String, String),
    JarUriError,
>)
    ensures
        match (r, path) {
            (Ok((jar, file)), Some(p)) => jar@ == p@ && file@ == entry@,
            (Err(e), None) => e.deep_view() == (JarUriErrorView::NoPath { address: address@ }),
            _ => false,
        },
{
    match path {
        Some(p) => Ok((p, entry)),
        None => Err(JarUriError::NoPath { address }),
    }
}

/// The archive and the file in it, of an address `jar:<archive>!/<file>`. Whether the
/// archive's address has a path, and which, the machine decides.
pub fn parse_jar_uri(uri: &str) -> (r: Result<(String, String), JarUriError>)
    ensures
        match jar_parts(uri@) {
            Ok((address, entry)) => match url_error(address) {
                Some(error) => r matches Err(e) && e.deep_view() == (JarUriErrorView::BadUrl {
                    address,
                    error,
                }),
                None => match r {
                    Ok((_, file)) => file@ == entry,
                    Err(e) => e.deep_view() == (JarUriErrorView::NoPath { address }),
                },
            },
            Err(e) => r matches Err(got) && got.deep_view() == e,
        },
{
    let (address, entry) = match split_jar_uri(uri) {
        Ok(parts) => parts,
        Err(e) => return Err(e),
    };
    match url_parse(address.as_str()) {
        Ok(url) => {
            let path = url_file_path(&url);
            located(address, entry, path)
        },
        Err(error) => Err(JarUriError::BadUrl { address, error }),
    }
}

/// What the text of a file in an archive is, or what the user is told where there is none.
pub open spec fn content_of(jar: Seq<char>, entry: Seq<char>, member: MemberView) -> Result<
    Seq<char>,
    Seq<char>,
> {
    match member {
        MemberView::Text(text) => Ok(text),
        MemberView::Missing => Err(
            "Entry '"@ + entry + "' not found in JAR '"@ + jar + "'"@,
        ),
        MemberView::Unreadable(error) => Err("Failed to read entry '"@ + entry + "': "@ + error),
    }
}

/// Whether an outcome is what a model says.
pub open spec fn comes_to(r: Result<String, String>, model: Result<Seq<char>, Seq<char>>) -> bool {
    match r {
        Ok(text) => model == Ok::<Seq<char>, Seq<char>>(text@),
        Err(told) => model == Err::<Seq<char>, Seq<char>>(told@),
    }
}

/// The text of a file in an archive, of what reading it came to.
pub fn content(jar_path: &str, entry_path: &str, member: Member) -> (r: Result<String, String>)
    ensures
        comes_to(r, content_of(jar_path@, entry_path@, member.deep_view())),
{
    match member {
        Member::Text(text) => Ok(text),
        Member::Missing => {
            let mut told = concat3("Entry '", entry_path, "' not found in JAR '");
            told.append(jar_path);
            told.append("'");
            Err(told)
        },
        Member::Unreadable(error) => {
            let mut told = concat3("Failed to read entry '", entry_path, "': ");
            told.append(error.as_str());
            Err(told)
        },
    }
}

/// The text of the file `entry_path` in an archive, of the archive's bytes.
pub fn extract_content(jar_path: &str, bytes: Vec<u8>, entry_path: &str) -> (r: Result<
    String,
    String,
>)
    ensures
        comes_to(
            r,
            match archive_of(bytes@) {
                Ok(archive) => content_of(jar_path@, entry_path@, archive.member(entry_path@)),
                Err(error) => Err(
                    "Could not read ZIP archive '"@ + jar_path@ + "': "@ + error,
                ),
            },
        ),
{
    match zip_open(bytes) {
        Ok(archive) => {
            let mut archive = archive;
            let member = zip_read(&mut archive, entry_path);
            content(jar_path, entry_path, member)
        },
        Err(error) => {
            let mut told = concat3("Could not read ZIP archive '", jar_path, "': ");
            told.append(error.as_str());
            Err(told)
        },
    }
}

/// The archive and the file in it, of a path under which the index knows one; `None` of
/// the path of an ordinary file.
pub fn split_index_path(path: &str) -> (r: Option<(String, String)>)
    ensures
        r.deep_view() == split_at(path@, "!/"@),
{
    split_on(path, "!/")
}

/// An archive and the file in it are read back from the path under which the index knows
/// the file, unless the archive's own path looks like one.
pub proof fn law_index_paths_split(jar: Seq<char>, name: Seq<char>)
    requires
        find_from(jar + "!/"@, "!/"@, 0) == Some(jar.len()),
    ensures
        split_at(entry_path(jar, name), "!/"@) == Some((jar, name)),
{
    reveal_strlit("!/");
    let path = entry_path(jar, name);
    lemma_found_before(jar + "!/"@, name, "!/"@, 0, jar.len());
    assert(path =~= (jar + "!/"@) + name);
    assert(path.take(jar.len() as int) =~= jar);
    assert(path.skip((jar.len() + 2) as int) =~= name);
}

proof fn lemma_found_before(s: Seq<char>, more: Seq<char>, t: Seq<char>, i: nat, at: nat)
    requires
        find_from(s, t, i) == Some(at),
    ensures
        find_from(s + more, t, i) == Some(at),
    decreases s.len() + 1 - i,
{
    if crate::text::stands_at(s, t, i as int) {
        assert((s + more).subrange(i as int, i as int + t.len()) =~= s.subrange(i as int, i as int + t.len()));
    } else {
        lemma_found_before(s, more, t, i + 1, at);
        lemma_found_fits(s, t, i + 1, at);
        if crate::text::stands_at(s + more, t, i as int) {
            assert((s + more).subrange(i as int, i as int + t.len()) =~= s.subrange(
                i as int,
                i as int + t.len(),
            ));
        }
    }
}

proof fn lemma_found_fits(s: Seq<char>, t: Seq<char>, i: nat, at: nat)
    requires
        find_from(s, t, i) == Some(at),
    ensures
        i <= at,
        at + t.len() <= s.len(),
    decreases s.len() + 1 - i,
{
    if !crate::text::stands_at(s, t, i as int) {
        lemma_found_fits(s, t, i + 1, at);
    }
}

}

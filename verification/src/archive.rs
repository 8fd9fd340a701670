//! Archives in memory, and the files in them.

use vstd::prelude::*;
use std::io::{Cursor, Read};
use zip::ZipArchive;

verus! {

/// `std::io::Cursor`, bytes that are read from a place in them on.
#[verifier::external_type_specification]
#[verifier::external_body]
#[verifier::reject_recursive_types(T)]
pub struct ExCursor<T>(std::io::Cursor<T>);

/// `zip::ZipArchive`, the directory of an archive over its bytes.
#[verifier::external_type_specification]
#[verifier::external_body]
#[verifier::reject_recursive_types(R)]
pub struct ExZipArchive<R>(zip::ZipArchive<R>);

/// An archive in memory.
pub type Archive = ZipArchive<Cursor<Vec<u8>>>;

/// What opening a file of an archive and reading it as text comes to.
#[derive(Clone, Debug, PartialEq, Eq)]
pub enum Member {
    /// There is no such file, or it cannot be opened.
    Missing,
    /// It cannot be read to its end as text.
    Unreadable(String),
    Text(String),
}

/// What a [`Member`] says.
pub ghost enum MemberView {
    Missing,
    Unreadable(Seq<char>),
    Text(Seq<char>),
}

impl DeepView for Member {
    type V = MemberView;

    open spec fn deep_view(&self) -> MemberView {
        match self {
            Member::Missing => MemberView::Missing,
            Member::Unreadable(error) => MemberView::Unreadable(error@),
            Member::Text(text) => MemberView::Text(text@),
        }
    }
}

/// What an archive holds.
pub ghost struct ArchiveView {
    /// The names of its files, in the directory's order; `None` where one cannot be
    /// opened.
    pub names: Seq<Option<Seq<char>>>,
    /// What its files hold, by their names. A name that is not there is of no file.
    pub members: Map<Seq<char>, MemberView>,
}

impl ArchiveView {
    /// What the file of a name holds.
    pub open spec fn member(self, name: Seq<char>) -> MemberView {
        if self.members.dom().contains(name) {
            self.members[name]
        } else {
            MemberView::Missing
        }
    }
}

/// What an archive holds.
pub uninterp spec fn archive_held(archive: ZipArchive<Cursor<Vec<u8>>>) -> ArchiveView;

/// What `zip::ZipArchive::new` finds in bytes: an archive, or what is wrong with them.
pub uninterp spec fn archive_of(bytes: Seq<u8>) -> Result<ArchiveView, Seq<char>>;

/// `zip::ZipArchive::new`, over bytes in memory: what is found depends on the bytes alone.
#[verifier::external_body]
pub(crate) fn zip_open(bytes: Vec<u8>) -> (r: Result<Archive, String>)
    ensures
        match r {
            Ok(archive) => archive_of(bytes@) == Ok::<ArchiveView, Seq<char>>(
                archive_held(archive),
            ),
            Err(error) => archive_of(bytes@) == Err::<ArchiveView, Seq<char>>(error@),
        },
{
    ZipArchive::new(Cursor::new(bytes)).map_err(|e| e.to_string())
}

/// `zip::ZipArchive::len`: how many files the archive's directory lists.
#[verifier::external_body]
pub(crate) fn zip_len(archive: &Archive) -> (r: usize)
    ensures
        r == archive_held(*archive).names.len(),
{
    archive.len()
}

/// `zip::ZipArchive::by_index`: the name of a file, where it can be opened. The archive
/// holds what it held.
#[verifier::external_body]
pub(crate) fn zip_name(archive: &mut Archive, i: usize) -> (r: Option<String>)
    requires
        i < archive_held(*old(archive)).names.len(),
    ensures
        r.deep_view() == archive_held(*old(archive)).names[i as int],
        archive_held(*final(archive)) == archive_held(*old(archive)),
{
    archive.by_index(i).ok().map(|file| file.name().to_string())
}

/// `zip::ZipArchive::by_name`, read to its end as text. The archive holds what it held.
#[verifier::external_body]
pub(crate) fn zip_read(archive: &mut Archive, name: &str) -> (r: Member)
    ensures
        r.deep_view() == archive_held(*old(archive)).member(name@),
        archive_held(*final(archive)) == archive_held(*old(archive)),
{
    match archive.by_name(name) {
        Ok(mut file) => {
            let mut text = String::new();
            match file.read_to_string(&mut text) {
                Ok(_) => Member::Text(text),
                Err(e) => Member::Unreadable(e.to_string()),
            }
        },
        Err(_) => Member::Missing,
    }
}

}

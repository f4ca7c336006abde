//! The file model: file types, tags, attributes and file records.
//!
//! Tag identity is by `TagId`, never by name; two machines may create tags
//! with equal names and distinct ids, which the reconciler reports as a
//! conflict but never coalesces.

use vstd::prelude::*;

use crate::ids::{FileId, TagId, fresh_file_id};

verus! {

/// The kind of a library document.
#[derive(Clone, Copy, PartialEq, Eq, Structural, Debug)]
pub enum FileType {
    HTML,
    PDF,
}

/// One tag attached to a file.
#[derive(Debug, PartialEq, Eq)]
pub struct Tag {
    pub tag_id: TagId,
    pub tag_name: String,
    pub modify_time: u64,
}

/// Mathematical value of a `Tag`.
#[verifier::ext_equal]
pub struct TagV {
    pub tag_id: TagId,
    pub name: Seq<char>,
    pub mtime: u64,
}

impl DeepView for Tag {
    type V = TagV;

    open spec fn deep_view(&self) -> TagV {
        TagV { tag_id: self.tag_id, name: self.tag_name@, mtime: self.modify_time }
    }
}

impl Clone for Tag {
    fn clone(&self) -> (res: Self)
        ensures
            res.deep_view() == self.deep_view(),
    {
        Tag {
            tag_id: self.tag_id,
            tag_name: self.tag_name.clone(),
            modify_time: self.modify_time,
        }
    }
}

/// Mutable attributes of a file. Every field-level change is expressed as an
/// operation in a machine's log, never as a silent overwrite.
#[derive(Debug, PartialEq, Eq)]
pub struct FileAttr {
    pub file_type: FileType,
    pub title: Option<String>,
    pub tags: Vec<Tag>,
    pub author: Option<String>,
    /// Rendered short url, when one was produced for the file.
    pub rendered: Option<String>,
}

/// Mathematical value of a `FileAttr`.
#[verifier::ext_equal]
pub struct AttrV {
    pub file_type: FileType,
    pub title: Option<Seq<char>>,
    pub tags: Seq<TagV>,
    pub author: Option<Seq<char>>,
    pub rendered: Option<Seq<char>>,
}

impl DeepView for FileAttr {
    type V = AttrV;

    open spec fn deep_view(&self) -> AttrV {
        AttrV {
            file_type: self.file_type,
            title: self.title.deep_view(),
            tags: self.tags.deep_view(),
            author: self.author.deep_view(),
            rendered: self.rendered.deep_view(),
        }
    }
}

/// Clones an optional string, keeping its characters.
pub fn clone_opt_string(s: &Option<String>) -> (res: Option<String>)
    ensures
        res.deep_view() == s.deep_view(),
{
    match s {
        Some(v) => Some(v.clone()),
        None => None,
    }
}

impl Clone for FileAttr {
    fn clone(&self) -> (res: Self)
        ensures
            res.deep_view() == self.deep_view(),
    {
        let mut tags: Vec<Tag> = Vec::new();
        let mut i: usize = 0;
        while i < self.tags.len()
            invariant
                i <= self.tags.len(),
                tags.len() == i,
                forall|j: int| 0 <= j < i ==> #[trigger] tags@[j].deep_view() == self.tags@[
                    j
                ].deep_view(),
            decreases self.tags.len() - i,
        {
            let t = self.tags[i].clone();
            tags.push(t);
            i = i + 1;
        }
        proof {
            assert(tags.deep_view() =~= self.tags.deep_view());
        }
        FileAttr {
            file_type: self.file_type,
            title: clone_opt_string(&self.title),
            tags,
            author: clone_opt_string(&self.author),
            rendered: clone_opt_string(&self.rendered),
        }
    }
}

/// The attribute value every freshly scanned file starts from: the given
/// type, no title, no tags, no author, no rendered url.
pub open spec fn fresh_attr(file_type: FileType) -> AttrV {
    AttrV {
        file_type,
        title: None,
        tags: Seq::empty(),
        author: None,
        rendered: None,
    }
}

impl FileAttr {
    /// No two tags of a well-formed attribute value share a tag id.
    pub open spec fn wf(self) -> bool {
        forall|i: int, j: int|
            0 <= i < j < self.tags.deep_view().len() ==> self.tags.deep_view()[i].tag_id
                != self.tags.deep_view()[j].tag_id
    }

    /// A fresh attribute record of the given type.
    pub fn new(file_type: FileType) -> (r: Self)
        ensures
            r.deep_view() == fresh_attr(file_type),
            r.wf(),
    {
        let r = FileAttr {
            file_type,
            title: None,
            tags: Vec::new(),
            author: None,
            rendered: None,
        };
        proof {
            assert(r.deep_view() =~= fresh_attr(file_type));
        }
        r
    }

    /// A fresh attribute record for an HTML page.
    pub fn new_html() -> (r: Self)
        ensures
            r.deep_view() == fresh_attr(FileType::HTML),
            r.wf(),
    {
        Self::new(FileType::HTML)
    }

    /// A fresh attribute record for a PDF document.
    pub fn new_pdf() -> (r: Self)
        ensures
            r.deep_view() == fresh_attr(FileType::PDF),
            r.wf(),
    {
        Self::new(FileType::PDF)
    }
}

/// One logical file of the library: identity, attributes, relative path and
/// modification time. The id is stable across renames, moves and edits.
#[derive(Debug, PartialEq, Eq)]
pub struct File {
    pub modify_time: u64,
    pub uuid: FileId,
    pub attrs: FileAttr,
    pub relative_path: String,
}

/// Mathematical value of a `File`.
#[verifier::ext_equal]
pub struct FileV {
    pub id: FileId,
    pub path: Seq<char>,
    pub mtime: u64,
    pub attrs: AttrV,
}

impl DeepView for File {
    type V = FileV;

    open spec fn deep_view(&self) -> FileV {
        FileV {
            id: self.uuid,
            path: self.relative_path@,
            mtime: self.modify_time,
            attrs: self.attrs.deep_view(),
        }
    }
}

impl Clone for File {
    fn clone(&self) -> (res: Self)
        ensures
            res.deep_view() == self.deep_view(),
    {
        let res = File {
            modify_time: self.modify_time,
            uuid: self.uuid,
            attrs: self.attrs.clone(),
            relative_path: self.relative_path.clone(),
        };
        proof {
            assert(res.deep_view() =~= self.deep_view());
        }
        res
    }
}

impl File {
    /// A file record with every field given, including its identity.
    pub fn with_id(id: FileId, attrs: FileAttr, relative_path: String, modify_time: u64) -> (r:
        Self)
        ensures
            r.deep_view() == (FileV {
                id,
                path: relative_path@,
                mtime: modify_time,
                attrs: attrs.deep_view(),
            }),
    {
        let r = File { modify_time, uuid: id, attrs, relative_path };
        proof {
            assert(r.deep_view() =~= (FileV {
                id,
                path: relative_path@,
                mtime: modify_time,
                attrs: attrs.deep_view(),
            }));
        }
        r
    }

    /// A file record first observed now: it draws a fresh random 128-bit
    /// identity, which no contract can pin down.
    pub fn new(attrs: FileAttr, relative_path: String, modify_time: u64) -> (r: Self)
        ensures
            r.relative_path@ == relative_path@,
            r.modify_time == modify_time,
            r.attrs.deep_view() == attrs.deep_view(),
    {
        let id = fresh_file_id();
        Self::with_id(id, attrs, relative_path, modify_time)
    }
}

} // verus!

//! Paths that come from or are to be used in file-based object storage.

use vstd::prelude::*;
use crate::path::parsed::{string_views, DirsAndFileName, PartsModel};
use crate::path::parts::encode_part;
use crate::path::{
    cloud_string, component_list, duplicate_strings, file_components, Osp, PathModel,
};

verus! {

/// The form in which a `FilePath` holds its location.
#[derive(Clone, Debug)]
pub enum FilePathRepresentation {
    Raw(Vec<String>),
    Parsed(DirsAndFileName),
}

impl View for FilePathRepresentation {
    type V = PathModel;

    open spec fn view(&self) -> PathModel {
        match self {
            FilePathRepresentation::Raw(components) => PathModel::RawFile(
                string_views(components@),
            ),
            FilePathRepresentation::Parsed(parts) => PathModel::Parts(parts@),
        }
    }
}

impl Default for FilePathRepresentation {
    fn default() -> (r: Self)
        ensures
            r@ == PathModel::Parts(PartsModel { dirs: Seq::empty(), file: None }),
    {
        let parts = DirsAndFileName::new();
        assert(parts@.dirs =~= Seq::empty());
        FilePathRepresentation::Parsed(parts)
    }
}

impl FilePathRepresentation {
    /// A copy of this representation.
    pub fn duplicate(&self) -> (r: Self)
        ensures
            r@ == self@,
    {
        match self {
            FilePathRepresentation::Raw(components) => FilePathRepresentation::Raw(
                duplicate_strings(components),
            ),
            FilePathRepresentation::Parsed(parts) => FilePathRepresentation::Parsed(
                parts.duplicate(),
            ),
        }
    }

    /// The parsed parts of this representation.
    pub fn into_parts(self) -> (r: DirsAndFileName)
        ensures
            r@ == crate::path::parsed(self@),
    {
        match self {
            FilePathRepresentation::Raw(components) => DirsAndFileName::from_components(
                &components,
            ),
            FilePathRepresentation::Parsed(parts) => parts,
        }
    }

    /// Adds a directory to the end of the path, encoding whatever is
    /// reserved. The result is always held as parts.
    pub fn push_dir(self, part: &str) -> (r: Self)
        ensures
            r@ == PathModel::Parts(
                PartsModel {
                    dirs: crate::path::parsed(self@).dirs.push(encode_part(part@)),
                    file: crate::path::parsed(self@).file,
                },
            ),
    {
        let mut dirs_and_file_name = self.into_parts();
        dirs_and_file_name.push_dir(part);
        FilePathRepresentation::Parsed(dirs_and_file_name)
    }

    /// Adds each of `parts` as a directory, in order.
    pub fn push_all_dirs(self, parts: &[&str]) -> (r: Self)
        ensures
            r@ == PathModel::Parts(
                PartsModel {
                    dirs: crate::path::parsed(self@).dirs + Seq::new(
                        parts@.len(),
                        |i: int| encode_part(parts@[i]@),
                    ),
                    file: crate::path::parsed(self@).file,
                },
            ),
    {
        let mut dirs_and_file_name = self.into_parts();
        dirs_and_file_name.push_all_dirs(parts);
        FilePathRepresentation::Parsed(dirs_and_file_name)
    }

    /// Sets the file name, replacing any earlier one.
    pub fn set_file_name(self, part: &str) -> (r: Self)
        ensures
            r@ == PathModel::Parts(
                PartsModel {
                    dirs: crate::path::parsed(self@).dirs,
                    file: Some(encode_part(part@)),
                },
            ),
    {
        let mut dirs_and_file_name = self.into_parts();
        dirs_and_file_name.set_file_name(part);
        FilePathRepresentation::Parsed(dirs_and_file_name)
    }

    /// Whether two representations stand for the same parts, however each is
    /// held.
    pub fn equals(&self, other: &Self) -> (r: bool)
        ensures
            r == (crate::path::parsed(self@) == crate::path::parsed(other@)),
    {
        match (self, other) {
            (FilePathRepresentation::Parsed(self_parts), FilePathRepresentation::Parsed(other_parts)) => {
                self_parts.equals(other_parts)
            },
            (FilePathRepresentation::Parsed(self_parts), _) => {
                let other_parts = other.duplicate().into_parts();
                self_parts.equals(&other_parts)
            },
            (_, FilePathRepresentation::Parsed(other_parts)) => {
                let self_parts = self.duplicate().into_parts();
                self_parts.equals(other_parts)
            },
            _ => {
                let self_parts = self.duplicate().into_parts();
                let other_parts = other.duplicate().into_parts();
                self_parts.equals(&other_parts)
            },
        }
    }
}

/// A location suitable for disk-based object storage.
#[derive(Debug, Clone, Default)]
pub struct FilePath {
    inner: FilePathRepresentation,
}

impl View for FilePath {
    type V = PathModel;

    closed spec fn view(&self) -> PathModel {
        self.inner@
    }
}

impl FilePath {
    /// The empty path: no directories and no file name.
    pub fn new() -> (r: Self)
        ensures
            r@ == PathModel::Parts(PartsModel { dirs: Seq::empty(), file: None }),
    {
        FilePath { inner: FilePathRepresentation::default() }
    }

    /// Takes the components of a path as received from a file system,
    /// without parsing them.
    pub fn raw(components: Vec<String>) -> (r: Self)
        ensures
            r@ == PathModel::RawFile(string_views(components@)),
    {
        FilePath { inner: FilePathRepresentation::Raw(components) }
    }

    /// Holds parsed parts as a file path.
    pub fn from(dirs_and_file_name: DirsAndFileName) -> (r: Self)
        ensures
            r@ == PathModel::Parts(dirs_and_file_name@),
    {
        FilePath { inner: FilePathRepresentation::Parsed(dirs_and_file_name) }
    }

    /// The file system components of this path: those of a raw path as they
    /// are, otherwise every directory followed by the file name.
    pub fn to_raw(&self) -> (r: Vec<String>)
        ensures
            match self@ {
                PathModel::RawFile(components) => string_views(r@) == components,
                PathModel::Parts(parts) => string_views(r@) == file_components(parts),
                PathModel::RawCloud(_) => true,
            },
            !(self@ is RawCloud),
    {
        match &self.inner {
            FilePathRepresentation::Raw(path) => duplicate_strings(path),
            FilePathRepresentation::Parsed(dirs_and_file_name) => component_list(
                dirs_and_file_name,
            ),
        }
    }

    /// Whether two paths stand for the same parts.
    pub fn equals(&self, other: &Self) -> (r: bool)
        ensures
            r == (crate::path::parsed(self@) == crate::path::parsed(other@)),
    {
        self.inner.equals(&other.inner)
    }

    fn take_inner(&mut self) -> (r: FilePathRepresentation)
        ensures
            r@ == old(self)@,
    {
        let mut taken = FilePathRepresentation::default();
        core::mem::swap(&mut self.inner, &mut taken);
        taken
    }
}

impl Osp for FilePath {
    closed spec fn parts(&self) -> PartsModel {
        crate::path::parsed(self@)
    }

    fn set_file_name(&mut self, part: &str) {
        self.inner = self.take_inner().set_file_name(part);
    }

    fn push_dir(&mut self, part: &str) {
        self.inner = self.take_inner().push_dir(part);
    }

    fn push_all_dirs(&mut self, parts: &[&str]) {
        self.inner = self.take_inner().push_all_dirs(parts);
    }

    fn display(&self) -> (s: String) {
        cloud_string(&self.inner.duplicate().into_parts())
    }
}

} // verus!

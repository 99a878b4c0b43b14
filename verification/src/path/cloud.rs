//! Paths that came from or are to be used in cloud-based object storage.

use vstd::prelude::*;
use crate::path::parsed::{DirsAndFileName, PartsModel};
use crate::path::parts::encode_part;
use crate::path::{cloud_location, cloud_string, ObjectStorePath, Osp, PathRepresentation, PathModel};

verus! {

/// The form in which a `CloudPath` holds its location.
#[derive(Clone, Debug)]
pub enum CloudPathRepresentation {
    Raw(String),
    Parsed(DirsAndFileName),
}

impl View for CloudPathRepresentation {
    type V = PathModel;

    open spec fn view(&self) -> PathModel {
        match self {
            CloudPathRepresentation::Raw(raw) => PathModel::RawCloud(raw@),
            CloudPathRepresentation::Parsed(parts) => PathModel::Parts(parts@),
        }
    }
}

impl Default for CloudPathRepresentation {
    fn default() -> (r: Self)
        ensures
            r@ == PathModel::Parts(PartsModel { dirs: Seq::empty(), file: None }),
    {
        let parts = DirsAndFileName::new();
        assert(parts@.dirs =~= Seq::empty());
        CloudPathRepresentation::Parsed(parts)
    }
}

impl CloudPathRepresentation {
    /// The parsed parts of this representation.
    pub fn into_parts(self) -> (r: DirsAndFileName)
        ensures
            r@ == crate::path::parsed(self@),
    {
        match self {
            CloudPathRepresentation::Raw(raw) => DirsAndFileName::from_cloud(raw.as_str()),
            CloudPathRepresentation::Parsed(parts) => parts,
        }
    }

    /// Adds a directory to the end of the path, encoding whatever is
    /// reserved. The result is always held as parts.
    pub fn push_dir(self, part: &str) -> (r: Self)
        ensures
            r@ == PathModel::Parts(
                PartsModel {
                    dirs: crate::path::parsed(self@).dirs.push(encode_part(part@)),
                    file: crate::path::parsed(self@).file,
                },
            ),
    {
        let mut dirs_and_file_name = self.into_parts();
        dirs_and_file_name.push_dir(part);
        CloudPathRepresentation::Parsed(dirs_and_file_name)
    }
}

/// A location suitable for cloud-based object storage.
#[derive(Debug, Clone, Default)]
pub struct CloudPath {
    inner: CloudPathRepresentation,
}

impl View for CloudPath {
    type V = PathModel;

    closed spec fn view(&self) -> PathModel {
        self.inner@
    }
}

impl CloudPath {
    /// The empty path: no directories and no file name.
    pub fn new() -> (r: Self)
        ensures
            r@ == PathModel::Parts(PartsModel { dirs: Seq::empty(), file: None }),
    {
        CloudPath { inner: CloudPathRepresentation::default() }
    }

    /// Takes a location as received from a cloud store, without parsing it.
    pub fn raw(path: &str) -> (r: Self)
        ensures
            r@ == PathModel::RawCloud(path@),
    {
        CloudPath { inner: CloudPathRepresentation::Raw(path.to_owned()) }
    }

    /// The cloud form of a general path. A path taken from a file system has
    /// none.
    pub fn from(object_store_path: ObjectStorePath) -> (r: Self)
        requires
            !(object_store_path@ is RawFile),
        ensures
            r@ == object_store_path@,
    {
        let inner = match object_store_path.into_representation() {
            PathRepresentation::RawCloud(path) => CloudPathRepresentation::Raw(path),
            PathRepresentation::RawPathBuf(_) => {
                proof {
                    assert(false);
                }
                CloudPathRepresentation::default()
            },
            PathRepresentation::Parts(dirs_and_file_name) => CloudPathRepresentation::Parsed(
                dirs_and_file_name,
            ),
        };
        CloudPath { inner }
    }

    fn take_inner(&mut self) -> (r: CloudPathRepresentation)
        ensures
            r@ == old(self)@,
    {
        let mut taken = CloudPathRepresentation::default();
        core::mem::swap(&mut self.inner, &mut taken);
        taken
    }

    /// Adds a directory to the end of the path, encoding whatever is
    /// reserved.
    pub fn push_dir(&mut self, part: &str)
        ensures
            final(self)@ == PathModel::Parts(
                PartsModel {
                    dirs: crate::path::parsed(old(self)@).dirs.push(encode_part(part@)),
                    file: crate::path::parsed(old(self)@).file,
                },
            ),
    {
        self.inner = self.take_inner().push_dir(part);
    }

    /// Adds each of `parts` as a directory, in order.
    pub fn push_all_dirs(&mut self, parts: &[&str])
        ensures
            final(self)@ == PathModel::Parts(
                PartsModel {
                    dirs: crate::path::parsed(old(self)@).dirs + Seq::new(
                        parts@.len(),
                        |i: int| encode_part(parts@[i]@),
                    ),
                    file: crate::path::parsed(old(self)@).file,
                },
            ),
    {
        let mut dirs_and_file_name = self.take_inner().into_parts();
        dirs_and_file_name.push_all_dirs(parts);
        self.inner = CloudPathRepresentation::Parsed(dirs_and_file_name);
    }

    /// Sets the file name of this path.
    pub fn set_file_name(&mut self, part: &str)
        ensures
            final(self)@ == PathModel::Parts(
                PartsModel {
                    dirs: crate::path::parsed(old(self)@).dirs,
                    file: Some(encode_part(part@)),
                },
            ),
    {
        let mut dirs_and_file_name = self.take_inner().into_parts();
        dirs_and_file_name.set_file_name(part);
        self.inner = CloudPathRepresentation::Parsed(dirs_and_file_name);
    }
}

impl Osp for CloudPath {
    closed spec fn parts(&self) -> PartsModel {
        crate::path::parsed(self@)
    }

    fn set_file_name(&mut self, part: &str) {
        CloudPath::set_file_name(self, part)
    }

    fn push_dir(&mut self, part: &str) {
        CloudPath::push_dir(self, part)
    }

    fn push_all_dirs(&mut self, parts: &[&str]) {
        CloudPath::push_all_dirs(self, parts)
    }

    fn display(&self) -> (s: String) {
        match &self.inner {
            CloudPathRepresentation::Raw(raw) => cloud_string(
                &DirsAndFileName::from_cloud(raw.as_str()),
            ),
            CloudPathRepresentation::Parsed(parts) => cloud_string(parts),
        }
    }
}

/// Turns a `CloudPath` into a location for cloud storage.
#[derive(Debug, Clone, Copy)]
pub struct CloudConverter {}

impl CloudConverter {
    /// The cloud location of a path: a raw location as it is, parts joined
    /// by the delimiter.
    pub fn convert(cloud_path: &CloudPath) -> (r: String)
        ensures
            match cloud_path@ {
                PathModel::RawCloud(raw) => r@ == raw,
                PathModel::RawFile(_) => true,
                PathModel::Parts(parts) => r@ == cloud_location(parts),
            },
            !(cloud_path@ is RawFile),
    {
        match &cloud_path.inner {
            CloudPathRepresentation::Raw(path) => path.clone(),
            CloudPathRepresentation::Parsed(dirs_and_file_name) => cloud_string(
                dirs_and_file_name,
            ),
        }
    }
}

} // verus!

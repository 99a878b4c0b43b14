//! Locations of objects and directories in an object store, independent of
//! the backing implementation.

use vstd::prelude::*;
use vstd::string::StringExecFns;
use itertools::Itertools;

pub mod parts;
pub mod parsed;
pub mod cloud;
pub mod file;
pub mod equality;

use parts::{encode_part, PathPart};
use parsed::{
    parse_cloud, parse_file, part_views, prefix_matches_model, string_views, DirsAndFileName,
    PartsModel,
};

verus! {

/// The delimiter that separates the parts of a cloud location.
pub const DELIMITER: &'static str = "/";

/// What a path value denotes: a location exactly as a cloud store gave it,
/// the components of a path as a file system gave it, or parsed parts.
pub enum PathModel {
    RawCloud(Seq<char>),
    RawFile(Seq<Seq<char>>),
    Parts(PartsModel),
}

/// The parts that a path stands for, whatever form it is held in.
pub open spec fn parsed(m: PathModel) -> PartsModel {
    match m {
        PathModel::RawCloud(raw) => parse_cloud(raw),
        PathModel::RawFile(components) => parse_file(components),
        PathModel::Parts(parts) => parts,
    }
}

/// `parts` joined with `sep` between every two neighbours.
pub open spec fn joined(parts: Seq<Seq<char>>, sep: Seq<char>) -> Seq<char>
    decreases parts.len(),
{
    if parts.len() == 0 {
        Seq::empty()
    } else if parts.len() == 1 {
        parts[0]
    } else {
        joined(parts.drop_last(), sep) + sep + parts.last()
    }
}

/// The cloud location of parsed parts: the directories joined by the
/// delimiter, a trailing delimiter when that text is not empty, then the file
/// name if there is one.
pub open spec fn cloud_location(parts: PartsModel) -> Seq<char> {
    let dirs = joined(parts.dirs, seq!['/']);
    let head = if dirs.len() > 0 {
        dirs.push('/')
    } else {
        dirs
    };
    match parts.file {
        Some(f) => head + f,
        None => head,
    }
}

/// The file system components of parsed parts: every directory, then the file
/// name if there is one.
pub open spec fn file_components(parts: PartsModel) -> Seq<Seq<char>> {
    match parts.file {
        Some(f) => parts.dirs.push(f),
        None => parts.dirs,
    }
}

/// Joins the encoded texts of `parts` with `sep`. Trusted: this is
/// `Itertools::join` over the parts' encoded texts, which writes the first
/// element and then, for every further element, the separator followed by
/// the element.
#[verifier::external_body]
pub(crate) fn join_parts(parts: &Vec<PathPart>, sep: &str) -> (r: String)
    ensures
        r@ == joined(part_views(parts@), sep@),
{
    parts.iter().map(|p| p.encoded()).join(sep)
}

/// Renders parsed parts as a cloud location.
pub fn cloud_string(parts: &DirsAndFileName) -> (r: String)
    ensures
        r@ == cloud_location(parts@),
{
    proof {
        reveal_strlit("/");
        assert("/"@ =~= seq!['/']);
    }
    let mut path = join_parts(&parts.directories, DELIMITER);
    if !path.as_str().is_empty() {
        let ghost before = path@;
        path.append(DELIMITER);
        assert(path@ =~= before.push('/'));
    }
    match &parts.file_name {
        Some(file_name) => {
            path.append(file_name.encoded());
        },
        None => {},
    }
    path
}

/// Lists parsed parts as file system components.
pub fn component_list(parts: &DirsAndFileName) -> (r: Vec<String>)
    ensures
        string_views(r@) == file_components(parts@),
{
    let mut out: Vec<String> = Vec::new();
    let mut i: usize = 0;
    while i < parts.directories.len()
        invariant
            i <= parts.directories.len(),
            out@.len() == i,
            forall|j: int| 0 <= j < i ==> out@[j]@ == parts.directories@[j]@,
        decreases parts.directories.len() - i,
    {
        out.push(parts.directories[i].encoded().to_owned());
        i += 1;
    }
    assert(string_views(out@) =~= parts@.dirs);
    match &parts.file_name {
        Some(file_name) => {
            out.push(file_name.encoded().to_owned());
            assert(string_views(out@) =~= parts@.dirs.push(file_name@));
        },
        None => {},
    }
    out
}

/// Copies a list of strings.
pub fn duplicate_strings(items: &Vec<String>) -> (copy: Vec<String>)
    ensures
        string_views(copy@) == string_views(items@),
{
    let mut copy: Vec<String> = Vec::new();
    let mut i: usize = 0;
    while i < items.len()
        invariant
            i <= items.len(),
            copy@.len() == i,
            forall|j: int| 0 <= j < i ==> copy@[j]@ == items@[j]@,
        decreases items.len() - i,
    {
        copy.push(items[i].clone());
        i += 1;
    }
    assert(string_views(copy@) =~= string_views(items@));
    copy
}

/// Operations that every kind of object store path offers.
pub trait Osp: Sized {
    /// The parts that this path stands for.
    spec fn parts(&self) -> PartsModel;

    /// Sets the file name of this path, encoding whatever is reserved.
    fn set_file_name(&mut self, part: &str)
        ensures
            final(self).parts() == (PartsModel {
                dirs: old(self).parts().dirs,
                file: Some(encode_part(part@)),
            }),
    ;

    /// Adds a directory to the end of the path, encoding whatever is
    /// reserved.
    fn push_dir(&mut self, part: &str)
        ensures
            final(self).parts() == (PartsModel {
                dirs: old(self).parts().dirs.push(encode_part(part@)),
                file: old(self).parts().file,
            }),
    ;

    /// Adds each of `parts` as a directory, in order.
    fn push_all_dirs(&mut self, parts: &[&str])
        ensures
            final(self).parts() == (PartsModel {
                dirs: old(self).parts().dirs + Seq::new(
                    parts@.len(),
                    |i: int| encode_part(parts@[i]@),
                ),
                file: old(self).parts().file,
            }),
    ;

    /// A printable form of the path: its parts laid out as a cloud location.
    fn display(&self) -> (s: String)
        ensures
            s@ == cloud_location(self.parts()),
    ;
}

/// The form in which an `ObjectStorePath` holds its location.
#[derive(Clone, Debug)]
pub enum PathRepresentation {
    RawCloud(String),
    RawPathBuf(Vec<String>),
    Parts(DirsAndFileName),
}

impl View for PathRepresentation {
    type V = PathModel;

    open spec fn view(&self) -> PathModel {
        match self {
            PathRepresentation::RawCloud(raw) => PathModel::RawCloud(raw@),
            PathRepresentation::RawPathBuf(components) => PathModel::RawFile(
                string_views(components@),
            ),
            PathRepresentation::Parts(parts) => PathModel::Parts(parts@),
        }
    }
}

impl Default for PathRepresentation {
    fn default() -> (r: Self)
        ensures
            r@ == PathModel::Parts(PartsModel { dirs: Seq::empty(), file: None }),
    {
        let parts = DirsAndFileName::new();
        assert(parts@.dirs =~= Seq::empty());
        PathRepresentation::Parts(parts)
    }
}

impl PathRepresentation {
    /// A copy of this representation.
    pub fn duplicate(&self) -> (r: Self)
        ensures
            r@ == self@,
    {
        match self {
            PathRepresentation::RawCloud(raw) => PathRepresentation::RawCloud(raw.clone()),
            PathRepresentation::RawPathBuf(components) => PathRepresentation::RawPathBuf(
                duplicate_strings(components),
            ),
            PathRepresentation::Parts(parts) => PathRepresentation::Parts(parts.duplicate()),
        }
    }

    /// The parsed parts of this representation.
    pub fn into_parts(self) -> (r: DirsAndFileName)
        ensures
            r@ == parsed(self@),
    {
        match self {
            PathRepresentation::RawCloud(raw) => DirsAndFileName::from_cloud(raw.as_str()),
            PathRepresentation::RawPathBuf(components) => DirsAndFileName::from_components(
                &components,
            ),
            PathRepresentation::Parts(parts) => parts,
        }
    }

    /// Adds a directory to the end of the path, encoding whatever is
    /// reserved. The result is always held as parts.
    pub fn push_dir(self, part: &str) -> (r: Self)
        ensures
            r@ == PathModel::Parts(
                PartsModel {
                    dirs: parsed(self@).dirs.push(encode_part(part@)),
                    file: parsed(self@).file,
                },
            ),
    {
        let mut dirs_and_file_name = self.into_parts();
        dirs_and_file_name.push_dir(part);
        PathRepresentation::Parts(dirs_and_file_name)
    }

    /// Adds each of `parts` as a directory, in order.
    pub fn push_all_dirs(self, parts: &[&str]) -> (r: Self)
        ensures
            r@ == PathModel::Parts(
                PartsModel {
                    dirs: parsed(self@).dirs + Seq::new(
                        parts@.len(),
                        |i: int| encode_part(parts@[i]@),
                    ),
                    file: parsed(self@).file,
                },
            ),
    {
        let mut dirs_and_file_name = self.into_parts();
        dirs_and_file_name.push_all_dirs(parts);
        PathRepresentation::Parts(dirs_and_file_name)
    }

    /// Adds an already encoded part as the last directory.
    pub fn push_part_as_dir(self, part: &PathPart) -> (r: Self)
        ensures
            r@ == PathModel::Parts(
                PartsModel { dirs: parsed(self@).dirs.push(part@), file: parsed(self@).file },
            ),
    {
        let mut dirs_and_file_name = self.into_parts();
        dirs_and_file_name.push_part_as_dir(part);
        PathRepresentation::Parts(dirs_and_file_name)
    }

    /// Sets the file name, replacing any earlier one.
    pub fn set_file_name(self, part: &str) -> (r: Self)
        ensures
            r@ == PathModel::Parts(
                PartsModel { dirs: parsed(self@).dirs, file: Some(encode_part(part@)) },
            ),
    {
        let mut dirs_and_file_name = self.into_parts();
        dirs_and_file_name.set_file_name(part);
        PathRepresentation::Parts(dirs_and_file_name)
    }

    /// Whether two representations stand for the same parts, however each is
    /// held.
    pub fn equals(&self, other: &Self) -> (r: bool)
        ensures
            r == (parsed(self@) == parsed(other@)),
    {
        match (self, other) {
            (PathRepresentation::Parts(self_parts), PathRepresentation::Parts(other_parts)) => {
                self_parts.equals(other_parts)
            },
            (PathRepresentation::Parts(self_parts), _) => {
                let other_parts = other.duplicate().into_parts();
                self_parts.equals(&other_parts)
            },
            (_, PathRepresentation::Parts(other_parts)) => {
                let self_parts = self.duplicate().into_parts();
                self_parts.equals(other_parts)
            },
            _ => {
                let self_parts = self.duplicate().into_parts();
                let other_parts = other.duplicate().into_parts();
                self_parts.equals(&other_parts)
            },
        }
    }
}

/// A location in an object store, in whichever form it was received or built.
#[derive(Clone, Debug, Default)]
pub struct ObjectStorePath {
    inner: PathRepresentation,
}

impl View for ObjectStorePath {
    type V = PathModel;

    closed spec fn view(&self) -> PathModel {
        self.inner@
    }
}

impl ObjectStorePath {
    /// The empty path: no directories and no file name.
    pub fn new() -> (r: Self)
        ensures
            r@ == PathModel::Parts(PartsModel { dirs: Seq::empty(), file: None }),
    {
        ObjectStorePath { inner: PathRepresentation::default() }
    }

    /// Takes a location as received from a cloud store, without parsing it.
    pub fn from_cloud_unchecked(path: &str) -> (r: Self)
        ensures
            r@ == PathModel::RawCloud(path@),
    {
        ObjectStorePath { inner: PathRepresentation::RawCloud(path.to_owned()) }
    }

    /// Takes the components of a path as received from a file system,
    /// without parsing them.
    pub fn from_path_buf_unchecked(components: Vec<String>) -> (r: Self)
        ensures
            r@ == PathModel::RawFile(string_views(components@)),
    {
        ObjectStorePath { inner: PathRepresentation::RawPathBuf(components) }
    }

    /// Holds parsed parts as a path.
    pub fn from_parts(parts: DirsAndFileName) -> (r: Self)
        ensures
            r@ == PathModel::Parts(parts@),
    {
        ObjectStorePath { inner: PathRepresentation::Parts(parts) }
    }

    /// Whether this path is held as a location received from a cloud store.
    pub fn is_raw_cloud(&self) -> (r: bool)
        ensures
            r == (self@ is RawCloud),
    {
        match &self.inner {
            PathRepresentation::RawCloud(_) => true,
            _ => false,
        }
    }

    /// Whether this path is held as the components of a file system path.
    pub fn is_raw_path_buf(&self) -> (r: bool)
        ensures
            r == (self@ is RawFile),
    {
        match &self.inner {
            PathRepresentation::RawPathBuf(_) => true,
            _ => false,
        }
    }

    /// The representation that this path holds.
    pub fn into_representation(self) -> (r: PathRepresentation)
        ensures
            r@ == self@,
    {
        self.inner
    }

    /// The parsed parts of this path.
    pub fn to_parts(&self) -> (r: DirsAndFileName)
        ensures
            r@ == parsed(self@),
    {
        self.inner.duplicate().into_parts()
    }

    /// A copy of this path.
    pub fn duplicate(&self) -> (r: Self)
        ensures
            r@ == self@,
    {
        ObjectStorePath { inner: self.inner.duplicate() }
    }

    /// Whether two paths stand for the same parts.
    pub fn equals(&self, other: &Self) -> (r: bool)
        ensures
            r == (parsed(self@) == parsed(other@)),
    {
        self.inner.equals(&other.inner)
    }

    fn take_inner(&mut self) -> (r: PathRepresentation)
        ensures
            r@ == old(self)@,
    {
        let mut taken = PathRepresentation::default();
        core::mem::swap(&mut self.inner, &mut taken);
        taken
    }

    /// Adds a directory to the end of the path, encoding whatever is
    /// reserved.
    pub fn push_dir(&mut self, part: &str)
        ensures
            final(self)@ == PathModel::Parts(
                PartsModel {
                    dirs: parsed(old(self)@).dirs.push(encode_part(part@)),
                    file: parsed(old(self)@).file,
                },
            ),
    {
        self.inner = self.take_inner().push_dir(part);
    }

    /// Adds an already encoded part as the last directory.
    pub fn push_part_as_dir(&mut self, part: &PathPart)
        ensures
            final(self)@ == PathModel::Parts(
                PartsModel {
                    dirs: parsed(old(self)@).dirs.push(part@),
                    file: parsed(old(self)@).file,
                },
            ),
    {
        self.inner = self.take_inner().push_part_as_dir(part);
    }

    /// Sets the file name of this path.
    pub fn set_file_name(&mut self, part: &str)
        ensures
            final(self)@ == PathModel::Parts(
                PartsModel { dirs: parsed(old(self)@).dirs, file: Some(encode_part(part@)) },
            ),
    {
        self.inner = self.take_inner().set_file_name(part);
    }

    /// Adds each of `parts` as a directory, in order.
    pub fn push_all_dirs(&mut self, parts: &[&str])
        ensures
            final(self)@ == PathModel::Parts(
                PartsModel {
                    dirs: parsed(old(self)@).dirs + Seq::new(
                        parts@.len(),
                        |i: int| encode_part(parts@[i]@),
                    ),
                    file: parsed(old(self)@).file,
                },
            ),
    {
        self.inner = self.take_inner().push_all_dirs(parts);
    }

    /// Removes the last part of the path and returns it: the file name when
    /// there is one, otherwise the last directory; `None` when the path is
    /// empty. The path is held as parts afterwards.
    pub fn pop(&mut self) -> (r: Option<PathPart>)
        ensures
            match parsed(old(self)@).file {
                Some(f) => {
                    &&& r is Some
                    &&& r->0@ == f
                    &&& final(self)@ == PathModel::Parts(
                        PartsModel { dirs: parsed(old(self)@).dirs, file: None },
                    )
                },
                None => if parsed(old(self)@).dirs.len() > 0 {
                    &&& r is Some
                    &&& r->0@ == parsed(old(self)@).dirs.last()
                    &&& final(self)@ == PathModel::Parts(
                        PartsModel { dirs: parsed(old(self)@).dirs.drop_last(), file: None },
                    )
                } else {
                    &&& r is None
                    &&& final(self)@ == PathModel::Parts(
                        PartsModel { dirs: Seq::empty(), file: None },
                    )
                },
            },
    {
        let mut parts = self.take_inner().into_parts();
        let ghost before = parts@;
        let mut file_name: Option<PathPart> = None;
        core::mem::swap(&mut parts.file_name, &mut file_name);
        let popped = match file_name {
            Some(f) => Some(f),
            None => {
                let last = parts.directories.pop();
                assert(last is Some ==> parts@.dirs =~= before.dirs.drop_last());
                assert(last is None ==> parts@.dirs =~= Seq::<Seq<char>>::empty());
                last
            },
        };
        self.inner = PathRepresentation::Parts(parts);
        popped
    }

    /// Whether this path starts with `prefix`, both taken as parsed parts.
    pub fn prefix_matches(&self, prefix: &Self) -> (r: bool)
        ensures
            r == prefix_matches_model(parsed(self@), parsed(prefix@)),
    {
        match (&self.inner, &prefix.inner) {
            (PathRepresentation::Parts(self_parts), PathRepresentation::Parts(other_parts)) => {
                self_parts.prefix_matches(other_parts)
            },
            (PathRepresentation::Parts(self_parts), _) => {
                let prefix_parts = prefix.to_parts();
                self_parts.prefix_matches(&prefix_parts)
            },
            (_, PathRepresentation::Parts(prefix_parts)) => {
                let self_parts = self.to_parts();
                self_parts.prefix_matches(prefix_parts)
            },
            _ => {
                let self_parts = self.to_parts();
                let prefix_parts = prefix.to_parts();
                self_parts.prefix_matches(&prefix_parts)
            },
        }
    }
}

impl Osp for ObjectStorePath {
    closed spec fn parts(&self) -> PartsModel {
        parsed(self@)
    }

    fn set_file_name(&mut self, part: &str) {
        ObjectStorePath::set_file_name(self, part)
    }

    fn push_dir(&mut self, part: &str) {
        ObjectStorePath::push_dir(self, part)
    }

    fn push_all_dirs(&mut self, parts: &[&str]) {
        ObjectStorePath::push_all_dirs(self, parts)
    }

    fn display(&self) -> (s: String) {
        cloud_string(&self.to_parts())
    }
}

/// Turns an `ObjectStorePath` into a location for cloud storage.
#[derive(Debug, Clone, Copy)]
pub struct CloudConverter {}

impl CloudConverter {
    /// The cloud location of a path: a raw cloud location as it is, parts
    /// joined by the delimiter. A path taken from a file system has no cloud
    /// location.
    pub fn convert(object_store_path: &ObjectStorePath) -> (r: String)
        requires
            !(object_store_path@ is RawFile),
        ensures
            match object_store_path@ {
                PathModel::RawCloud(raw) => r@ == raw,
                PathModel::RawFile(_) => false,
                PathModel::Parts(parts) => r@ == cloud_location(parts),
            },
    {
        match &object_store_path.inner {
            PathRepresentation::RawCloud(path) => path.clone(),
            PathRepresentation::RawPathBuf(_) => {
                proof {
                    assert(false);
                }
                String::new()
            },
            PathRepresentation::Parts(dirs_and_file_name) => cloud_string(dirs_and_file_name),
        }
    }
}

/// Turns an `ObjectStorePath` into the components of a file system path.
#[derive(Debug, Clone, Copy)]
pub struct FileConverter {}

impl FileConverter {
    /// The file system components of a path: those of a raw file path as
    /// they are, otherwise every directory followed by the file name. A
    /// path taken from a cloud store has no file system form.
    pub fn convert(object_store_path: &ObjectStorePath) -> (r: Vec<String>)
        requires
            !(object_store_path@ is RawCloud),
        ensures
            match object_store_path@ {
                PathModel::RawCloud(_) => false,
                PathModel::RawFile(components) => string_views(r@) == components,
                PathModel::Parts(parts) => string_views(r@) == file_components(parts),
            },
    {
        match &object_store_path.inner {
            PathRepresentation::RawCloud(_) => {
                proof {
                    assert(false);
                }
                Vec::new()
            },
            PathRepresentation::RawPathBuf(path) => duplicate_strings(path),
            PathRepresentation::Parts(dirs_and_file_name) => component_list(dirs_and_file_name),
        }
    }
}

} // verus!

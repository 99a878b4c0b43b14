//! The fully parsed, storage-independent form of a path: a list of
//! directories and an optional file name.

use vstd::prelude::*;
use crate::path::parts::{encode_part, PathPart};
use crate::text::{contains_char, ends_with, split_terminated, split_terminator, starts_with};

verus! {

/// What a parsed path denotes: the encoded text of each directory, in order,
/// and of the file name if there is one.
pub struct PartsModel {
    pub dirs: Seq<Seq<char>>,
    pub file: Option<Seq<char>>,
}

/// The encoded texts of a sequence of parts.
pub open spec fn part_views(parts: Seq<PathPart>) -> Seq<Seq<char>> {
    parts.map_values(|p: PathPart| p@)
}

/// Whether two directory lists hold the same part wherever both have one.
pub open spec fn agree(a: Seq<Seq<char>>, b: Seq<Seq<char>>) -> bool {
    forall|k: int| 0 <= k < a.len() && k < b.len() ==> a[k] == b[k]
}

/// Whether the path `this` starts with the path `prefix`.
///
/// With equal directories the file names decide: a prefix without a file name
/// always matches, and a prefix file name must begin the path's file name.
/// When the prefix's directories are a proper prefix of the path's, the
/// prefix's file name, if any, must begin the path's next directory. When the
/// two lists part ways, the prefix matches only if they part at the prefix's
/// last directory and that directory begins the path's directory at the same
/// position.
pub open spec fn prefix_matches_model(this: PartsModel, prefix: PartsModel) -> bool {
    if this.dirs == prefix.dirs {
        match (this.file, prefix.file) {
            (Some(f), Some(p)) => p.is_prefix_of(f),
            (_, None) => true,
            (None, Some(_)) => false,
        }
    } else if prefix.dirs.is_prefix_of(this.dirs) {
        match prefix.file {
            Some(p) => p.is_prefix_of(this.dirs[prefix.dirs.len() as int]),
            None => true,
        }
    } else if this.dirs.is_prefix_of(prefix.dirs) {
        false
    } else {
        &&& prefix.dirs.len() <= this.dirs.len()
        &&& prefix.dirs.drop_last().is_prefix_of(this.dirs)
        &&& prefix.dirs.last().is_prefix_of(this.dirs[prefix.dirs.len() - 1])
    }
}

/// The parts of `this` that follow the directories of `prefix`, with the file
/// name of `this` last: defined when the two directory lists agree wherever
/// both have a directory.
pub open spec fn parts_after_prefix_model(this: PartsModel, prefix: PartsModel) -> Option<
    Seq<Seq<char>>,
> {
    if agree(this.dirs, prefix.dirs) {
        let rest = if prefix.dirs.len() <= this.dirs.len() {
            this.dirs.skip(prefix.dirs.len() as int)
        } else {
            Seq::empty()
        };
        match this.file {
            Some(f) => Some(rest.push(f)),
            None => Some(rest),
        }
    } else {
        None
    }
}

/// How a raw cloud location is read: it is cut at each delimiter, and the
/// last piece is the file name when it holds a dot.
pub open spec fn parse_cloud(raw: Seq<char>) -> PartsModel {
    let pieces = split_terminated(raw, '/');
    if pieces.len() > 0 && pieces.last().contains('.') {
        PartsModel { dirs: pieces.drop_last(), file: Some(pieces.last()) }
    } else {
        PartsModel { dirs: pieces, file: None }
    }
}

/// Whether the last component of a file system path names a file: it does
/// not begin with a dot and carries one of the known extensions.
pub open spec fn is_file_component(name: Seq<char>) -> bool {
    &&& !seq!['.'].is_prefix_of(name)
    &&& (seq!['.', 'j', 's', 'o', 'n'].is_suffix_of(name) || seq![
        '.',
        'p',
        'a',
        'r',
        'q',
        'u',
        'e',
        't',
    ].is_suffix_of(name) || seq!['.', 's', 'e', 'g', 'm', 'e', 'n', 't'].is_suffix_of(name))
}

/// How the components of a file system path are read: the last one is the
/// file name when it looks like one, every other is a directory.
pub open spec fn parse_file(components: Seq<Seq<char>>) -> PartsModel {
    if components.len() > 0 && is_file_component(components.last()) {
        PartsModel { dirs: components.drop_last(), file: Some(components.last()) }
    } else {
        PartsModel { dirs: components, file: None }
    }
}

/// The texts of a list of strings.
pub open spec fn string_views(items: Seq<String>) -> Seq<Seq<char>> {
    items.map_values(|s: String| s@)
}

/// Wraps each string, taken as already encoded, in a part.
fn parts_of(items: &Vec<String>) -> (parts: Vec<PathPart>)
    ensures
        part_views(parts@) == string_views(items@),
{
    let mut parts: Vec<PathPart> = Vec::new();
    let mut i: usize = 0;
    while i < items.len()
        invariant
            i <= items.len(),
            parts@.len() == i,
            forall|j: int| 0 <= j < i ==> parts@[j]@ == items@[j]@,
        decreases items.len() - i,
    {
        parts.push(PathPart::from_encoded(items[i].clone()));
        i += 1;
    }
    assert(part_views(parts@) =~= string_views(items@));
    parts
}

/// Where two lists of parts first differ.
pub enum PartsDiff {
    /// Both lists hold the same parts.
    Same,
    /// The parts at this index differ; all parts before it are equal.
    FirstMismatch(usize),
    /// The second list ended at this length while the first goes on.
    Shorter(usize),
    /// The first list ended at this length while the second goes on.
    Longer(usize),
}

/// Walks two lists of parts in step and reports where they first differ.
/// Trusted: this is `itertools::diff_with`, which compares element by element
/// with the given equality and stops at the first index where the elements
/// differ or where one side runs out; it yields nothing when both sides end
/// together.
#[verifier::external_body]
fn diff_parts(a: &Vec<PathPart>, b: &Vec<PathPart>) -> (d: PartsDiff)
    ensures
        match d {
            PartsDiff::Same => part_views(a@) == part_views(b@),
            PartsDiff::FirstMismatch(k) => {
                &&& k < a@.len()
                &&& k < b@.len()
                &&& a@[k as int]@ != b@[k as int]@
                &&& part_views(a@).take(k as int) == part_views(b@).take(k as int)
            },
            PartsDiff::Shorter(k) => {
                &&& k == b@.len()
                &&& k < a@.len()
                &&& part_views(b@).is_prefix_of(part_views(a@))
            },
            PartsDiff::Longer(k) => {
                &&& k == a@.len()
                &&& k < b@.len()
                &&& part_views(a@).is_prefix_of(part_views(b@))
            },
        },
{
    match itertools::diff_with(a.iter(), b.iter(), |x, y| x.same_as(y)) {
        None => PartsDiff::Same,
        Some(itertools::Diff::FirstMismatch(k, _, _)) => PartsDiff::FirstMismatch(k),
        Some(itertools::Diff::Shorter(k, _)) => PartsDiff::Shorter(k),
        Some(itertools::Diff::Longer(k, _)) => PartsDiff::Longer(k),
    }
}

/// A path split into its directories and its file name.
#[derive(Clone, Debug, PartialEq, Eq, PartialOrd, Ord, Default)]
pub struct DirsAndFileName {
    pub directories: Vec<PathPart>,
    pub file_name: Option<PathPart>,
}

impl View for DirsAndFileName {
    type V = PartsModel;

    open spec fn view(&self) -> PartsModel {
        PartsModel {
            dirs: part_views(self.directories@),
            file: match self.file_name {
                Some(p) => Some(p@),
                None => None,
            },
        }
    }
}

/// Copies a list of parts.
pub fn duplicate_parts(parts: &Vec<PathPart>) -> (copy: Vec<PathPart>)
    ensures
        part_views(copy@) == part_views(parts@),
{
    let mut copy: Vec<PathPart> = Vec::new();
    let mut i: usize = 0;
    while i < parts.len()
        invariant
            i <= parts.len(),
            copy@.len() == i,
            forall|j: int| 0 <= j < i ==> copy@[j]@ == parts@[j]@,
        decreases parts.len() - i,
    {
        copy.push(parts[i].duplicate());
        i += 1;
    }
    assert(part_views(copy@) =~= part_views(parts@));
    copy
}

impl DirsAndFileName {
    /// The path with no directories and no file name.
    pub fn new() -> (r: DirsAndFileName)
        ensures
            r@.dirs.len() == 0,
            r@.file is None,
    {
        DirsAndFileName { directories: Vec::new(), file_name: None }
    }

    /// Reads a location received from a cloud store.
    pub fn from_cloud(raw: &str) -> (r: DirsAndFileName)
        ensures
            r@ == parse_cloud(raw@),
    {
        let pieces = split_terminator(raw, '/');
        assert(string_views(pieces@) =~= split_terminated(raw@, '/'));
        let mut parts = parts_of(&pieces);
        let ghost all = part_views(parts@);
        let file_name = match parts.pop() {
            Some(last) => {
                assert(last@ == all.last());
                assert(part_views(parts@) =~= all.drop_last());
                if contains_char(last.encoded(), '.') {
                    Some(last)
                } else {
                    parts.push(last);
                    assert(part_views(parts@) =~= all);
                    None
                }
            },
            None => None,
        };
        DirsAndFileName { directories: parts, file_name }
    }

    /// Reads the components of a path received from a file system.
    pub fn from_components(components: &Vec<String>) -> (r: DirsAndFileName)
        ensures
            r@ == parse_file(string_views(components@)),
    {
        let mut parts = parts_of(components);
        let ghost all = part_views(parts@);
        proof {
            reveal_strlit(".");
            reveal_strlit(".json");
            reveal_strlit(".parquet");
            reveal_strlit(".segment");
            assert("."@ =~= seq!['.']);
            assert(".json"@ =~= seq!['.', 'j', 's', 'o', 'n']);
            assert(".parquet"@ =~= seq!['.', 'p', 'a', 'r', 'q', 'u', 'e', 't']);
            assert(".segment"@ =~= seq!['.', 's', 'e', 'g', 'm', 'e', 'n', 't']);
        }
        let file_name = match parts.pop() {
            Some(last) => {
                assert(last@ == all.last());
                assert(part_views(parts@) =~= all.drop_last());
                let name = last.encoded();
                if !starts_with(name, ".") && (ends_with(name, ".json") || ends_with(
                    name,
                    ".parquet",
                ) || ends_with(name, ".segment")) {
                    Some(last)
                } else {
                    parts.push(last);
                    assert(part_views(parts@) =~= all);
                    None
                }
            },
            None => None,
        };
        DirsAndFileName { directories: parts, file_name }
    }

    /// A copy of this path.
    pub fn duplicate(&self) -> (r: DirsAndFileName)
        ensures
            r@ == self@,
    {
        let file_name = match &self.file_name {
            Some(p) => Some(p.duplicate()),
            None => None,
        };
        DirsAndFileName { directories: duplicate_parts(&self.directories), file_name }
    }

    /// Whether the two paths hold the same directories and file name.
    pub fn equals(&self, other: &DirsAndFileName) -> (r: bool)
        ensures
            r == (self@ == other@),
    {
        let same_dirs = match diff_parts(&self.directories, &other.directories) {
            PartsDiff::Same => true,
            PartsDiff::FirstMismatch(k) => {
                assert(self@.dirs[k as int] != other@.dirs[k as int]);
                false
            },
            PartsDiff::Shorter(_) => {
                assert(self@.dirs.len() != other@.dirs.len());
                false
            },
            PartsDiff::Longer(_) => {
                assert(self@.dirs.len() != other@.dirs.len());
                false
            },
        };
        let same_file = match (&self.file_name, &other.file_name) {
            (Some(a), Some(b)) => a.same_as(b),
            (None, None) => true,
            _ => false,
        };
        same_dirs && same_file
    }

    /// Whether this path starts with `prefix`.
    pub fn prefix_matches(&self, prefix: &DirsAndFileName) -> (r: bool)
        ensures
            r == prefix_matches_model(self@, prefix@),
    {
        match diff_parts(&self.directories, &prefix.directories) {
            PartsDiff::Same => match (&self.file_name, &prefix.file_name) {
                (Some(self_file), Some(prefix_file)) => starts_with(
                    self_file.encoded(),
                    prefix_file.encoded(),
                ),
                (Some(_), None) => true,
                (None, Some(_)) => false,
                (None, None) => true,
            },
            PartsDiff::Shorter(k) => {
                assert(self@.dirs.len() != prefix@.dirs.len());
                let next_dir = &self.directories[k];
                assert(next_dir@ == self@.dirs[k as int]);
                match &prefix.file_name {
                    Some(prefix_file) => starts_with(next_dir.encoded(), prefix_file.encoded()),
                    None => true,
                }
            },
            PartsDiff::FirstMismatch(k) => {
                let ghost sd = self@.dirs;
                let ghost pd = prefix@.dirs;
                assert(sd[k as int] != pd[k as int]);
                assert(sd.take(k as int) == pd.take(k as int));
                assert(forall|j: int| 0 <= j < k ==> sd[j] == sd.take(k as int)[j] && pd[j]
                    == pd.take(k as int)[j]);
                if prefix.directories.len() == k + 1 {
                    assert(pd.drop_last() =~= sd.take(k as int));
                    assert(pd.last() == pd[k as int]);
                    starts_with(self.directories[k].encoded(), prefix.directories[k].encoded())
                } else {
                    assert(!pd.drop_last().is_prefix_of(sd)) by {
                        if pd.drop_last().is_prefix_of(sd) {
                            assert(pd.drop_last()[k as int] == sd[k as int]);
                        }
                    }
                    false
                }
            },
            PartsDiff::Longer(_) => {
                assert(self@.dirs.len() != prefix@.dirs.len());
                false
            },
        }
    }

    /// The parts of this path after the directories of `prefix`, ignoring the
    /// prefix's file name; `None` when a directory of `prefix` differs from
    /// the directory of this path at the same position.
    pub fn parts_after_prefix(&self, prefix: &DirsAndFileName) -> (r: Option<Vec<PathPart>>)
        ensures
            match r {
                Some(parts) => parts_after_prefix_model(self@, prefix@) == Some(
                    part_views(parts@),
                ),
                None => parts_after_prefix_model(self@, prefix@) is None,
            },
    {
        let ghost sd = self@.dirs;
        let ghost pd = prefix@.dirs;
        let mut parts: Vec<PathPart> = Vec::new();
        let mut i: usize = 0;
        while i < self.directories.len()
            invariant
                i <= self.directories.len(),
                sd == self@.dirs,
                pd == prefix@.dirs,
                forall|k: int| 0 <= k < i && k < pd.len() ==> sd[k] == pd[k],
                pd.len() <= i ==> part_views(parts@) == sd.subrange(pd.len() as int, i as int),
                pd.len() > i ==> parts@.len() == 0,
            decreases self.directories.len() - i,
        {
            if i < prefix.directories.len() {
                if !prefix.directories[i].same_as(&self.directories[i]) {
                    assert(sd[i as int] != pd[i as int]);
                    return None;
                }
            } else {
                parts.push(self.directories[i].duplicate());
                assert(part_views(parts@) =~= sd.subrange(pd.len() as int, i + 1));
            }
            i += 1;
            assert(pd.len() <= i ==> part_views(parts@) =~= sd.subrange(pd.len() as int, i as int));
        }
        assert(agree(sd, pd));
        let ghost rest = part_views(parts@);
        assert(pd.len() <= sd.len() ==> rest =~= sd.skip(pd.len() as int));
        assert(pd.len() > sd.len() ==> rest =~= Seq::<Seq<char>>::empty());
        match &self.file_name {
            Some(file_name) => {
                parts.push(file_name.duplicate());
                assert(part_views(parts@) =~= rest.push(file_name@));
            },
            None => {},
        }
        Some(parts)
    }

    /// Adds a directory to the end of the path, encoding whatever is reserved.
    pub fn push_dir(&mut self, part: &str)
        ensures
            final(self)@.dirs == old(self)@.dirs.push(encode_part(part@)),
            final(self)@.file == old(self)@.file,
    {
        self.directories.push(PathPart::from(part));
        assert(self@.dirs =~= old(self)@.dirs.push(encode_part(part@)));
    }

    /// Adds each of `parts` as a directory, in order.
    pub fn push_all_dirs(&mut self, parts: &[&str])
        ensures
            final(self)@.dirs == old(self)@.dirs + Seq::new(
                parts@.len(),
                |i: int| encode_part(parts@[i]@),
            ),
            final(self)@.file == old(self)@.file,
    {
        let ghost before = self@.dirs;
        let mut i: usize = 0;
        while i < parts.len()
            invariant
                i <= parts.len(),
                before == old(self)@.dirs,
                self@.file == old(self)@.file,
                self@.dirs.len() == before.len() + i,
                forall|j: int| 0 <= j < before.len() ==> self@.dirs[j] == before[j],
                forall|j: int| 0 <= j < i ==> self@.dirs[before.len() + j] == encode_part(parts@[j]@),
            decreases parts.len() - i,
        {
            self.directories.push(PathPart::from(parts[i]));
            i += 1;
        }
        assert(self@.dirs =~= before + Seq::new(parts@.len(), |j: int| encode_part(parts@[j]@)));
    }

    /// Adds an already encoded part as the last directory.
    pub fn push_part_as_dir(&mut self, part: &PathPart)
        ensures
            final(self)@.dirs == old(self)@.dirs.push(part@),
            final(self)@.file == old(self)@.file,
    {
        self.directories.push(part.duplicate());
        assert(self@.dirs =~= old(self)@.dirs.push(part@));
    }

    /// Sets the file name, replacing any earlier one.
    pub fn set_file_name(&mut self, name: &str)
        ensures
            final(self)@.dirs == old(self)@.dirs,
            final(self)@.file == Some(encode_part(name@)),
    {
        self.file_name = Some(PathPart::from(name));
    }
}

} // verus!

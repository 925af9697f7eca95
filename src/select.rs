//! Which files go into a bundle, and which come out of one.
use vstd::prelude::*;
use crate::bowlfile::BowlFile;
use crate::config::Options;
use crate::files::FileRecord;

verus! {

/// The name under which a template's configuration travels in its bundle.
pub const CONFIG_FILE: &'static str = "./bowl.toml";

/// The chars of each string.
pub open spec fn strings_view(v: Seq<String>) -> Seq<Seq<char>> {
    v.map_values(|s: String| s@)
}

/// The paths that a set of options lists as ignored.
pub open spec fn ignored_paths(o: Options) -> Seq<Seq<char>> {
    match o.ignore {
        Some(list) => strings_view(list@),
        None => Seq::empty(),
    }
}

/// The paths of `paths` that `ignore` does not list, in their order.
pub open spec fn kept_paths(paths: Seq<Seq<char>>, ignore: Seq<Seq<char>>) -> Seq<Seq<char>>
    decreases paths.len(),
{
    if paths.len() == 0 {
        Seq::empty()
    } else if ignore.contains(paths.last()) {
        kept_paths(paths.drop_last(), ignore)
    } else {
        kept_paths(paths.drop_last(), ignore).push(paths.last())
    }
}

/// The positions, among the first `n` files, of those written out when a
/// template is used: all but the readme and the configuration file.
pub open spec fn written_positions(files: Seq<FileRecord>, readme: Seq<char>, n: int) -> Seq<int>
    decreases n,
{
    if n <= 0 {
        Seq::empty()
    } else if files[n - 1].path == readme || files[n - 1].path == CONFIG_FILE@ {
        written_positions(files, readme, n - 1)
    } else {
        written_positions(files, readme, n - 1).push(n - 1)
    }
}

impl Options {
    /// Whether these options leave `path` out of a bundle.
    pub fn ignores(&self, path: &String) -> (r: bool)
        ensures
            r == ignored_paths(*self).contains(path@),
    {
        match &self.ignore {
            None => {
                assert(ignored_paths(*self) =~= Seq::<Seq<char>>::empty());
                false
            },
            Some(list) => {
                let mut i: usize = 0;
                while i < list.len()
                    invariant
                        i <= list@.len(),
                        ignored_paths(*self) == strings_view(list@),
                        forall|j: int| 0 <= j < i ==> list@[j]@ != path@,
                    decreases list@.len() - i,
                {
                    if list[i] == *path {
                        assert(strings_view(list@)[i as int] == path@);
                        return true;
                    }
                    i = i + 1;
                }
                assert(!strings_view(list@).contains(path@)) by {
                    if strings_view(list@).contains(path@) {
                        let j = choose|j: int|
                            0 <= j < strings_view(list@).len() && strings_view(list@)[j]
                                == path@;
                        assert(list@[j]@ == path@);
                    }
                }
                false
            },
        }
    }

    /// The paths that these options let into a bundle, in their order.
    pub fn retain_unignored(&self, paths: Vec<String>) -> (r: Vec<String>)
        ensures
            strings_view(r@) == kept_paths(strings_view(paths@), ignored_paths(*self)),
    {
        let mut result: Vec<String> = Vec::new();
        let mut i: usize = 0;
        assert(strings_view(paths@).take(0) =~= Seq::<Seq<char>>::empty());
        assert(strings_view(result@) =~= Seq::<Seq<char>>::empty());
        while i < paths.len()
            invariant
                i <= paths@.len(),
                strings_view(result@) == kept_paths(
                    strings_view(paths@).take(i as int),
                    ignored_paths(*self),
                ),
            decreases paths@.len() - i,
        {
            let ghost before = result@;
            let ghost prefix = strings_view(paths@).take(i + 1);
            assert(prefix.drop_last() =~= strings_view(paths@).take(i as int));
            assert(prefix.last() == paths@[i as int]@);
            if !self.ignores(&paths[i]) {
                result.push(paths[i].clone());
                assert(strings_view(result@) =~= strings_view(before).push(paths@[i as int]@));
            }
            i = i + 1;
        }
        assert(strings_view(paths@).take(i as int) =~= strings_view(paths@));
        result
    }
}

impl BowlFile {
    /// The position of the first file whose path is `path`, if any.
    pub fn position_of(&self, path: &String) -> (r: Option<usize>)
        ensures
            match r {
                Some(i) => i < self@.files.len() && self@.files[i as int].path == path@
                    && forall|j: int| 0 <= j < i ==> self@.files[j].path != path@,
                None => forall|j: int| 0 <= j < self@.files.len() ==> self@.files[j].path != path@,
            },
    {
        let mut i: usize = 0;
        while i < self.files.len()
            invariant
                i <= self.files@.len(),
                forall|j: int| 0 <= j < i ==> self@.files[j].path != path@,
            decreases self.files@.len() - i,
        {
            if self.files[i].file_path == *path {
                return Some(i);
            }
            i = i + 1;
        }
        None
    }

    /// The positions of the files written out when the template is used:
    /// every file but the readme and the configuration file, in order.
    pub fn files_to_write(&self, readme: &String) -> (r: Vec<usize>)
        ensures
            r@.map_values(|i: usize| i as int) == written_positions(
                self@.files,
                readme@,
                self@.files.len() as int,
            ),
    {
        let config = CONFIG_FILE.to_owned();
        let mut result: Vec<usize> = Vec::new();
        let mut i: usize = 0;
        assert(result@.map_values(|k: usize| k as int) =~= Seq::<int>::empty());
        while i < self.files.len()
            invariant
                i <= self.files@.len(),
                config@ == CONFIG_FILE@,
                result@.map_values(|k: usize| k as int) == written_positions(
                    self@.files,
                    readme@,
                    i as int,
                ),
            decreases self.files@.len() - i,
        {
            let ghost before = result@;
            let path = &self.files[i].file_path;
            assert(self@.files[i as int].path == path@);
            if !(*path == *readme || *path == config) {
                result.push(i);
                assert(result@.map_values(|k: usize| k as int) =~= before.map_values(
                    |k: usize| k as int,
                ).push(i as int));
            }
            i = i + 1;
        }
        result
    }
}

} // verus!

//! The cache of loaded source files: an arena of (path, contents) pairs
//! addressed by index. Spans name a file by its index here.
use vstd::prelude::*;

verus! {

/// Every file read during one compilation, each path at most once.
#[derive(Debug, PartialEq, Eq, Default)]
pub struct Filesystem {
    files: Vec<(String, String)>,
}

impl Filesystem {
    /// The paths and contents held, in the order they were added.
    pub closed spec fn spec_files(&self) -> Seq<(Seq<char>, Seq<char>)> {
        self.files@.map_values(|f: (String, String)| (f.0@, f.1@))
    }

    /// No path is held twice.
    pub open spec fn wf(&self) -> bool {
        forall|i: int, j: int|
            0 <= i < j < self.spec_files().len() ==> self.spec_files()[i].0 != self.spec_files()[j].0
    }

    pub fn new() -> (r: Self)
        ensures
            r.wf(),
            r.spec_files() == Seq::<(Seq<char>, Seq<char>)>::empty(),
    {
        let r = Filesystem { files: Vec::new() };
        assert(r.spec_files() =~= Seq::<(Seq<char>, Seq<char>)>::empty());
        r
    }

    /// How many files are held.
    pub fn len(&self) -> (r: usize)
        ensures
            r == self.spec_files().len(),
    {
        self.files.len()
    }

    /// The index of the file read from `path`, if it was read.
    pub fn find(&self, path: &String) -> (r: Option<usize>)
        ensures
            match r {
                Some(i) => i < self.spec_files().len() && self.spec_files()[i as int].0 == path@,
                None => forall|i: int| 0 <= i < self.spec_files().len() ==> self.spec_files()[i].0 != path@,
            },
    {
        let mut i: usize = 0;
        while i < self.files.len()
            invariant
                i <= self.spec_files().len(),
                forall|j: int| 0 <= j < i ==> self.spec_files()[j].0 != path@,
            decreases self.spec_files().len() - i,
        {
            if self.files[i].0 == *path {
                return Some(i);
            }
            i = i + 1;
        }
        None
    }

    /// Records the contents read from `path` and gives the file's index. A
    /// path already held keeps its first contents and its index.
    pub fn insert(&mut self, path: String, contents: String) -> (r: usize)
        requires
            old(self).wf(),
        ensures
            final(self).wf(),
            r < final(self).spec_files().len(),
            final(self).spec_files()[r as int].0 == path@,
            (exists|i: int| 0 <= i < old(self).spec_files().len() && old(self).spec_files()[i].0 == path@)
                ==> final(self).spec_files() == old(self).spec_files(),
            (forall|i: int| 0 <= i < old(self).spec_files().len() ==> old(self).spec_files()[i].0 != path@)
                ==> final(self).spec_files() == old(self).spec_files().push((path@, contents@))
                && r == old(self).spec_files().len(),
    {
        match self.find(&path) {
            Some(i) => i,
            None => {
                let ghost pv = path@;
                let ghost cv = contents@;
                let n = self.files.len();
                self.files.push((path, contents));
                assert(self.spec_files() =~= old(self).spec_files().push((pv, cv)));
                n
            },
        }
    }

    /// The path of file `i`.
    pub fn path(&self, i: usize) -> (r: &String)
        requires
            i < self.spec_files().len(),
        ensures
            r@ == self.spec_files()[i as int].0,
    {
        &self.files[i].0
    }

    /// The contents of file `i`.
    pub fn contents(&self, i: usize) -> (r: &String)
        requires
            i < self.spec_files().len(),
        ensures
            r@ == self.spec_files()[i as int].1,
    {
        &self.files[i].1
    }
}

} // verus!

//! The containers of a run, each opened once and looked up by path.

use crate::ser::SerFile;
use vstd::prelude::*;

verus! {

#[derive(Debug, Copy, Clone, PartialEq, Eq, Structural)]
pub enum FpMapError {
    /// A container of that path is already in the map.
    AlreadyOpen,
    /// The container's size differs from what its header implies.
    InvalidContainer,
}

/// Opened containers, at most one per path.
pub struct FpMap {
    pub map: Vec<SerFile>,
}

/// The paths of the containers, in the order they were added.
pub open spec fn paths_of(files: Seq<SerFile>) -> Seq<Seq<char>> {
    files.map_values(|f: SerFile| f.source_file@)
}

impl FpMap {
    /// No two containers share a path, and each is well-formed and valid.
    pub open spec fn wf(&self) -> bool {
        &&& paths_of(self.map@).no_duplicates()
        &&& forall|i: int| 0 <= i < self.map@.len() ==> (#[trigger] self.map@[i]).wf()
            && self.map@[i].is_valid()
    }

    pub fn new() -> (r: FpMap)
        ensures
            r.wf(),
            r.map@.len() == 0,
    {
        FpMap { map: Vec::new() }
    }

    pub fn get_map(&self) -> (r: &Vec<SerFile>)
        ensures
            r == &self.map,
    {
        &self.map
    }

    fn position(&self, path: &String) -> (r: Option<usize>)
        ensures
            r matches Some(i) ==> i < self.map@.len() && self.map@[i as int].source_file@ == path@,
            r is None ==> !paths_of(self.map@).contains(path@),
            r is Some ==> paths_of(self.map@).contains(path@),
    {
        let n = self.map.len();
        let mut i: usize = 0;
        while i < n
            invariant
                n == self.map@.len(),
                i <= n,
                forall|k: int| 0 <= k < i ==> self.map@[k].source_file@ != path@,
            decreases n - i,
        {
            if self.map[i].source_file == *path {
                proof {
                    assert(paths_of(self.map@)[i as int] == path@);
                }
                return Some(i);
            }
            i += 1;
        }
        proof {
            if paths_of(self.map@).contains(path@) {
                let k = choose|k: int| 0 <= k < n && paths_of(self.map@)[k] == path@;
                assert(self.map@[k].source_file@ == path@);
            }
        }
        None
    }

    pub fn contains(&self, path: &String) -> (r: bool)
        ensures
            r == paths_of(self.map@).contains(path@),
    {
        self.position(path).is_some()
    }

    /// The container opened from `path`, if there is one.
    pub fn get_dont_open(&self, path: &String) -> (r: Option<&SerFile>)
        ensures
            r is None <==> !paths_of(self.map@).contains(path@),
            r matches Some(f) ==> f.source_file@ == path@ && self.map@.contains(*f),
    {
        match self.position(path) {
            Some(i) => Some(&self.map[i]),
            None => None,
        }
    }

    /// Adds an opened container after checking its size; a second
    /// container of the same path is refused.
    pub fn insert(&mut self, ser_file: SerFile) -> (r: Result<(), FpMapError>)
        requires
            old(self).wf(),
            ser_file.wf(),
        ensures
            final(self).wf(),
            paths_of(old(self).map@).contains(ser_file.source_file@) ==> r == Err::<(), FpMapError>(
                FpMapError::AlreadyOpen,
            ),
            !paths_of(old(self).map@).contains(ser_file.source_file@) && !ser_file.is_valid() ==> r
                == Err::<(), FpMapError>(FpMapError::InvalidContainer),
            r is Ok <==> !paths_of(old(self).map@).contains(ser_file.source_file@)
                && ser_file.is_valid(),
            r is Ok ==> final(self).map@ == old(self).map@.push(ser_file),
            r is Err ==> final(self).map@ == old(self).map@,
    {
        if self.contains(&ser_file.source_file) {
            return Err(FpMapError::AlreadyOpen);
        }
        if ser_file.validate().is_err() {
            return Err(FpMapError::InvalidContainer);
        }
        let ghost old_map = self.map@;
        self.map.push(ser_file);
        proof {
            assert(paths_of(self.map@) =~= paths_of(old_map).push(self.map@.last().source_file@));
        }
        Ok(())
    }
}

} // verus!

use vstd::prelude::*;

verus! {

/// The files a node can serve, by name, in the order they were recorded.
pub struct FileManifest {
    pub files: Vec<String>,
}

/// The manifest as it is stored on disk.
pub struct RawFileManifest {
    pub files: Vec<String>,
}

/// The names of a list of files.
pub open spec fn names(files: Seq<String>) -> Seq<Seq<char>> {
    files.map_values(|f: String| f@)
}

impl FileManifest {
    /// A manifest read from its stored form.
    pub fn from_raw(raw: RawFileManifest) -> (m: FileManifest)
        ensures
            names(m.files@) == names(raw.files@),
    {
        FileManifest { files: raw.files }
    }

    /// The stored form of the manifest.
    pub fn to_raw(&self) -> (raw: RawFileManifest)
        ensures
            names(raw.files@) == names(self.files@),
    {
        let mut files: Vec<String> = Vec::new();
        let mut k: usize = 0;
        while k < self.files.len()
            invariant
                k <= self.files@.len(),
                names(files@) == names(self.files@.take(k as int)),
            decreases self.files@.len() - k,
        {
            let ghost before = files@;
            files.push(self.files[k].clone());
            assert(self.files@.take(k as int + 1) =~= self.files@.take(k as int).push(self.files@[k as int]));
            assert(files@ =~= before.push(self.files@[k as int]));
            assert(names(files@) =~= names(before).push(self.files@[k as int]@));
            assert(names(self.files@.take(k as int + 1)) =~= names(self.files@.take(k as int)).push(self.files@[k as int]@));
            k = k + 1;
        }
        assert(self.files@.take(self.files@.len() as int) =~= self.files@);
        RawFileManifest { files }
    }

    /// Whether the node has the file.
    pub fn has_file(&self, file_name: &String) -> (res: bool)
        ensures
            res == names(self.files@).contains(file_name@),
    {
        let mut k: usize = 0;
        while k < self.files.len()
            invariant
                k <= self.files@.len(),
                forall|m: int| 0 <= m < k ==> names(self.files@)[m] != file_name@,
            decreases self.files@.len() - k,
        {
            if self.files[k] == *file_name {
                assert(names(self.files@)[k as int] == file_name@);
                return true;
            }
            k = k + 1;
        }
        false
    }

    /// Records a file the node now has, after those it had.
    pub fn add_file(&mut self, file_name: &String)
        ensures
            names(final(self).files@) == names(old(self).files@).push(file_name@),
    {
        self.files.push(file_name.clone());
        assert(names(self.files@) =~= names(old(self).files@).push(file_name@));
    }
}

} // verus!

//! A snapshot held in memory: the content of each file under its path.

use vstd::prelude::*;
use vstd::hash_map::StringHashMap;

verus! {

/// The files of a snapshot, by normalized relative path.
pub struct FileTree {
    files: StringHashMap<Vec<u8>>,
}

impl View for FileTree {
    type V = Map<Seq<char>, Seq<u8>>;

    closed spec fn view(&self) -> Map<Seq<char>, Seq<u8>> {
        self.files@.map_values(|content: Vec<u8>| content@)
    }
}

impl FileTree {
    /// A snapshot without files.
    pub fn new() -> (tree: FileTree)
        ensures
            tree@ == Map::<Seq<char>, Seq<u8>>::empty(),
    {
        let tree = FileTree { files: StringHashMap::new() };
        assert(tree@ =~= Map::<Seq<char>, Seq<u8>>::empty());
        tree
    }

    /// Puts a file at `path`, in place of the one that was there.
    pub fn insert(&mut self, path: String, content: Vec<u8>)
        ensures
            final(self)@ == old(self)@.insert(path@, content@),
    {
        self.files.insert(path, content);
        assert(self@ =~= old(self)@.insert(path@, content@));
    }

    /// Takes the file at `path` away. Nothing changes where there is none.
    pub fn remove(&mut self, path: &str)
        ensures
            final(self)@ == old(self)@.remove(path@),
    {
        self.files.remove(path);
        assert(self@ =~= old(self)@.remove(path@));
    }

    /// The content of the file at `path`.
    pub fn get(&self, path: &str) -> (content: Option<&Vec<u8>>)
        ensures
            match content {
                Some(c) => self@.contains_key(path@) && self@[path@] == c@,
                None => !self@.contains_key(path@),
            },
    {
        self.files.get(path)
    }

    /// Whether there is a file at `path`.
    pub fn contains(&self, path: &str) -> (yes: bool)
        ensures
            yes == self@.contains_key(path@),
    {
        self.files.contains_key(path)
    }

    /// The number of files.
    pub fn len(&self) -> (n: usize)
        ensures
            n == self@.len(),
    {
        assert(self@.dom() =~= self.files@.dom());
        self.files.len()
    }
}

} // verus!

//! The disk as the storage engine sees it: named files of bytes that can be
//! appended to, read by page, measured and removed.

use vstd::prelude::*;
use vstd::slice::slice_subrange;
use vstd::string::*;

verus! {

/// One file: its path and what it holds.
struct DiskFile {
    name: String,
    bytes: Vec<u8>,
}

/// A set of files, each found by its exact path.
pub struct Disk {
    files: Vec<DiskFile>,
}

/// Whether `p` is a prefix of `s`.
pub open spec fn has_prefix(s: Seq<char>, p: Seq<char>) -> bool {
    p.len() <= s.len() && s.subrange(0, p.len() as int) == p
}

/// How many of the first `n` names start with `prefix`.
pub open spec fn count_prefixed(names: Seq<Seq<char>>, prefix: Seq<char>, n: nat) -> nat
    decreases n,
{
    if n == 0 {
        0
    } else {
        count_prefixed(names, prefix, (n - 1) as nat) + if has_prefix(names[n - 1], prefix) {
            1nat
        } else {
            0nat
        }
    }
}

impl View for Disk {
    type V = Map<Seq<char>, Seq<u8>>;

    /// The disk as a map from path to contents.
    closed spec fn view(&self) -> Map<Seq<char>, Seq<u8>> {
        files_map(self.files@)
    }
}

/// The map from path to contents that a sequence of files stands for.
spec fn files_map(files: Seq<DiskFile>) -> Map<Seq<char>, Seq<u8>> {
    Map::new(
        |n: Seq<char>| exists|i: int| 0 <= i < files.len() && #[trigger] files[i].name@ == n,
        |n: Seq<char>|
            files[choose|i: int| 0 <= i < files.len() && #[trigger] files[i].name@ == n].bytes@,
    )
}

/// No two of the files share a path.
spec fn files_differ(files: Seq<DiskFile>) -> bool {
    forall|i: int, j: int| 0 <= i < j < files.len() ==> files[i].name@ != files[j].name@
}

/// Each file is found under its own path.
proof fn lemma_files_map_at(files: Seq<DiskFile>, i: int)
    requires
        files_differ(files),
        0 <= i < files.len(),
    ensures
        files_map(files).contains_key(files[i].name@),
        files_map(files)[files[i].name@] == files[i].bytes@,
{
    let n = files[i].name@;
    let j = choose|j: int| 0 <= j < files.len() && #[trigger] files[j].name@ == n;
    assert(j == i);
}

impl Disk {
    #[verifier::type_invariant]
    spec fn names_differ(self) -> bool {
        files_differ(self.files@)
    }

    /// How many files have a path that starts with `prefix`.
    pub open spec fn count_under(&self, prefix: Seq<char>) -> nat {
        count_prefixed(self.names(), prefix, self.names().len())
    }

    /// The paths of the files, in the order in which they were created.
    pub closed spec fn names(&self) -> Seq<Seq<char>> {
        Seq::new(self.files@.len(), |i: int| self.files@[i].name@)
    }

    /// Whether a whole page lies at `offset` in the file at `path`.
    pub open spec fn has_page(&self, path: Seq<char>, offset: int) -> bool {
        self@.contains_key(path) && 0 <= offset && offset + 4096 <= self@[path].len()
    }

    /// The 4,096 bytes at `offset` in the file at `path`.
    pub open spec fn page_bytes(&self, path: Seq<char>, offset: int) -> Seq<u8> {
        self@[path].subrange(offset, offset + 4096)
    }

    /// A disk without files.
    pub fn new() -> (disk: Disk)
        ensures
            disk@ == Map::<Seq<char>, Seq<u8>>::empty(),
            disk.names() == Seq::<Seq<char>>::empty(),
    {
        let disk = Disk { files: Vec::new() };
        assert(disk@ =~= Map::<Seq<char>, Seq<u8>>::empty());
        assert(disk.names() =~= Seq::<Seq<char>>::empty());
        disk
    }

    /// Where the file at `path` stands among the files, if it exists.
    fn position(&self, path: &str) -> (found: Option<usize>)
        ensures
            match found {
                Some(i) => i < self.files@.len() && self.files@[i as int].name@ == path@ && self@.contains_key(path@)
                    && self@[path@] == self.files@[i as int].bytes@,
                None => !self@.contains_key(path@),
            },
    {
        proof {
            use_type_invariant(self);
        }
        let wanted: String = String::from_str(path);
        let mut i: usize = 0;
        while i < self.files.len()
            invariant
                i <= self.files@.len(),
                wanted@ == path@,
                self.names_differ(),
                forall|k: int| 0 <= k < i ==> self.files@[k].name@ != path@,
            decreases self.files@.len() - i,
        {
            if self.files[i].name == wanted {
                proof {
                    lemma_files_map_at(self.files@, i as int);
                }
                return Some(i);
            }
            i += 1;
        }
        None
    }

    /// Whether a file exists at `path`.
    pub fn contains(&self, path: &str) -> (yes: bool)
        ensures
            yes == self@.contains_key(path@),
    {
        self.position(path).is_some()
    }

    /// The length in bytes of the file at `path`, if it exists.
    pub fn file_len(&self, path: &str) -> (len: Option<usize>)
        ensures
            match len {
                Some(n) => self@.contains_key(path@) && n == self@[path@].len(),
                None => !self@.contains_key(path@),
            },
    {
        match self.position(path) {
            Some(i) => Some(self.files[i].bytes.len()),
            None => None,
        }
    }

    /// The number of whole pages in the file at `path`; 0 where there is no
    /// such file.
    pub fn page_count(&self, path: &str) -> (pages: usize)
        ensures
            pages == if self@.contains_key(path@) {
                self@[path@].len() / 4096
            } else {
                0
            },
    {
        match self.position(path) {
            Some(i) => self.files[i].bytes.len() / 4096,
            None => 0,
        }
    }

    /// The 4,096 bytes at `offset` in the file at `path`, where the file holds
    /// them.
    pub fn read_page(&self, path: &str, offset: usize) -> (page: Option<&[u8]>)
        ensures
            match page {
                Some(bytes) => self.has_page(path@, offset as int) && bytes@ == self.page_bytes(
                    path@,
                    offset as int,
                ),
                None => !self.has_page(path@, offset as int),
            },
    {
        match self.position(path) {
            Some(i) => {
                let bytes: &Vec<u8> = &self.files[i].bytes;
                if offset <= bytes.len() && bytes.len() - offset >= 4096 {
                    Some(slice_subrange(bytes.as_slice(), offset, offset + 4096))
                } else {
                    None
                }
            },
            None => None,
        }
    }

    /// A copy of the whole file at `path`, if it exists.
    pub fn read_file(&self, path: &str) -> (bytes: Option<Vec<u8>>)
        ensures
            match bytes {
                Some(b) => self@.contains_key(path@) && b@ == self@[path@],
                None => !self@.contains_key(path@),
            },
    {
        match self.position(path) {
            Some(i) => Some(self.files[i].bytes.clone()),
            None => None,
        }
    }
}


/// Whether `s` starts with `p`.
pub fn starts_with(s: &str, p: &str) -> (yes: bool)
    ensures
        yes == has_prefix(s@, p@),
{
    let s_len: usize = s.unicode_len();
    let p_len: usize = p.unicode_len();
    if p_len > s_len {
        return false;
    }
    let head: String = String::from_str(s.substring_char(0, p_len));
    let wanted: String = String::from_str(p);
    head == wanted
}

impl Disk {
    /// Appends `bytes` to the file at `path`, which is created where it does
    /// not exist yet.
    pub fn append(&mut self, path: &str, bytes: Vec<u8>)
        ensures
            final(self)@ == old(self)@.insert(
                path@,
                if old(self)@.contains_key(path@) {
                    old(self)@[path@] + bytes@
                } else {
                    bytes@
                },
            ),
            final(self).names() == if old(self)@.contains_key(path@) {
                old(self).names()
            } else {
                old(self).names().push(path@)
            },
    {
        proof {
            use_type_invariant(&*self);
        }
        let found = self.position(path);
        let mut files: Vec<DiskFile> = Vec::new();
        std::mem::swap(&mut files, &mut self.files);
        let ghost before = files@;
        let mut bytes = bytes;
        match found {
            Some(i) => {
                let mut file = files.remove(i);
                file.bytes.append(&mut bytes);
                files.insert(i, file);
                proof {
                    assert(files@.len() == before.len());
                    assert forall|k: int| 0 <= k < before.len() implies #[trigger] files@[k].name@
                        == before[k].name@ by {}
                    assert(files_differ(files@));
                    assert forall|n: Seq<char>| #[trigger]
                        files_map(files@).contains_key(n) == files_map(before).insert(
                            path@,
                            files@[i as int].bytes@,
                        ).contains_key(n) by {
                        if files_map(files@).contains_key(n) {
                            let k = choose|k: int|
                                0 <= k < files@.len() && #[trigger] files@[k].name@ == n;
                            assert(before[k].name@ == n);
                        }
                        if files_map(before).contains_key(n) {
                            let k = choose|k: int|
                                0 <= k < before.len() && #[trigger] before[k].name@ == n;
                            assert(files@[k].name@ == n);
                        }
                        if n == path@ {
                            assert(files@[i as int].name@ == n);
                        }
                    }
                    assert forall|n: Seq<char>| #[trigger]
                        files_map(files@).contains_key(n) implies files_map(files@)[n]
                        == files_map(before).insert(path@, files@[i as int].bytes@)[n] by {
                        let k = choose|k: int|
                            0 <= k < files@.len() && #[trigger] files@[k].name@ == n;
                        lemma_files_map_at(files@, k);
                        lemma_files_map_at(before, k);
                    }
                    lemma_files_map_at(before, i as int);
                    assert(files_map(files@) =~= files_map(before).insert(
                        path@,
                        files@[i as int].bytes@,
                    ));
                }
            },
            None => {
                let name: String = String::from_str(path);
                files.push(DiskFile { name, bytes });
                proof {
                    let last = before.len() as int;
                    assert forall|k: int| 0 <= k < before.len() implies #[trigger] files@[k]
                        == before[k] by {}
                    assert forall|k: int| 0 <= k < before.len() implies #[trigger] before[k].name@
                        != path@ by {
                        if before[k].name@ == path@ {
                            assert(files_map(before).contains_key(path@));
                        }
                    }
                    assert(files_differ(files@));
                    assert forall|n: Seq<char>| #[trigger]
                        files_map(files@).contains_key(n) == files_map(before).insert(
                            path@,
                            files@[last].bytes@,
                        ).contains_key(n) by {
                        if files_map(files@).contains_key(n) {
                            let k = choose|k: int|
                                0 <= k < files@.len() && #[trigger] files@[k].name@ == n;
                            if k < last {
                                assert(before[k].name@ == n);
                            }
                        }
                        if files_map(before).contains_key(n) {
                            let k = choose|k: int|
                                0 <= k < before.len() && #[trigger] before[k].name@ == n;
                            assert(files@[k].name@ == n);
                        }
                        if n == path@ {
                            assert(files@[last].name@ == n);
                        }
                    }
                    assert forall|n: Seq<char>| #[trigger]
                        files_map(files@).contains_key(n) implies files_map(files@)[n]
                        == files_map(before).insert(path@, files@[last].bytes@)[n] by {
                        let k = choose|k: int|
                            0 <= k < files@.len() && #[trigger] files@[k].name@ == n;
                        lemma_files_map_at(files@, k);
                        if k < last {
                            lemma_files_map_at(before, k);
                        }
                    }
                    assert(files_map(files@) =~= files_map(before).insert(
                        path@,
                        files@[last].bytes@,
                    ));
                }
            },
        }
        self.files = files;
        proof {
            if old(self)@.contains_key(path@) {
                assert(self.names() =~= old(self).names());
            } else {
                assert(self.names() =~= old(self).names().push(path@));
            }
        }
    }

    /// Removes the file at `path`; says whether there was one.
    pub fn remove(&mut self, path: &str) -> (removed: bool)
        ensures
            removed == old(self)@.contains_key(path@),
            final(self)@ == old(self)@.remove(path@),
    {
        proof {
            use_type_invariant(&*self);
        }
        let found = self.position(path);
        match found {
            Some(i) => {
                let mut files: Vec<DiskFile> = Vec::new();
                std::mem::swap(&mut files, &mut self.files);
                let ghost before = files@;
                let _ = files.remove(i);
                proof {
                    assert forall|k: int| 0 <= k < files@.len() implies #[trigger] files@[k] == (
                    if k < i {
                        before[k]
                    } else {
                        before[k + 1]
                    }) by {}
                    assert(files_differ(files@));
                    assert forall|n: Seq<char>| #[trigger]
                        files_map(files@).contains_key(n) == files_map(before).remove(
                            path@,
                        ).contains_key(n) by {
                        if files_map(files@).contains_key(n) {
                            let k = choose|k: int|
                                0 <= k < files@.len() && #[trigger] files@[k].name@ == n;
                            if k < i {
                                assert(before[k].name@ == n);
                            } else {
                                assert(before[k + 1].name@ == n);
                            }
                        }
                        if files_map(before).contains_key(n) && n != path@ {
                            let k = choose|k: int|
                                0 <= k < before.len() && #[trigger] before[k].name@ == n;
                            if k < i {
                                assert(files@[k].name@ == n);
                            } else {
                                assert(files@[k - 1].name@ == n);
                            }
                        }
                    }
                    assert forall|n: Seq<char>| #[trigger]
                        files_map(files@).contains_key(n) implies files_map(files@)[n]
                        == files_map(before).remove(path@)[n] by {
                        let k = choose|k: int|
                            0 <= k < files@.len() && #[trigger] files@[k].name@ == n;
                        lemma_files_map_at(files@, k);
                        if k < i {
                            lemma_files_map_at(before, k);
                        } else {
                            lemma_files_map_at(before, k + 1);
                        }
                    }
                    assert(files_map(files@) =~= files_map(before).remove(path@));
                }
                self.files = files;
                true
            },
            None => {
                assert(self@ =~= old(self)@.remove(path@));
                false
            },
        }
    }

    /// Brings to notice that the names are the paths of the files, each
    /// once.
    pub fn note_names(&self)
        ensures
            self.names().no_duplicates(),
            forall|n: Seq<char>| self@.contains_key(n) <==> self.names().contains(n),
    {
        proof {
            use_type_invariant(self);
            let names = self.names();
            assert forall|n: Seq<char>| self@.contains_key(n) <==> names.contains(n) by {
                if self@.contains_key(n) {
                    let i = choose|i: int|
                        0 <= i < self.files@.len() && #[trigger] self.files@[i].name@ == n;
                    assert(names[i] == n);
                }
                if names.contains(n) {
                    let i = names.index_of(n);
                    assert(names[i] == n);
                    assert(self.files@[i].name@ == n);
                }
            }
        }
    }

    /// How many files have a path that starts with `prefix`.
    pub fn count_prefix(&self, prefix: &str) -> (count: usize)
        ensures
            count == self.count_under(prefix@),
    {
        let mut count: usize = 0;
        let mut i: usize = 0;
        while i < self.files.len()
            invariant
                i <= self.files@.len(),
                count <= i,
                count == count_prefixed(self.names(), prefix@, i as nat),
            decreases self.files@.len() - i,
        {
            if starts_with(self.files[i].name.as_str(), prefix) {
                count += 1;
            }
            i += 1;
        }
        count
    }

    /// The paths of all files, in the order in which they were created.
    pub fn paths(&self) -> (paths: Vec<String>)
        ensures
            paths@.len() == self.names().len(),
            forall|i: int| 0 <= i < paths@.len() ==> paths@[i]@ == self.names()[i],
    {
        let mut paths: Vec<String> = Vec::new();
        let mut i: usize = 0;
        while i < self.files.len()
            invariant
                i <= self.files@.len(),
                paths@.len() == i,
                forall|k: int| 0 <= k < i ==> paths@[k]@ == self.names()[k],
            decreases self.files@.len() - i,
        {
            paths.push(self.files[i].name.clone());
            i += 1;
        }
        paths
    }
}


/// Where no name is counted, no name starts with the prefix.
pub proof fn lemma_none_counted(names: Seq<Seq<char>>, prefix: Seq<char>, n: nat)
    requires
        n <= names.len(),
        count_prefixed(names, prefix, n) == 0,
    ensures
        forall|i: int| 0 <= i < n ==> !has_prefix(#[trigger] names[i], prefix),
    decreases n,
{
    if n > 0 {
        lemma_none_counted(names, prefix, (n - 1) as nat);
    }
}

} // verus!

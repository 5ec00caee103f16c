//! A directory tree built from a terminal transcript: files with sizes,
//! directories owning their entries, and queries over directory sizes.

use vstd::prelude::*;

verus! {

broadcast use vstd::seq::axiom_seq_index_decreases, vstd::std_specs::vec::axiom_vec_decreases_to_view;

/// What an entry is: a file of a known size, or a directory owning entries.
#[derive(Debug)]
pub enum DirInfo {
    File(u32),
    Dir(Vec<DirEntry>),
}

/// One named entry of the tree.
#[derive(Debug)]
pub struct DirEntry {
    pub name: String,
    info: DirInfo,
}

/// The size of an entry: a file's own size, or everything under a directory.
pub closed spec fn spec_size(e: DirEntry) -> int
    decreases e, 0int, 0int,
{
    match e.info {
        DirInfo::File(size) => size as int,
        DirInfo::Dir(v) => sum_sizes(v@, v@.len() as int),
    }
}

/// The sizes of the first `k` entries, summed.
pub closed spec fn sum_sizes(s: Seq<DirEntry>, k: int) -> int
    decreases s, 1int, k,
{
    if k <= 0 || k > s.len() {
        0
    } else {
        sum_sizes(s, k - 1) + spec_size(s[k - 1])
    }
}

/// The sum, over every directory at or under an entry whose size is below
/// `size`, of that directory's size.
pub closed spec fn spec_less_than(e: DirEntry, size: int) -> int
    decreases e, 0int, 0int,
{
    match e.info {
        DirInfo::File(_) => 0,
        DirInfo::Dir(v) => {
            let total = sum_less_than(v@, v@.len() as int, size);
            if spec_size(e) < size {
                spec_size(e) + total
            } else {
                total
            }
        },
    }
}

/// The same sum over the first `k` entries of a directory.
pub closed spec fn sum_less_than(s: Seq<DirEntry>, k: int, size: int) -> int
    decreases s, 1int, k,
{
    if k <= 0 || k > s.len() {
        0
    } else {
        sum_less_than(s, k - 1, size) + spec_less_than(s[k - 1], size)
    }
}

/// The running search for the smallest directory larger than `size`: each
/// child is searched in turn, and after each child the directory offers its
/// own size if nothing has been found yet.
pub closed spec fn smallest_upto(s: Seq<DirEntry>, k: int, own_size: int, size: int) -> int
    decreases s, 1int, k,
{
    if k <= 0 || k > s.len() {
        u32::MAX as int
    } else {
        let prev = smallest_upto(s, k - 1, own_size, size);
        let result = spec_smallest(s[k - 1], size);
        let picked = if result < prev {
            result
        } else {
            prev
        };
        if picked == u32::MAX as int && own_size > size {
            own_size
        } else {
            picked
        }
    }
}

/// The size of the smallest directory at or under an entry that is larger
/// than `size`; the sentinel maximum when the entry offers none.
pub closed spec fn spec_smallest(e: DirEntry, size: int) -> int
    decreases e, 0int, 0int,
{
    match e.info {
        DirInfo::File(_) => u32::MAX as int,
        DirInfo::Dir(v) => smallest_upto(v@, v@.len() as int, spec_size(e), size),
    }
}

/// Sizes are never negative.
pub proof fn lemma_size_nonneg(e: DirEntry)
    ensures
        spec_size(e) >= 0,
    decreases e, 0int, 0int,
{
    match e.info {
        DirInfo::File(_) => {},
        DirInfo::Dir(v) => {
            lemma_sum_sizes_nonneg(v@, v@.len() as int);
        },
    }
}

proof fn lemma_sum_sizes_nonneg(s: Seq<DirEntry>, k: int)
    requires
        k <= s.len(),
    ensures
        0 <= sum_sizes(s, k),
        forall|j: int| 0 <= j <= k ==> #[trigger] sum_sizes(s, j) <= sum_sizes(s, k),
    decreases s, 1int, k,
{
    if k > 0 {
        lemma_sum_sizes_nonneg(s, k - 1);
        lemma_size_nonneg(s[k - 1]);
        assert forall|j: int| 0 <= j <= k implies #[trigger] sum_sizes(s, j) <= sum_sizes(s, k) by {
            if j < k {
                assert(sum_sizes(s, j) <= sum_sizes(s, k - 1));
            }
        }
    }
}

/// Below-threshold sums are never negative.
proof fn lemma_less_than_nonneg(e: DirEntry, size: int)
    ensures
        spec_less_than(e, size) >= 0,
    decreases e, 0int, 0int,
{
    match e.info {
        DirInfo::File(_) => {},
        DirInfo::Dir(v) => {
            lemma_sum_less_nonneg(v@, v@.len() as int, size);
            lemma_size_nonneg(e);
        },
    }
}

proof fn lemma_sum_less_nonneg(s: Seq<DirEntry>, k: int, size: int)
    requires
        k <= s.len(),
    ensures
        0 <= sum_less_than(s, k, size),
        forall|j: int|
            0 <= j <= k ==> #[trigger] sum_less_than(s, j, size) <= sum_less_than(s, k, size),
    decreases s, 1int, k,
{
    if k > 0 {
        lemma_sum_less_nonneg(s, k - 1, size);
        lemma_less_than_nonneg(s[k - 1], size);
        assert forall|j: int|
            0 <= j <= k implies #[trigger] sum_less_than(s, j, size) <= sum_less_than(
            s,
            k,
            size,
        ) by {
            if j < k {
                assert(sum_less_than(s, j, size) <= sum_less_than(s, k - 1, size));
            }
        }
    }
}

/// The search result stays within the sentinel bound.
proof fn lemma_smallest_bounds(s: Seq<DirEntry>, k: int, own_size: int, size: int)
    requires
        k <= s.len(),
        0 <= own_size <= u32::MAX,
        forall|j: int| 0 <= j < k ==> spec_size(#[trigger] s[j]) <= u32::MAX,
    ensures
        0 <= smallest_upto(s, k, own_size, size) <= u32::MAX,
    decreases s, 1int, k,
{
    if k > 0 {
        lemma_smallest_bounds(s, k - 1, own_size, size);
        lemma_spec_smallest_bounds(s[k - 1], size);
    }
}

/// On an entry whose size fits, the search result also fits.
proof fn lemma_spec_smallest_bounds(e: DirEntry, size: int)
    requires
        spec_size(e) <= u32::MAX,
    ensures
        0 <= spec_smallest(e, size) <= u32::MAX,
    decreases e, 0int, 0int,
{
    match e.info {
        DirInfo::File(_) => {},
        DirInfo::Dir(v) => {
            lemma_size_nonneg(e);
            lemma_sum_sizes_nonneg(v@, v@.len() as int);
            assert forall|j: int|
                0 <= j < v@.len() implies spec_size(#[trigger] v@[j]) <= u32::MAX by {
                assert(sum_sizes(v@, j + 1) == sum_sizes(v@, j) + spec_size(v@[j]));
                assert(sum_sizes(v@, j) >= 0) by {
                    lemma_sum_sizes_nonneg(v@, j);
                }
                assert(sum_sizes(v@, j + 1) <= sum_sizes(v@, v@.len() as int));
            }
            lemma_smallest_bounds(v@, v@.len() as int, spec_size(e), size);
        },
    }
}

impl DirEntry {
    /// The entry's contents, as specification data.
    pub closed spec fn spec_info(&self) -> DirInfo {
        self.info
    }

    /// The entry's name.
    pub closed spec fn spec_name(&self) -> Seq<char> {
        self.name@
    }

    /// Whether the entry is a directory.
    pub open spec fn is_dir(&self) -> bool {
        self.spec_info() is Dir
    }

    /// A directory's entries.
    pub open spec fn spec_children(&self) -> Seq<DirEntry> {
        self.spec_info()->Dir_0@
    }

    /// A fresh, empty directory.
    pub fn new_dir(name: String) -> (r: Self)
        ensures
            r.spec_name() == name@,
            r.is_dir(),
            r.spec_children() == Seq::<DirEntry>::empty(),
    {
        Self { name, info: DirInfo::Dir(Vec::new()) }
    }

    /// A file of the given size.
    pub fn new_file(name: String, size: u32) -> (r: Self)
        ensures
            r.spec_name() == name@,
            r.spec_info() == DirInfo::File(size),
    {
        Self { name, info: DirInfo::File(size) }
    }

    /// Add an empty directory to this directory.
    pub fn add_new_dir(&mut self, name: String)
        requires
            old(self).is_dir(),
        ensures
            final(self).spec_name() == old(self).spec_name(),
            final(self).is_dir(),
            final(self).spec_children().len() == old(self).spec_children().len() + 1,
            final(self).spec_children().drop_last() == old(self).spec_children(),
            ({
                let e = final(self).spec_children().last();
                e.spec_name() == name@ && e.is_dir() && e.spec_children() == Seq::<DirEntry>::empty()
            }),
    {
        let entry = Self::new_dir(name);
        match self.info {
            DirInfo::File(_) => {
                proof {
                    assert(false);
                }
            },
            DirInfo::Dir(ref mut v) => {
                v.push(entry);
                proof {
                    assert(v@.drop_last() =~= old(self).spec_children());
                }
            },
        }
    }

    /// Add a file to this directory.
    pub fn add_new_file(&mut self, name: String, size: u32)
        requires
            old(self).is_dir(),
        ensures
            final(self).spec_name() == old(self).spec_name(),
            final(self).is_dir(),
            final(self).spec_children().len() == old(self).spec_children().len() + 1,
            final(self).spec_children().drop_last() == old(self).spec_children(),
            ({
                let e = final(self).spec_children().last();
                e.spec_name() == name@ && e.spec_info() == DirInfo::File(size)
            }),
    {
        let entry = Self::new_file(name, size);
        match self.info {
            DirInfo::File(_) => {
                proof {
                    assert(false);
                }
            },
            DirInfo::Dir(ref mut v) => {
                v.push(entry);
                proof {
                    assert(v@.drop_last() =~= old(self).spec_children());
                }
            },
        }
    }

    /// The entry's size.
    pub fn get_size(&self) -> (r: u32)
        requires
            spec_size(*self) <= u32::MAX,
        ensures
            r == spec_size(*self),
        decreases *self,
    {
        match self.info {
            DirInfo::File(size) => size,
            DirInfo::Dir(ref v) => {
                proof {
                    assert(self.spec_info() == DirInfo::Dir(*v));
                }
                let mut total: u32 = 0;
                let n = v.len();
                let mut i: usize = 0;
                proof {
                    lemma_sum_sizes_nonneg(v@, n as int);
                    assert(spec_size(*self) == sum_sizes(v@, n as int));
                }
                while i < n
                    invariant
                        self.spec_info() == DirInfo::Dir(*v),
                        n == v@.len(),
                        i <= n,
                        total == sum_sizes(v@, i as int),
                        sum_sizes(v@, n as int) <= u32::MAX,
                        forall|j: int|
                            0 <= j <= n ==> #[trigger] sum_sizes(v@, j) <= sum_sizes(v@, n as int),
                        spec_size(*self) == sum_sizes(v@, n as int),
                    decreases n - i,
                {
                    proof {
                        lemma_sum_sizes_nonneg(v@, i + 1);
                        lemma_size_nonneg(v@[i as int]);
                        assert(sum_sizes(v@, i + 1) == sum_sizes(v@, i as int) + spec_size(
                            v@[i as int],
                        ));
                        assert(spec_size(v@[i as int]) <= u32::MAX);
                    }
                    total = total + v[i].get_size();
                    i = i + 1;
                }
                total
            },
        }
    }

    /// The first entry of this directory with the given name; one must exist.
    pub fn get_subdir(&self, name: String) -> (r: &DirEntry)
        requires
            self.is_dir(),
            exists|i: int|
                0 <= i < self.spec_children().len() && (#[trigger] self.spec_children()[i]).spec_name()
                    == name@,
        ensures
            exists|i: int|
                {
                    &&& 0 <= i < self.spec_children().len()
                    &&& *r == self.spec_children()[i]
                    &&& (#[trigger] self.spec_children()[i]).spec_name() == name@
                    &&& forall|k: int| 0 <= k < i ==> self.spec_children()[k].spec_name() != name@
                },
    {
        match self.info {
            DirInfo::File(_) => {
                proof {
                    assert(false);
                }
                self
            },
            DirInfo::Dir(ref v) => {
                proof {
                    assert(self.spec_info() == DirInfo::Dir(*v));
                }
                let n = v.len();
                let mut i: usize = 0;
                while i < n
                    invariant
                        self.is_dir(),
                        self.spec_info() == DirInfo::Dir(*v),
                        self.spec_children() == v@,
                        n == v@.len(),
                        i <= n,
                        forall|k: int| 0 <= k < i ==> (#[trigger] v@[k]).spec_name() != name@,
                        exists|k: int| 0 <= k < n && (#[trigger] v@[k]).spec_name() == name@,
                    decreases n - i,
                {
                    if self.names_equal(i, &name) {
                        proof {
                            assert(self.spec_children()[i as int].spec_name() == name@);
                        }
                        return &v[i];
                    }
                    i = i + 1;
                }
                proof {
                    assert(false);
                }
                self
            },
        }
    }

    /// Whether child `i`'s name equals the given name.
    fn names_equal(&self, i: usize, name: &String) -> (r: bool)
        requires
            self.is_dir(),
            i < self.spec_children().len(),
        ensures
            r == (self.spec_children()[i as int].spec_name() == name@),
    {
        match self.info {
            DirInfo::File(_) => {
                proof {
                    assert(false);
                }
                false
            },
            DirInfo::Dir(ref v) => {
                proof {
                    assert(self.spec_info() == DirInfo::Dir(*v));
                }
                v[i].name == *name
            },
        }
    }

    /// The sum of the sizes of every directory here or below whose size is
    /// under the threshold.
    pub fn get_less_than(&self, size: u32) -> (r: u32)
        requires
            spec_size(*self) <= u32::MAX,
            spec_less_than(*self, size as int) <= u32::MAX,
        ensures
            r == spec_less_than(*self, size as int),
        decreases *self,
    {
        match self.info {
            DirInfo::File(_) => 0,
            DirInfo::Dir(ref v) => {
                proof {
                    assert(self.spec_info() == DirInfo::Dir(*v));
                }
                let mut total: u32 = 0;
                let n = v.len();
                let mut i: usize = 0;
                proof {
                    lemma_sum_less_nonneg(v@, n as int, size as int);
                    lemma_sum_sizes_nonneg(v@, n as int);
                    lemma_size_nonneg(*self);
                    assert(spec_size(*self) == sum_sizes(v@, n as int));
                }
                while i < n
                    invariant
                        self.spec_info() == DirInfo::Dir(*v),
                        n == v@.len(),
                        i <= n,
                        total == sum_less_than(v@, i as int, size as int),
                        sum_less_than(v@, n as int, size as int) <= u32::MAX,
                        forall|j: int|
                            0 <= j <= n ==> #[trigger] sum_less_than(v@, j, size as int)
                                <= sum_less_than(v@, n as int, size as int),
                        spec_size(*self) <= u32::MAX,
                        sum_sizes(v@, n as int) == spec_size(*self),
                        forall|j: int|
                            0 <= j <= n ==> #[trigger] sum_sizes(v@, j) <= sum_sizes(v@, n as int),
                        spec_less_than(*self, size as int) <= u32::MAX,
                    decreases n - i,
                {
                    proof {
                        lemma_sum_less_nonneg(v@, i + 1, size as int);
                        lemma_sum_less_nonneg(v@, i as int, size as int);
                        lemma_less_than_nonneg(v@[i as int], size as int);
                        lemma_sum_sizes_nonneg(v@, i + 1);
                        lemma_sum_sizes_nonneg(v@, i as int);
                        lemma_size_nonneg(v@[i as int]);
                        assert(sum_sizes(v@, i + 1) == sum_sizes(v@, i as int) + spec_size(
                            v@[i as int],
                        ));
                        assert(sum_less_than(v@, i + 1, size as int) == sum_less_than(
                            v@,
                            i as int,
                            size as int,
                        ) + spec_less_than(v@[i as int], size as int));
                        assert(spec_size(v@[i as int]) <= u32::MAX);
                        assert(spec_less_than(v@[i as int], size as int) <= u32::MAX);
                    }
                    total = total + v[i].get_less_than(size);
                    i = i + 1;
                }
                let dir_size = self.get_size();
                if dir_size < size {
                    dir_size + total
                } else {
                    total
                }
            },
        }
    }

    /// The size of the smallest directory here or below larger than the
    /// threshold; the sentinel maximum when there is none.
    pub fn get_smallest_dir_larger_than(&self, size: u32) -> (r: u32)
        requires
            spec_size(*self) <= u32::MAX,
        ensures
            r == spec_smallest(*self, size as int),
        decreases *self,
    {
        match self.info {
            DirInfo::File(_) => u32::MAX,
            DirInfo::Dir(ref v) => {
                proof {
                    assert(self.spec_info() == DirInfo::Dir(*v));
                }
                let mut smallest: u32 = u32::MAX;
                let n = v.len();
                let mut i: usize = 0;
                proof {
                    lemma_sum_sizes_nonneg(v@, n as int);
                    lemma_size_nonneg(*self);
                    assert(spec_size(*self) == sum_sizes(v@, n as int));
                }
                while i < n
                    invariant
                        self.spec_info() == DirInfo::Dir(*v),
                        n == v@.len(),
                        i <= n,
                        smallest == smallest_upto(v@, i as int, spec_size(*self), size as int),
                        spec_size(*self) <= u32::MAX,
                        sum_sizes(v@, n as int) == spec_size(*self),
                        forall|j: int|
                            0 <= j <= n ==> #[trigger] sum_sizes(v@, j) <= sum_sizes(v@, n as int),
                    decreases n - i,
                {
                    proof {
                        lemma_sum_sizes_nonneg(v@, i + 1);
                        lemma_sum_sizes_nonneg(v@, i as int);
                        lemma_size_nonneg(v@[i as int]);
                        assert(sum_sizes(v@, i + 1) == sum_sizes(v@, i as int) + spec_size(
                            v@[i as int],
                        ));
                        assert(spec_size(v@[i as int]) <= u32::MAX);
                        lemma_spec_smallest_bounds(v@[i as int], size as int);
                    }
                    let result = v[i].get_smallest_dir_larger_than(size);
                    if result < smallest {
                        smallest = result;
                    }
                    if smallest == u32::MAX {
                        let our_size = self.get_size();
                        if our_size > size {
                            smallest = our_size;
                        }
                    }
                    i = i + 1;
                }
                smallest
            },
        }
    }

    /// Whether the path names a chain of directories below this one.
    pub fn has_dir_path(&self, path: &Vec<String>, depth: usize) -> (r: bool)
        requires
            self.is_dir(),
            depth <= path@.len(),
        ensures
            r == spec_has_dir_path(*self, path@.map_values(|s: String| s@), depth as int),
        decreases path@.len() - depth,
    {
        if depth == path.len() {
            return true;
        }
        let name = &path[depth];
        match self.info {
            DirInfo::File(_) => {
                proof {
                    assert(false);
                }
                false
            },
            DirInfo::Dir(ref v) => {
                proof {
                    assert(self.spec_info() == DirInfo::Dir(*v));
                }
                let ghost spath = path@.map_values(|t: String| t@);
                let n = v.len();
                let mut i: usize = 0;
                while i < n
                    invariant
                        self.is_dir(),
                        self.spec_info() == DirInfo::Dir(*v),
                        self.spec_children() == v@,
                        depth < path@.len(),
                        depth < usize::MAX,
                        spath == path@.map_values(|t: String| t@),
                        spath.len() == path@.len(),
                        n == v@.len(),
                        i <= n,
                        name@ == spath[depth as int],
                        forall|k: int|
                            0 <= k < i ==> !((#[trigger] v@[k]).spec_name() == name@
                                && v@[k].is_dir()),
                        spec_first_dir_index(v@, name@, 0) == spec_first_dir_index(
                            v@,
                            name@,
                            i as int,
                        ),
                    decreases n - i,
                {
                    let matches = self.names_equal(i, name);
                    if matches {
                        match v[i].info {
                            DirInfo::Dir(_) => {
                                proof {
                                    assert(spec_first_dir_index(v@, name@, i as int) == i);
                                }
                                let sub = &v[i];
                                let r = sub.has_dir_path(path, depth + 1);
                                proof {
                                    assert(spec_has_dir_path(*self, spath, depth as int) == (
                                    exists|k: int|
                                        0 <= k < v@.len() && (#[trigger] v@[k]).spec_name()
                                            == spath[depth as int] && v@[k].is_dir()
                                        && spec_has_dir_path(
                                        v@[spec_first_dir_index(v@, spath[depth as int], 0)],
                                        spath,
                                        depth + 1,
                                    )));
                                    assert(v@[i as int].spec_name() == spath[depth as int]
                                        && v@[i as int].is_dir());
                                }
                                return r;
                            },
                            DirInfo::File(_) => {},
                        }
                    }
                    i = i + 1;
                }
                proof {
                    if spec_has_dir_path(*self, spath, depth as int) {
                        let k = choose|k: int|
                            0 <= k < v@.len() && (#[trigger] v@[k]).spec_name()
                                == spath[depth as int] && v@[k].is_dir();
                        assert(false);
                    }
                }
                false
            },
        }
    }

    /// Add an entry to the directory the path names.
    pub fn add_at_path(&mut self, path: &Vec<String>, depth: usize, entry: DirEntry)
        requires
            old(self).is_dir(),
            depth <= path@.len(),
            spec_has_dir_path(*old(self), path@.map_values(|s: String| s@), depth as int),
        ensures
            final(self).spec_name() == old(self).spec_name(),
            final(self).is_dir(),
        decreases path@.len() - depth,
    {
        if depth == path.len() {
            match self.info {
                DirInfo::File(_) => {
                    proof {
                        assert(false);
                    }
                },
                DirInfo::Dir(ref mut v) => {
                    v.push(entry);
                },
            }
            return ;
        }
        let ghost spath = path@.map_values(|t: String| t@);
        let name = &path[depth];
        proof {
            assert(name@ == spath[depth as int]);
            assert(spec_has_dir_path(*self, spath, depth as int));
            lemma_path_gives_child(*self, spath, depth as int);
        }
        let idx = self.first_dir_index(name);
        match self.info {
            DirInfo::File(_) => {
                proof {
                    assert(false);
                }
            },
            DirInfo::Dir(ref mut v) => {
                proof {
                    assert(spec_has_dir_path(
                        v@[spec_first_dir_index(v@, spath[depth as int], 0)],
                        spath,
                        depth + 1,
                    ));
                }
                let mut child = v.remove(idx);
                child.add_at_path(path, depth + 1, entry);
                v.insert(idx, child);
            },
        }
    }

    /// The first child directory with the given name; the path predicate
    /// guarantees one exists.
    fn first_dir_index(&self, name: &String) -> (r: usize)
        requires
            self.is_dir(),
            exists|i: int|
                0 <= i < self.spec_children().len() && (#[trigger] self.spec_children()[i]).spec_name()
                    == name@ && self.spec_children()[i].is_dir(),
        ensures
            r < self.spec_children().len(),
            self.spec_children()[r as int].spec_name() == name@,
            self.spec_children()[r as int].is_dir(),
            spec_first_dir_index(self.spec_children(), name@, 0) == r,
    {
        match self.info {
            DirInfo::File(_) => {
                proof {
                    assert(false);
                }
                0
            },
            DirInfo::Dir(ref v) => {
                proof {
                    assert(self.spec_info() == DirInfo::Dir(*v));
                }
                let n = v.len();
                let mut i: usize = 0;
                while i < n
                    invariant
                        self.is_dir(),
                        self.spec_children() == v@,
                        n == v@.len(),
                        i <= n,
                        exists|k: int|
                            0 <= k < n && (#[trigger] v@[k]).spec_name() == name@ && v@[k].is_dir(),
                        forall|k: int|
                            0 <= k < i ==> !((#[trigger] v@[k]).spec_name() == name@
                                && v@[k].is_dir()),
                        spec_first_dir_index(v@, name@, 0) == spec_first_dir_index(
                            v@,
                            name@,
                            i as int,
                        ),
                    decreases n - i,
                {
                    let matches = self.names_equal(i, name);
                    if matches {
                        match v[i].info {
                            DirInfo::Dir(_) => {
                                proof {
                                    assert(spec_first_dir_index(v@, name@, i as int) == i);
                                }
                                return i;
                            },
                            DirInfo::File(_) => {},
                        }
                    }
                    i = i + 1;
                }
                proof {
                    let k = choose|k: int|
                        0 <= k < v@.len() && (#[trigger] v@[k]).spec_name() == name@
                            && v@[k].is_dir();
                    assert(false);
                }
                0
            },
        }
    }
}

/// A path predicate at an unexhausted depth names some child directory.
proof fn lemma_path_gives_child(e: DirEntry, path: Seq<Seq<char>>, depth: int)
    requires
        e.is_dir(),
        0 <= depth < path.len(),
        spec_has_dir_path(e, path, depth),
    ensures
        exists|k: int|
            0 <= k < e.spec_children().len() && (#[trigger] e.spec_children()[k]).spec_name()
                == path[depth] && e.spec_children()[k].is_dir(),
{
    match e.spec_info() {
        DirInfo::File(_) => {
            assert(false);
        },
        DirInfo::Dir(v) => {
            assert(e.spec_children() == v@);
            let k = choose|k: int|
                0 <= k < v@.len() && (#[trigger] v@[k]).spec_name() == path[depth]
                    && v@[k].is_dir();
            assert(0 <= k < e.spec_children().len() && e.spec_children()[k].spec_name()
                == path[depth] && e.spec_children()[k].is_dir());
        },
    }
}

/// Where the scan for the first matching child directory lands.
pub closed spec fn spec_first_dir_index(s: Seq<DirEntry>, name: Seq<char>, from: int) -> int
    decreases s.len() - from,
{
    if from < 0 || from >= s.len() {
        s.len() as int
    } else if s[from].spec_name() == name && s[from].is_dir() {
        from
    } else {
        spec_first_dir_index(s, name, from + 1)
    }
}

/// The path names a chain of directories: empty paths name the entry itself,
/// and each component must be a child directory of the one before.
pub closed spec fn spec_has_dir_path(e: DirEntry, path: Seq<Seq<char>>, depth: int) -> bool
    decreases path.len() - depth,
{
    if depth >= path.len() {
        true
    } else {
        match e.spec_info() {
            DirInfo::File(_) => false,
            DirInfo::Dir(v) => {
                let i = spec_first_dir_index(v@, path[depth], 0);
                &&& exists|k: int|
                    0 <= k < v@.len() && (#[trigger] v@[k]).spec_name() == path[depth] && v@[k].is_dir()
                &&& spec_has_dir_path(v@[i], path, depth + 1)
            },
        }
    }
}

} // verus!

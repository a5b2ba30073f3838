//! Directory sizes reconstructed from a shell transcript.
//!
//! The input replays `cd` and `ls` commands. Directories live in an arena,
//! addressed by index; each directory maps names to file sizes and to child
//! directory indices, and a new child is always appended at the end of the
//! arena, so every child index exceeds its parent's. A directory's size is
//! its files plus its subdirectories, recursively. The first answer sums the
//! sizes of all directories of at most a hundred thousand; the second finds
//! the smallest directory whose deletion frees enough space.

use crate::text::{lines_spec, lines_of, tokens_of, tokens_spec, parse_usize, parse_usize_spec, views, bytes_eq, copy_range};
use vstd::prelude::*;
use vstd::string::StringSliceAdditionalSpecFns;

verus! {

/// One file: its size.
pub struct File {
    pub size: usize,
}

/// One directory: its parent's index, its files by name, and its child
/// directories by name.
pub struct Dir {
    parent: usize,
    files: Vec<(Vec<u8>, File)>,
    dirs: Vec<(Vec<u8>, usize)>,
}

/// The mathematical state of one directory.
pub ghost struct DirV {
    pub parent: nat,
    pub files: Seq<(Seq<u8>, nat)>,
    pub dirs: Seq<(Seq<u8>, nat)>,
}

impl View for Dir {
    type V = DirV;

    closed spec fn view(&self) -> DirV {
        DirV {
            parent: self.parent as nat,
            files: self.files@.map_values(|p: (Vec<u8>, File)| (p.0@, p.1.size as nat)),
            dirs: self.dirs@.map_values(|p: (Vec<u8>, usize)| (p.0@, p.1 as nat)),
        }
    }
}

/// Index of the first entry under key `k`, or -1 when there is none.
pub open spec fn find_key(m: Seq<(Seq<u8>, nat)>, k: Seq<u8>) -> int
    decreases m.len(),
{
    if m.len() == 0 {
        -1
    } else if m[0].0 == k {
        0
    } else {
        let r = find_key(m.drop_first(), k);
        if r < 0 {
            -1
        } else {
            1 + r
        }
    }
}

/// `find_key` returns the least matching index, or -1 when no key matches.
pub proof fn lemma_find_key_spec(m: Seq<(Seq<u8>, nat)>, k: Seq<u8>)
    ensures
        find_key(m, k) == -1 ==> forall|i: int| 0 <= i < m.len() ==> (#[trigger] m[i]).0 != k,
        find_key(m, k) >= 0 ==> find_key(m, k) < m.len() && m[find_key(m, k)].0 == k,
        find_key(m, k) >= 0 ==> forall|i: int| 0 <= i < find_key(m, k) ==> (#[trigger] m[i]).0
            != k,
        find_key(m, k) >= -1,
    decreases m.len(),
{
    if m.len() > 0 && m[0].0 != k {
        lemma_find_key_spec(m.drop_first(), k);
        assert(forall|i: int|
            1 <= i < m.len() ==> (#[trigger] m[i]) == m.drop_first()[i - 1]);
    }
}

/// The map with `k` bound to `v`: the first entry under `k` replaced, or a
/// new entry appended.
pub open spec fn upsert(m: Seq<(Seq<u8>, nat)>, k: Seq<u8>, v: nat) -> Seq<(Seq<u8>, nat)> {
    let i = find_key(m, k);
    if i < 0 {
        m.push((k, v))
    } else {
        m.update(i, (k, v))
    }
}

/// The mathematical state of the whole arena: the directories and the index
/// of the current one.
pub ghost struct ArenaV {
    pub cur: nat,
    pub dirs: Seq<DirV>,
}

/// The directory arena and a cursor for the replayed `cd` commands.
pub struct Arena {
    cur_node: usize,
    dirs: Vec<Dir>,
}

impl View for Arena {
    type V = ArenaV;

    closed spec fn view(&self) -> ArenaV {
        ArenaV { cur: self.cur_node as nat, dirs: self.dirs@.map_values(|d: Dir| d@) }
    }
}

/// A sound arena: the cursor and every parent are in range, and every child
/// index strictly exceeds its parent's index (children are appended after
/// their parents), so the directory graph is a forest ordered by index.
pub open spec fn arena_wf(a: ArenaV) -> bool {
    &&& a.dirs.len() >= 1
    &&& a.cur < a.dirs.len()
    &&& forall|i: int| 0 <= i < a.dirs.len() ==> (#[trigger] a.dirs[i]).parent < a.dirs.len()
    &&& forall|i: int, j: int|
        0 <= i < a.dirs.len() && 0 <= j < a.dirs[i].dirs.len() ==> i < (#[trigger] a.dirs[i].dirs[j]).1
            < a.dirs.len()
}

/// The sum of a directory's own file sizes.
pub open spec fn file_sum(files: Seq<(Seq<u8>, nat)>) -> nat
    decreases files.len(),
{
    if files.len() == 0 {
        0
    } else {
        file_sum(files.drop_last()) + files.last().1
    }
}

/// The recursive size of directory `i`: its files plus the sizes of the
/// children named in its listing (only forward, in-range children count,
/// which a sound arena always has).
pub open spec fn dir_total(v: Seq<DirV>, i: int) -> nat
    decreases v.len() - i, 1int, 0int,
{
    if !(0 <= i < v.len()) {
        0
    } else {
        file_sum(v[i].files) + kids_sum(v, v[i].dirs, i)
    }
}

/// The summed sizes of the children listed in `kids` of directory `bound`.
pub open spec fn kids_sum(v: Seq<DirV>, kids: Seq<(Seq<u8>, nat)>, bound: int) -> nat
    decreases v.len() - bound, 0int, kids.len(),
{
    if kids.len() == 0 || !(0 <= bound < v.len()) {
        0
    } else {
        let c = kids.last().1 as int;
        kids_sum(v, kids.drop_last(), bound) + if bound < c < v.len() {
            dir_total(v, c)
        } else {
            0
        }
    }
}

/// A prefix of the children weighs no more than all of them.
proof fn lemma_kids_sum_prefix(v: Seq<DirV>, kids: Seq<(Seq<u8>, nat)>, bound: int, k: int)
    requires
        0 <= k <= kids.len(),
    ensures
        kids_sum(v, kids.take(k), bound) <= kids_sum(v, kids, bound),
    decreases kids.len() - k,
{
    if k < kids.len() {
        lemma_kids_sum_prefix(v, kids, bound, k + 1);
        assert(kids.take(k + 1).drop_last() =~= kids.take(k));
    } else {
        assert(kids.take(k) =~= kids);
    }
}

/// A prefix of the files weighs no more than all of them.
proof fn lemma_file_sum_prefix(files: Seq<(Seq<u8>, nat)>, k: int)
    requires
        0 <= k <= files.len(),
    ensures
        file_sum(files.take(k)) <= file_sum(files),
    decreases files.len() - k,
{
    if k < files.len() {
        lemma_file_sum_prefix(files, k + 1);
        assert(files.take(k + 1).drop_last() =~= files.take(k));
    } else {
        assert(files.take(k) =~= files);
    }
}

impl Dir {
    /// An empty directory under the given parent.
    pub fn new(parent: usize) -> (r: Self)
        ensures
            r@ == (DirV { parent: parent as nat, files: Seq::empty(), dirs: Seq::empty() }),
    {
        let r = Dir { parent, files: Vec::new(), dirs: Vec::new() };
        proof {
            assert(r@.files =~= Seq::<(Seq<u8>, nat)>::empty());
            assert(r@.dirs =~= Seq::<(Seq<u8>, nat)>::empty());
        }
        r
    }

    /// Record a file, replacing any old entry of the same name.
    pub fn add_file(&mut self, name: &str, size: usize)
        ensures
            final(self)@ == (DirV {
                files: upsert(old(self)@.files, name.spec_bytes(), size as nat),
                ..old(self)@
            }),
    {
        self.add_file_b(name.as_bytes(), size)
    }

    /// `add_file` over raw name bytes.
    fn add_file_b(&mut self, key: &[u8], size: usize)
        ensures
            final(self)@ == (DirV {
                files: upsert(old(self)@.files, key@, size as nat),
                ..old(self)@
            }),
    {
        let n = self.files.len();
        let mut i: usize = 0;
        while i < n
            invariant
                i <= n,
                n == self.files@.len(),
                *self == *old(self),
                forall|j: int| 0 <= j < i ==> (#[trigger] self@.files[j]).0 != key@,
            decreases n - i,
        {
            proof {
                assert(self@.files[i as int].0 == self.files@[i as int].0@);
            }
            if bytes_eq(self.files[i].0.as_slice(), key) {
                proof {
                    lemma_find_key_spec(self@.files, key@);
                    assert(find_key(self@.files, key@) == i);
                }
                let kcopy = copy_range(key, 0, key.len());
                proof {
                    assert(kcopy@ =~= key@);
                }
                self.files[i] = (kcopy, File { size });
                proof {
                    assert(self@.files =~= upsert(old(self)@.files, key@, size as nat));
                    assert(self@.dirs =~= old(self)@.dirs);
                }
                return ;
            }
            i = i + 1;
        }
        proof {
            lemma_find_key_spec(self@.files, key@);
            assert(find_key(self@.files, key@) == -1);
        }
        let kcopy = copy_range(key, 0, key.len());
        proof {
            assert(kcopy@ =~= key@);
        }
        self.files.push((kcopy, File { size }));
        proof {
            assert(self@.files =~= upsert(old(self)@.files, key@, size as nat));
            assert(self@.dirs =~= old(self)@.dirs);
        }
    }

    /// Record a child directory, replacing any old entry of the same name.
    pub fn add_dir(&mut self, name: &str, index: usize)
        ensures
            final(self)@ == (DirV {
                dirs: upsert(old(self)@.dirs, name.spec_bytes(), index as nat),
                ..old(self)@
            }),
    {
        self.add_dir_b(name.as_bytes(), index)
    }

    /// `add_dir` over raw name bytes.
    fn add_dir_b(&mut self, key: &[u8], index: usize)
        ensures
            final(self)@ == (DirV {
                dirs: upsert(old(self)@.dirs, key@, index as nat),
                ..old(self)@
            }),
    {
        let n = self.dirs.len();
        let mut i: usize = 0;
        while i < n
            invariant
                i <= n,
                n == self.dirs@.len(),
                *self == *old(self),
                forall|j: int| 0 <= j < i ==> (#[trigger] self@.dirs[j]).0 != key@,
            decreases n - i,
        {
            proof {
                assert(self@.dirs[i as int].0 == self.dirs@[i as int].0@);
            }
            if bytes_eq(self.dirs[i].0.as_slice(), key) {
                proof {
                    lemma_find_key_spec(self@.dirs, key@);
                    assert(find_key(self@.dirs, key@) == i);
                }
                let kcopy = copy_range(key, 0, key.len());
                proof {
                    assert(kcopy@ =~= key@);
                }
                self.dirs[i] = (kcopy, index);
                proof {
                    assert(self@.dirs =~= upsert(old(self)@.dirs, key@, index as nat));
                    assert(self@.files =~= old(self)@.files);
                }
                return ;
            }
            i = i + 1;
        }
        proof {
            lemma_find_key_spec(self@.dirs, key@);
            assert(find_key(self@.dirs, key@) == -1);
        }
        let kcopy = copy_range(key, 0, key.len());
        proof {
            assert(kcopy@ =~= key@);
        }
        self.dirs.push((kcopy, index));
        proof {
            assert(self@.dirs =~= upsert(old(self)@.dirs, key@, index as nat));
            assert(self@.files =~= old(self)@.files);
        }
    }

    /// The index recorded for a child name, if any.
    pub fn get_dir(&self, name: &str) -> (r: Option<usize>)
        ensures
            r is Some <==> find_key(self@.dirs, name.spec_bytes()) >= 0,
            r is Some ==> r->0 as nat == self@.dirs[find_key(self@.dirs, name.spec_bytes())].1,
    {
        self.get_dir_b(name.as_bytes())
    }

    /// `get_dir` over raw name bytes.
    fn get_dir_b(&self, key: &[u8]) -> (r: Option<usize>)
        ensures
            r is Some <==> find_key(self@.dirs, key@) >= 0,
            r is Some ==> r->0 as nat == self@.dirs[find_key(self@.dirs, key@)].1,
    {
        let n = self.dirs.len();
        let mut i: usize = 0;
        while i < n
            invariant
                i <= n,
                n == self.dirs@.len(),
                forall|j: int| 0 <= j < i ==> (#[trigger] self@.dirs[j]).0 != key@,
            decreases n - i,
        {
            proof {
                assert(self@.dirs[i as int].0 == self.dirs@[i as int].0@);
                assert(self@.dirs[i as int].1 == self.dirs@[i as int].1 as nat);
            }
            if bytes_eq(self.dirs[i].0.as_slice(), key) {
                proof {
                    lemma_find_key_spec(self@.dirs, key@);
                    assert(find_key(self@.dirs, key@) == i);
                }
                return Some(self.dirs[i].1);
            }
            i = i + 1;
        }
        proof {
            lemma_find_key_spec(self@.dirs, key@);
            assert(find_key(self@.dirs, key@) == -1);
        }
        None
    }
}

/// A fresh directory equal to `d`.
fn copy_dir(d: &Dir) -> (r: Dir)
    ensures
        r@ == d@,
{
    let mut files: Vec<(Vec<u8>, File)> = Vec::new();
    let mut i: usize = 0;
    while i < d.files.len()
        invariant
            i <= d.files@.len(),
            files@.len() == i,
            forall|j: int|
                0 <= j < i ==> (#[trigger] files@[j]).0@ == d.files@[j].0@ && files@[j].1.size
                    == d.files@[j].1.size,
        decreases d.files@.len() - i,
    {
        let name = copy_range(d.files[i].0.as_slice(), 0, d.files[i].0.len());
        proof {
            assert(name@ =~= d.files@[i as int].0@);
        }
        let size = d.files[i].1.size;
        files.push((name, File { size }));
        i = i + 1;
    }
    let mut dirs: Vec<(Vec<u8>, usize)> = Vec::new();
    let mut k: usize = 0;
    while k < d.dirs.len()
        invariant
            k <= d.dirs@.len(),
            dirs@.len() == k,
            forall|j: int|
                0 <= j < k ==> (#[trigger] dirs@[j]).0@ == d.dirs@[j].0@ && dirs@[j].1
                    == d.dirs@[j].1,
        decreases d.dirs@.len() - k,
    {
        let name = copy_range(d.dirs[k].0.as_slice(), 0, d.dirs[k].0.len());
        proof {
            assert(name@ =~= d.dirs@[k as int].0@);
        }
        let idx = d.dirs[k].1;
        dirs.push((name, idx));
        k = k + 1;
    }
    let r = Dir { parent: d.parent, files, dirs };
    proof {
        assert(r@.files =~= d@.files);
        assert(r@.dirs =~= d@.dirs);
    }
    r
}

impl Arena {
    /// A fresh arena holding only the root directory, which is current.
    pub fn new() -> (r: Self)
        ensures
            r@ == (ArenaV {
                cur: 0,
                dirs: seq![
                    DirV {
                        parent: 0,
                        files: Seq::empty(),
                        dirs: Seq::empty(),
                    },
                ],
            }),
            arena_wf(r@),
    {
        let root = Dir::new(0);
        let mut dirs: Vec<Dir> = Vec::new();
        dirs.push(root);
        let r = Arena { cur_node: 0, dirs };
        proof {
            assert(r@.dirs =~= seq![
                DirV { parent: 0, files: Seq::<(Seq<u8>, nat)>::empty(), dirs: Seq::<(
                    Seq<u8>,
                    nat,
                )>::empty() },
            ]);
        }
        r
    }

    /// Make the root directory current.
    pub fn move_to_root(&mut self)
        requires
            arena_wf(old(self)@),
        ensures
            final(self)@ == (ArenaV { cur: 0, dirs: old(self)@.dirs }),
            arena_wf(final(self)@),
    {
        self.cur_node = 0;
    }

    /// Make the current directory's parent current.
    pub fn move_to_parent(&mut self)
        requires
            arena_wf(old(self)@),
        ensures
            final(self)@ == (ArenaV {
                cur: old(self)@.dirs[old(self)@.cur as int].parent,
                dirs: old(self)@.dirs,
            }),
            arena_wf(final(self)@),
    {
        proof {
            assert(self.dirs@[self.cur_node as int]@ == self@.dirs[self@.cur as int]);
        }
        let parent = self.dirs[self.cur_node].parent_of();
        self.cur_node = parent;
    }

    /// Make the named child of the current directory current; false, with
    /// nothing changed, when there is no such child.
    pub fn move_to_child(&mut self, name: &str) -> (r: bool)
        requires
            arena_wf(old(self)@),
        ensures
            ({
                let fk = find_key(old(self)@.dirs[old(self)@.cur as int].dirs, name.spec_bytes());
                &&& r <==> fk >= 0
                &&& final(self)@.dirs == old(self)@.dirs
                &&& (r ==> final(self)@.cur == old(self)@.dirs[old(self)@.cur as int].dirs[fk].1)
                &&& (!r ==> final(self)@ == old(self)@)
                &&& arena_wf(final(self)@)
            }),
    {
        self.move_to_child_b(name.as_bytes())
    }

    /// `move_to_child` over raw name bytes.
    fn move_to_child_b(&mut self, key: &[u8]) -> (r: bool)
        requires
            arena_wf(old(self)@),
        ensures
            ({
                let fk = find_key(old(self)@.dirs[old(self)@.cur as int].dirs, key@);
                &&& r <==> fk >= 0
                &&& final(self)@.dirs == old(self)@.dirs
                &&& (r ==> final(self)@.cur == old(self)@.dirs[old(self)@.cur as int].dirs[fk].1)
                &&& (!r ==> final(self)@ == old(self)@)
                &&& arena_wf(final(self)@)
            }),
    {
        proof {
            assert(self.dirs@[self.cur_node as int]@ == self@.dirs[self@.cur as int]);
        }
        let found = self.dirs[self.cur_node].get_dir_b(key);
        match found {
            Some(child) => {
                proof {
                    let cv = self@.dirs[self@.cur as int];
                    let fk = find_key(cv.dirs, key@);
                    lemma_find_key_spec(cv.dirs, key@);
                    assert(self@.cur < cv.dirs[fk].1 < self@.dirs.len());
                }
                self.cur_node = child;
                true
            },
            None => false,
        }
    }

    /// Record a file in the current directory.
    pub fn add_file(&mut self, name: &str, size: usize)
        requires
            arena_wf(old(self)@),
        ensures
            ({
                let cur = old(self)@.cur as int;
                let cv = old(self)@.dirs[cur];
                &&& final(self)@.cur == old(self)@.cur
                &&& final(self)@.dirs == old(self)@.dirs.update(
                    cur,
                    DirV { files: upsert(cv.files, name.spec_bytes(), size as nat), ..cv },
                )
                &&& arena_wf(final(self)@)
            }),
    {
        self.add_file_b(name.as_bytes(), size)
    }

    /// `Arena::add_file` over raw name bytes.
    fn add_file_b(&mut self, key: &[u8], size: usize)
        requires
            arena_wf(old(self)@),
        ensures
            ({
                let cur = old(self)@.cur as int;
                let cv = old(self)@.dirs[cur];
                &&& final(self)@.cur == old(self)@.cur
                &&& final(self)@.dirs == old(self)@.dirs.update(
                    cur,
                    DirV { files: upsert(cv.files, key@, size as nat), ..cv },
                )
                &&& arena_wf(final(self)@)
            }),
    {
        proof {
            assert(self.dirs@[self.cur_node as int]@ == self@.dirs[self@.cur as int]);
        }
        let mut d = copy_dir(&self.dirs[self.cur_node]);
        d.add_file_b(key, size);
        let ghost dv = d@;
        self.dirs[self.cur_node] = d;
        proof {
            assert(self@.dirs =~= old(self)@.dirs.update(old(self)@.cur as int, dv));
            let a = self@;
            let o = old(self)@;
            assert forall|i: int, j: int|
                0 <= i < a.dirs.len() && 0 <= j < a.dirs[i].dirs.len() implies i < (
            #[trigger] a.dirs[i].dirs[j]).1 < a.dirs.len() by {
                assert(a.dirs[i].dirs == o.dirs[i].dirs);
            }
        }
    }

    /// Open a fresh directory under the current one, record it under `name`,
    /// and append it to the arena.
    pub fn add_dir(&mut self, name: &str)
        requires
            arena_wf(old(self)@),
        ensures
            ({
                let cur = old(self)@.cur as int;
                let n = old(self)@.dirs.len();
                let cv = old(self)@.dirs[cur];
                let grown = old(self)@.dirs.push(
                    DirV { parent: old(self)@.cur, files: Seq::empty(), dirs: Seq::empty() },
                );
                &&& final(self)@.cur == old(self)@.cur
                &&& final(self)@.dirs == grown.update(
                    cur,
                    DirV { dirs: upsert(cv.dirs, name.spec_bytes(), n), ..cv },
                )
                &&& arena_wf(final(self)@)
            }),
    {
        self.add_dir_b(name.as_bytes())
    }

    /// `Arena::add_dir` over raw name bytes.
    fn add_dir_b(&mut self, key: &[u8])
        requires
            arena_wf(old(self)@),
        ensures
            ({
                let cur = old(self)@.cur as int;
                let n = old(self)@.dirs.len();
                let cv = old(self)@.dirs[cur];
                let grown = old(self)@.dirs.push(
                    DirV { parent: old(self)@.cur, files: Seq::empty(), dirs: Seq::empty() },
                );
                &&& final(self)@.cur == old(self)@.cur
                &&& final(self)@.dirs == grown.update(
                    cur,
                    DirV { dirs: upsert(cv.dirs, key@, n), ..cv },
                )
                &&& arena_wf(final(self)@)
            }),
    {
        let n = self.dirs.len();
        let fresh = Dir::new(self.cur_node);
        self.dirs.push(fresh);
        proof {
            assert(self@.dirs =~= old(self)@.dirs.push(
                DirV {
                    parent: old(self)@.cur,
                    files: Seq::<(Seq<u8>, nat)>::empty(),
                    dirs: Seq::<(Seq<u8>, nat)>::empty(),
                },
            ));
            assert(self.dirs@[self.cur_node as int]@ == self@.dirs[self@.cur as int]);
        }
        let ghost grown = self@.dirs;
        let mut d = copy_dir(&self.dirs[self.cur_node]);
        d.add_dir_b(key, n);
        let ghost dv = d@;
        self.dirs[self.cur_node] = d;
        proof {
            assert(self@.dirs =~= grown.update(old(self)@.cur as int, dv));
            let a = self@;
            let o = old(self)@;
            lemma_find_key_spec(o.dirs[o.cur as int].dirs, key@);
            assert forall|i: int, j: int|
                0 <= i < a.dirs.len() && 0 <= j < a.dirs[i].dirs.len() implies i < (
            #[trigger] a.dirs[i].dirs[j]).1 < a.dirs.len() by {
                if i == o.cur as int {
                    let m = o.dirs[i].dirs;
                    let fk = find_key(m, key@);
                    if fk < 0 {
                        if j < m.len() {
                            assert(a.dirs[i].dirs[j] == m[j]);
                        } else {
                            assert(a.dirs[i].dirs[j] == (key@, n as nat));
                        }
                    } else {
                        if j == fk {
                            assert(a.dirs[i].dirs[j] == (key@, n as nat));
                        } else {
                            assert(a.dirs[i].dirs[j] == m[j]);
                        }
                    }
                } else if i < o.dirs.len() {
                    assert(a.dirs[i].dirs == o.dirs[i].dirs);
                } else {
                    assert(a.dirs[i].dirs.len() == 0);
                }
            }
        }
    }

    /// The recursive size of the directory at `index`, per `dir_total`.
    pub fn dir_size(&self, index: usize) -> (r: usize)
        requires
            arena_wf(self@),
            index < self@.dirs.len(),
            dir_total(self@.dirs, index as int) <= usize::MAX,
        ensures
            r as nat == dir_total(self@.dirs, index as int),
        decreases self@.dirs.len() - index,
    {
        let ghost v = self@.dirs;
        proof {
            assert(self.dirs@[index as int]@ == v[index as int]);
        }
        let d = &self.dirs[index];
        let mut acc: usize = 0;
        let nf = d.files.len();
        let mut k: usize = 0;
        while k < nf
            invariant
                k <= nf,
                v == self@.dirs,
                arena_wf(self@),
                index < v.len(),
                dir_total(v, index as int) <= usize::MAX,
                d@ == v[index as int],
                nf == d@.files.len(),
                acc as nat == file_sum(v[index as int].files.take(k as int)),
            decreases nf - k,
        {
            proof {
                let files = v[index as int].files;
                assert(files.take(k + 1).drop_last() =~= files.take(k as int));
                assert(files.take(k + 1).last() == files[k as int]);
                assert(d.files@[k as int].1.size as nat == files[k as int].1);
                lemma_file_sum_prefix(files, k + 1);
            }
            acc = acc + d.files[k].1.size;
            k = k + 1;
        }
        proof {
            assert(v[index as int].files.take(nf as int) =~= v[index as int].files);
        }
        let nd = d.dirs.len();
        let mut q: usize = 0;
        while q < nd
            invariant
                q <= nd,
                v == self@.dirs,
                arena_wf(self@),
                index < v.len(),
                dir_total(v, index as int) <= usize::MAX,
                d@ == v[index as int],
                nd == d@.dirs.len(),
                acc as nat == file_sum(v[index as int].files) + kids_sum(
                    v,
                    v[index as int].dirs.take(q as int),
                    index as int,
                ),
            decreases nd - q,
        {
            proof {
                let kids = v[index as int].dirs;
                assert(kids.take(q + 1).drop_last() =~= kids.take(q as int));
                assert(kids.take(q + 1).last() == kids[q as int]);
                assert(d.dirs@[q as int].1 as nat == kids[q as int].1);
                assert(index < kids[q as int].1 < v.len());
                lemma_kids_sum_prefix(v, kids, index as int, q + 1);
            }
            let c = d.dirs[q].1;
            let sub = self.dir_size(c);
            acc = acc + sub;
            q = q + 1;
        }
        proof {
            assert(v[index as int].dirs.take(nd as int) =~= v[index as int].dirs);
        }
        acc
    }

    /// The size of the whole tree: the root directory's size.
    pub fn size(&self) -> (r: usize)
        requires
            arena_wf(self@),
            dir_total(self@.dirs, 0) <= usize::MAX,
        ensures
            r as nat == dir_total(self@.dirs, 0),
    {
        self.dir_size(0)
    }
}


pub struct Problem;

/// The empty root directory.
pub open spec fn root_dir() -> DirV {
    DirV { parent: 0, files: Seq::empty(), dirs: Seq::empty() }
}

/// One transcript line applied to the arena state: a `cd` moves the cursor
/// (to the root, the parent, or a recorded child), any other command does
/// nothing, a `dir` line opens a child, and a size line records a file.
/// `None` on an empty line, a short line, an unknown `cd` target, or an
/// unreadable size.
pub open spec fn step_line(dirs: Seq<DirV>, cur: nat, line: Seq<u8>) -> Option<(Seq<DirV>, nat)> {
    let toks = tokens_spec(line);
    if toks.len() == 0 {
        None
    } else if toks[0] == seq![36u8] {
        if toks.len() < 2 {
            None
        } else if toks[1] == seq![99u8, 100u8] {
            if toks.len() < 3 {
                None
            } else if toks[2] == seq![47u8] {
                Some((dirs, 0))
            } else if toks[2] == seq![46u8, 46u8] {
                Some((dirs, dirs[cur as int].parent))
            } else {
                let fk = find_key(dirs[cur as int].dirs, toks[2]);
                if fk >= 0 {
                    Some((dirs, dirs[cur as int].dirs[fk].1))
                } else {
                    None
                }
            }
        } else {
            Some((dirs, cur))
        }
    } else if toks[0] == seq![100u8, 105u8, 114u8] {
        if toks.len() < 2 {
            None
        } else {
            let n = dirs.len();
            let cv = dirs[cur as int];
            Some(
                (
                    dirs.push(DirV { parent: cur, files: Seq::empty(), dirs: Seq::empty() }).update(
                        cur as int,
                        DirV { dirs: upsert(cv.dirs, toks[1], n), ..cv },
                    ),
                    cur,
                ),
            )
        }
    } else {
        if toks.len() < 2 {
            None
        } else {
            match parse_usize_spec(toks[0]) {
                None => None,
                Some(size) => {
                    let cv = dirs[cur as int];
                    Some(
                        (
                            dirs.update(
                                cur as int,
                                DirV { files: upsert(cv.files, toks[1], size), ..cv },
                            ),
                            cur,
                        ),
                    )
                },
            }
        }
    }
}

/// The transcript replayed line by line from a fresh arena.
pub open spec fn run_lines(dirs: Seq<DirV>, cur: nat, lines: Seq<Seq<u8>>) -> Option<
    (Seq<DirV>, nat),
>
    decreases lines.len(),
{
    if lines.len() == 0 {
        Some((dirs, cur))
    } else {
        match run_lines(dirs, cur, lines.drop_last()) {
            None => None,
            Some((d2, c2)) => step_line(d2, c2, lines.last()),
        }
    }
}

/// The arena described by the whole input.
pub open spec fn parse_input_spec(s: Seq<u8>) -> Option<(Seq<DirV>, nat)> {
    run_lines(seq![root_dir()], 0, lines_spec(s))
}

/// Once a line has failed, the rest of the transcript cannot revive it.
proof fn lemma_run_lines_none_sticky(dirs: Seq<DirV>, cur: nat, lines: Seq<Seq<u8>>, k: int)
    requires
        0 <= k <= lines.len(),
        run_lines(dirs, cur, lines.take(k)) is None,
    ensures
        run_lines(dirs, cur, lines) is None,
    decreases lines.len() - k,
{
    if k < lines.len() {
        assert(lines.take(k + 1).drop_last() =~= lines.take(k));
        lemma_run_lines_none_sticky(dirs, cur, lines, k + 1);
    } else {
        assert(lines.take(k) =~= lines);
    }
}

impl Problem {
    pub fn get_day(&self) -> (r: i32)
        ensures
            r == 7,
    {
        7
    }

    /// The arena described by the input, per `parse_input_spec`; the replay
    /// keeps the arena sound throughout.
    pub fn parse_input(&self, r: &[u8]) -> (res: Option<Arena>)
        ensures
            res is Some <==> parse_input_spec(r@) is Some,
            res is Some ==> {
                &&& (res->0)@.dirs == (parse_input_spec(r@)->0).0
                &&& (res->0)@.cur == (parse_input_spec(r@)->0).1
                &&& arena_wf((res->0)@)
            },
    {
        let ls = lines_of(r);
        let ghost line_seq = views(ls@);
        let mut arena = Arena::new();
        let ghost d0 = seq![root_dir()];
        proof {
            assert(arena@.dirs =~= d0);
            assert(line_seq.take(0) =~= Seq::<Seq<u8>>::empty());
        }
        let dollar: Vec<u8> = vec![36u8];
        let cd_word: Vec<u8> = vec![99u8, 100u8];
        let slash: Vec<u8> = vec![47u8];
        let dotdot: Vec<u8> = vec![46u8, 46u8];
        let dir_word: Vec<u8> = vec![100u8, 105u8, 114u8];
        proof {
            assert(dollar@ =~= seq![36u8]);
            assert(cd_word@ =~= seq![99u8, 100u8]);
            assert(slash@ =~= seq![47u8]);
            assert(dotdot@ =~= seq![46u8, 46u8]);
            assert(dir_word@ =~= seq![100u8, 105u8, 114u8]);
        }
        let mut k: usize = 0;
        while k < ls.len()
            invariant
                k <= ls@.len(),
                line_seq == views(ls@),
                line_seq == lines_spec(r@),
                d0 == seq![root_dir()],
                dollar@ == seq![36u8],
                cd_word@ == seq![99u8, 100u8],
                slash@ == seq![47u8],
                dotdot@ == seq![46u8, 46u8],
                dir_word@ == seq![100u8, 105u8, 114u8],
                run_lines(d0, 0, line_seq.take(k as int)) == Some((arena@.dirs, arena@.cur)),
                arena_wf(arena@),
            decreases ls@.len() - k,
        {
            proof {
                assert(ls@[k as int]@ == line_seq[k as int]);
                assert(line_seq.take(k + 1).drop_last() =~= line_seq.take(k as int));
                assert(line_seq.take(k + 1).last() == line_seq[k as int]);
            }
            let ghost pre = (arena@.dirs, arena@.cur);
            let toks = tokens_of(ls[k].as_slice());
            let ghost tseq = tokens_spec(line_seq[k as int]);
            proof {
                assert(views(toks@) == tseq);
            }
            if toks.len() == 0 {
                proof {
                    assert(step_line(pre.0, pre.1, line_seq[k as int]) is None);
                    lemma_run_lines_none_sticky(d0, 0, line_seq, k + 1);
                }
                return None;
            }
            proof {
                assert(toks@[0]@ == tseq[0]);
            }
            if bytes_eq(toks[0].as_slice(), dollar.as_slice()) {
                if toks.len() < 2 {
                    proof {
                        lemma_run_lines_none_sticky(d0, 0, line_seq, k + 1);
                    }
                    return None;
                }
                proof {
                    assert(toks@[1]@ == tseq[1]);
                }
                if bytes_eq(toks[1].as_slice(), cd_word.as_slice()) {
                    if toks.len() < 3 {
                        proof {
                            lemma_run_lines_none_sticky(d0, 0, line_seq, k + 1);
                        }
                        return None;
                    }
                    proof {
                        assert(toks@[2]@ == tseq[2]);
                    }
                    if bytes_eq(toks[2].as_slice(), slash.as_slice()) {
                        arena.move_to_root();
                    } else if bytes_eq(toks[2].as_slice(), dotdot.as_slice()) {
                        arena.move_to_parent();
                    } else {
                        let ok = arena.move_to_child_b(toks[2].as_slice());
                        if !ok {
                            proof {
                                assert(step_line(pre.0, pre.1, line_seq[k as int]) is None);
                                lemma_run_lines_none_sticky(d0, 0, line_seq, k + 1);
                            }
                            return None;
                        }
                    }
                }
            } else if bytes_eq(toks[0].as_slice(), dir_word.as_slice()) {
                if toks.len() < 2 {
                    proof {
                        lemma_run_lines_none_sticky(d0, 0, line_seq, k + 1);
                    }
                    return None;
                }
                proof {
                    assert(toks@[1]@ == tseq[1]);
                }
                arena.add_dir_b(toks[1].as_slice());
            } else {
                if toks.len() < 2 {
                    proof {
                        lemma_run_lines_none_sticky(d0, 0, line_seq, k + 1);
                    }
                    return None;
                }
                proof {
                    assert(toks@[1]@ == tseq[1]);
                }
                let size = match parse_usize(toks[0].as_slice()) {
                    None => {
                        proof {
                            lemma_run_lines_none_sticky(d0, 0, line_seq, k + 1);
                        }
                        return None;
                    },
                    Some(v) => v,
                };
                arena.add_file_b(toks[1].as_slice(), size);
            }
            proof {
                assert(Some((arena@.dirs, arena@.cur)) == step_line(
                    pre.0,
                    pre.1,
                    line_seq[k as int],
                ));
            }
            k = k + 1;
        }
        proof {
            assert(line_seq.take(ls@.len() as int) =~= line_seq);
        }
        Some(arena)
    }

    /// The summed sizes of all directories of at most a hundred thousand,
    /// per `small_sum`.
    pub fn solve_first(&self, input: &Arena) -> (r: usize)
        requires
            arena_wf(input@),
            forall|i: int|
                0 <= i < input@.dirs.len() ==> #[trigger] dir_total(input@.dirs, i) <= usize::MAX,
            input@.dirs.len() * 100000 <= usize::MAX,
        ensures
            r as nat == small_sum(input@.dirs, input@.dirs.len() as int),
    {
        let ghost v = input@.dirs;
        let n = input.dir_count();
        let mut acc: usize = 0;
        let mut i: usize = 0;
        while i < n
            invariant
                i <= n,
                v == input@.dirs,
                n == v.len(),
                arena_wf(input@),
                forall|j: int| 0 <= j < v.len() ==> #[trigger] dir_total(v, j) <= usize::MAX,
                n * 100000 <= usize::MAX,
                acc as nat == small_sum(v, i as int),
                acc <= i * 100000,
            decreases n - i,
        {
            let t = input.dir_size(i);
            if t <= 100000 {
                acc = acc + t;
            }
            i = i + 1;
        }
        acc
    }

    /// The size of the smallest directory whose deletion brings the tree
    /// within the space budget, per `min_big`.
    pub fn solve_second(&self, input: &Arena) -> (r: usize)
        requires
            arena_wf(input@),
            forall|i: int|
                0 <= i < input@.dirs.len() ==> #[trigger] dir_total(input@.dirs, i) <= usize::MAX,
            dir_total(input@.dirs, 0) >= 40000000,
        ensures
            ({
                let v = input@.dirs;
                let need = (dir_total(v, 0) - 40000000) as nat;
                min_big(v, v.len() as int, need) == Some(r as nat)
            }),
    {
        let ghost v = input@.dirs;
        let ghost need_s = (dir_total(v, 0) - 40000000) as nat;
        let total = input.dir_size(0);
        let need = total - 40000000;
        let n = input.dir_count();
        let mut found: bool = false;
        let mut best: usize = 0;
        let mut i: usize = 0;
        while i < n
            invariant
                i <= n,
                v == input@.dirs,
                n == v.len(),
                arena_wf(input@),
                forall|j: int| 0 <= j < v.len() ==> #[trigger] dir_total(v, j) <= usize::MAX,
                need as nat == need_s,
                (!found ==> min_big(v, i as int, need_s) is None),
                (found ==> min_big(v, i as int, need_s) == Some(best as nat)),
            decreases n - i,
        {
            let t = input.dir_size(i);
            if t >= need {
                if !found || t < best {
                    best = t;
                    found = true;
                } else {
                    proof {
                        assert(min_big(v, i + 1, need_s) == Some(best as nat));
                    }
                }
            }
            i = i + 1;
        }
        proof {
            lemma_min_big_root(v, n as int, need_s);
        }
        best
    }
}

impl Arena {
    /// How many directories the arena holds.
    pub fn dir_count(&self) -> (r: usize)
        ensures
            r as nat == self@.dirs.len(),
    {
        self.dirs.len()
    }
}

/// The summed sizes of the first `k` directories of at most a hundred
/// thousand.
pub open spec fn small_sum(v: Seq<DirV>, k: int) -> nat
    decreases k,
{
    if k <= 0 {
        0
    } else {
        small_sum(v, k - 1) + if dir_total(v, k - 1) <= 100000 {
            dir_total(v, k - 1)
        } else {
            0
        }
    }
}

/// The smallest size at least `need` among the first `k` directories.
pub open spec fn min_big(v: Seq<DirV>, k: int, need: nat) -> Option<nat>
    decreases k,
{
    if k <= 0 {
        None
    } else {
        let rest = min_big(v, k - 1, need);
        let t = dir_total(v, k - 1);
        if t >= need {
            match rest {
                None => Some(t),
                Some(m) => Some(if t < m {
                    t
                } else {
                    m
                }),
            }
        } else {
            rest
        }
    }
}

/// With the root at least as big as the target, some directory qualifies.
proof fn lemma_min_big_root(v: Seq<DirV>, k: int, need: nat)
    requires
        k >= 1,
        dir_total(v, 0) >= need,
    ensures
        min_big(v, k, need) is Some,
    decreases k,
{
    if k > 1 {
        lemma_min_big_root(v, k - 1, need);
    }
}

impl Dir {
    /// The parent index of this directory.
    fn parent_of(&self) -> (r: usize)
        ensures
            r as nat == self@.parent,
    {
        self.parent
    }
}

} // verus!

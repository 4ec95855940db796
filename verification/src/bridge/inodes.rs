//! Inode numbers of a mount.

use std::collections::HashMap;
use vstd::hash_map::StringHashMap;
use vstd::prelude::*;

use crate::path::{normal, normalized};
use crate::text::opt_text;

verus! {

broadcast use vstd::std_specs::hash::group_hash_axioms;

/// Maps inode numbers to remote paths for the lifetime of a mount. Texts of
/// the same path share a number.
pub struct InodeMap {
    next: u64,
    by_ino: HashMap<u64, String>,
    /// By the shortest text of a path.
    by_path: StringHashMap<u64>,
}

/// Inode numbers and paths, as a mathematical value.
#[verifier::ext_equal]
pub struct InodeView {
    pub next: u64,
    /// The path of a number, in the text that was registered first.
    pub paths: Map<u64, Seq<char>>,
    /// The number of a path, by its shortest text.
    pub numbers: Map<Seq<char>, u64>,
}

impl View for InodeMap {
    type V = InodeView;

    closed spec fn view(&self) -> InodeView {
        InodeView {
            next: self.next,
            paths: self.by_ino@.map_values(|p: String| p@),
            numbers: self.by_path@,
        }
    }
}

impl InodeView {
    /// The root alone.
    pub open spec fn fresh(root: Seq<char>) -> InodeView {
        InodeView {
            next: 2,
            paths: Map::empty().insert(1, root),
            numbers: Map::empty().insert(normal(root), 1),
        }
    }

    /// What always holds: numbers and paths belong to each other one to one,
    /// the root has the number 1, and numbers to come have not been used.
    pub open spec fn inv(self) -> bool {
        &&& self.paths.contains_key(1)
        &&& forall|n: u64| #[trigger]
            self.paths.contains_key(n) ==> 1 <= n < self.next && self.numbers.contains_key(
                normal(self.paths[n]),
            ) && self.numbers[normal(self.paths[n])] == n
        &&& forall|p: Seq<char>| #[trigger]
            self.numbers.contains_key(p) ==> self.paths.contains_key(self.numbers[p]) && normal(
                self.paths[self.numbers[p]],
            ) == p
    }

    /// The number that `path` has, or gets.
    pub open spec fn number_of(self, path: Seq<char>) -> u64 {
        if self.numbers.contains_key(normal(path)) {
            self.numbers[normal(path)]
        } else {
            self.next
        }
    }

    /// The map once `path` has a number.
    pub open spec fn with(self, path: Seq<char>) -> InodeView {
        if self.numbers.contains_key(normal(path)) {
            self
        } else {
            InodeView {
                next: (self.next + 1) as u64,
                paths: self.paths.insert(self.next, path),
                numbers: self.numbers.insert(normal(path), self.next),
            }
        }
    }

    /// The map once each of `paths` has a number, one after the other.
    pub open spec fn with_all(self, paths: Seq<Seq<char>>) -> InodeView
        decreases paths.len(),
    {
        if paths.len() == 0 {
            self
        } else {
            self.with_all(paths.drop_last()).with(paths.last())
        }
    }

    /// The path of a number.
    pub open spec fn path_of(self, ino: u64) -> Option<Seq<char>> {
        if self.paths.contains_key(ino) {
            Some(self.paths[ino])
        } else {
            None
        }
    }
}

/// A new number keeps the map one to one.
pub proof fn lemma_with_keeps_order(m: InodeView, path: Seq<char>)
    requires
        m.inv(),
        m.next < u64::MAX,
    ensures
        m.with(path).inv(),
{
    let after = m.with(path);
    if !m.numbers.contains_key(normal(path)) {
        assert(!m.paths.contains_key(m.next));
        assert forall|n: u64| #[trigger] after.paths.contains_key(n) implies 1 <= n < after.next
            && after.numbers.contains_key(normal(after.paths[n]))
            && after.numbers[normal(after.paths[n])] == n by {
            if n != m.next {
                assert(m.paths.contains_key(n));
                assert(normal(m.paths[n]) != normal(path));
            } else {
                assert(m.paths.contains_key(1));
            }
        }
        assert forall|p: Seq<char>| #[trigger] after.numbers.contains_key(
            p,
        ) implies after.paths.contains_key(after.numbers[p]) && normal(
            after.paths[after.numbers[p]],
        ) == p by {
            if p != normal(path) {
                assert(m.numbers.contains_key(p));
                assert(m.numbers[p] != m.next);
            }
        }
    }
}

/// Numbering paths keeps the map one to one, and every number and path that
/// belonged to each other before.
pub proof fn lemma_numbering_keeps_numbers(m: InodeView, paths: Seq<Seq<char>>)
    requires
        m.inv(),
        m.next + paths.len() <= u64::MAX,
    ensures
        m.with_all(paths).inv(),
        m.next <= m.with_all(paths).next <= m.next + paths.len(),
        forall|n: u64| #[trigger]
            m.paths.contains_key(n) ==> m.with_all(paths).path_of(n) == m.path_of(n),
        forall|p: Seq<char>|
            m.numbers.contains_key(normal(p)) ==> #[trigger] m.with_all(paths).number_of(p)
                == m.number_of(p) && m.with_all(paths).numbers.contains_key(normal(p)),
    decreases paths.len(),
{
    if paths.len() > 0 {
        let front = paths.drop_last();
        lemma_numbering_keeps_numbers(m, front);
        let before = m.with_all(front);
        let path = paths.last();
        lemma_with_keeps_order(before, path);
        let after = before.with(path);
        assert forall|n: u64| #[trigger] m.paths.contains_key(n) implies after.path_of(n)
            == m.path_of(n) by {
            assert(before.path_of(n) == m.path_of(n));
            assert(before.paths.contains_key(n));
            assert(n < before.next);
        }
        assert forall|p: Seq<char>| m.numbers.contains_key(normal(p)) implies
            #[trigger] after.number_of(p) == m.number_of(p) && after.numbers.contains_key(
            normal(p),
        ) by {
            assert(before.number_of(p) == m.number_of(p));
        }
    }
}

/// A path keeps its number for as long as the mount lives, and a number its
/// path: whatever is numbered before and after, the number of `path` is that of
/// `other` if and only if they are the same path, it is 1 if and only if the
/// path is the root, and it leads back to the path.
pub proof fn lemma_numbers_last(
    root: Seq<char>,
    before: Seq<Seq<char>>,
    path: Seq<char>,
    between: Seq<Seq<char>>,
    other: Seq<char>,
)
    requires
        before.len() + between.len() + 4 <= u64::MAX,
    ensures
        ({
            let m = InodeView::fresh(root).with_all(before);
            let a = m.number_of(path);
            let known = m.with(path);
            let later = known.with_all(between);
            let b = later.number_of(other);
            &&& later.inv()
            &&& a == b <==> normal(path) == normal(other)
            &&& b == 1 <==> normal(other) == normal(root)
            &&& later.number_of(path) == a
            &&& known.path_of(a) is Some
            &&& normal(known.path_of(a)->0) == normal(path)
            &&& a == m.next ==> known.path_of(a) == Some(path)
            &&& later.path_of(a) == known.path_of(a)
            &&& later.with(other).path_of(a) == known.path_of(a)
            &&& later.path_of(1) == Some(root)
        }),
{
    let start = InodeView::fresh(root);
    assert(start.inv());
    lemma_numbering_keeps_numbers(start, before);
    let m = start.with_all(before);
    let a = m.number_of(path);
    lemma_with_keeps_order(m, path);
    let known = m.with(path);
    lemma_numbering_keeps_numbers(known, between);
    let later = known.with_all(between);
    assert(start.paths.contains_key(1));
    assert(m.path_of(1) == start.path_of(1));
    assert(m.paths.contains_key(1));
    if m.numbers.contains_key(normal(path)) {
        assert(m.paths.contains_key(m.numbers[normal(path)]));
    } else {
        assert(!m.paths.contains_key(m.next));
    }
    assert(known.numbers.contains_key(normal(path)));
    assert(known.numbers[normal(path)] == a);
    assert(known.paths.contains_key(a));
    assert(known.number_of(path) == a);
    assert(later.number_of(path) == a);
    assert(later.path_of(a) == known.path_of(a));
    assert(later.paths.contains_key(a));
    assert(known.paths.contains_key(1));
    assert(known.path_of(1) == Some(root));
    assert(later.path_of(1) == known.path_of(1));
    assert(later.paths.contains_key(1));
    assert(later.numbers[normal(root)] == 1);
    if later.numbers.contains_key(normal(other)) {
        assert(later.paths.contains_key(later.numbers[normal(other)]));
    } else {
        assert(!later.paths.contains_key(later.next));
    }
}

impl InodeMap {
    /// The root alone.
    pub fn new(root: &str) -> (res: Self)
        ensures
            res@.inv(),
            res@ == InodeView::fresh(root@),
    {
        let mut by_ino: HashMap<u64, String> = HashMap::new();
        by_ino.insert(1, root.to_owned());
        let mut by_path: StringHashMap<u64> = StringHashMap::new();
        by_path.insert(normalized(root), 1);
        let res = InodeMap { next: 2, by_ino, by_path };
        assert(res@.paths =~= Map::<u64, Seq<char>>::empty().insert(1, root@));
        assert(res@ =~= InodeView::fresh(root@));
        res
    }

    /// The path of a number.
    pub fn path(&self, ino: u64) -> (res: Option<String>)
        ensures
            opt_text(res) == self@.path_of(ino),
            res is Some <==> self@.paths.contains_key(ino),
            res is Some ==> res->0@ == self@.paths[ino],
    {
        match self.by_ino.get(&ino) {
            Some(p) => Some(p.clone()),
            None => None,
        }
    }

    /// Whether `more` paths can be numbered.
    pub fn has_room(&self, more: u64) -> (res: bool)
        ensures
            res == (self@.next + more < u64::MAX),
    {
        more < u64::MAX && self.next < u64::MAX - more
    }

    /// The number of a path; a path that has none gets the next.
    pub fn ino_for(&mut self, path: &str) -> (res: u64)
        requires
            old(self)@.inv(),
            old(self)@.next < u64::MAX,
        ensures
            final(self)@.inv(),
            res == old(self)@.number_of(path@),
            final(self)@ == old(self)@.with(path@),
    {
        let key = normalized(path);
        if let Some(ino) = self.by_path.get(key.as_str()) {
            return *ino;
        }
        proof {
            lemma_with_keeps_order(self@, path@);
        }
        let ghost before = self@;
        let ino = self.next;
        self.next = ino + 1;
        self.by_path.insert(key, ino);
        self.by_ino.insert(ino, path.to_owned());
        assert(self@.paths =~= before.paths.insert(ino, path@));
        ino
    }
}

} // verus!

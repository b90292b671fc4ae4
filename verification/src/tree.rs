//! Content-addressed tree snapshots and the store that resolves them.
//!
//! A tree names its children; a child is either a file (blob reference) or a
//! nested tree. The store is the resolver capability the index builder walks:
//! it maps an object id to the tree stored under it. Well-formedness captures
//! what content addressing guarantees: ids are unique, and a tree only refers
//! to trees created before it, so reference chains cannot loop.

use vstd::prelude::*;

verus! {

/// Separator between a directory prefix and a child name in a full path.
pub const SLASH: u8 = 47;

/// One child of a tree: a name, a file mode, the id of the child object,
/// and whether that object is itself a tree.
pub struct TreeEntry {
    pub name: Vec<u8>,
    pub mode: u32,
    pub id: u64,
    pub is_tree: bool,
}

/// An immutable directory snapshot: an ordered list of children.
pub struct Tree {
    pub entries: Vec<TreeEntry>,
}

/// A tree together with the id it is stored under.
pub struct StoredTree {
    pub id: u64,
    pub tree: Tree,
}

/// The resolver capability: all trees the walk may look up, by id.
pub struct TreeStore {
    pub trees: Vec<StoredTree>,
}

/// Some stored tree carries this id.
pub open spec fn has_id(s: Seq<StoredTree>, id: u64) -> bool {
    exists|i: int| 0 <= i < s.len() && s[i].id == id
}

/// The position of the tree stored under `id` (meaningful when `has_id`).
pub open spec fn idx_of(s: Seq<StoredTree>, id: u64) -> int {
    choose|i: int| 0 <= i < s.len() && s[i].id == id
}

/// What content addressing guarantees of a store: ids are unique, and every
/// resolvable subtree reference points at a tree stored earlier, so no
/// reference chain can revisit a tree.
pub open spec fn store_wf(s: Seq<StoredTree>) -> bool {
    &&& (forall|i: int, j: int|
        0 <= i < s.len() && 0 <= j < s.len() && i != j ==> s[i].id != s[j].id)
    &&& (forall|i: int, k: int|
        0 <= i < s.len() && 0 <= k < s[i].tree.entries@.len()
            && (#[trigger] s[i].tree.entries@[k]).is_tree && has_id(
            s,
            s[i].tree.entries@[k].id,
        ) ==> idx_of(s, s[i].tree.entries@[k].id) < i)
}

impl TreeStore {
    /// Resolve an id to the position of its stored tree.
    pub fn find_tree(&self, id: u64) -> (r: Option<usize>)
        ensures
            match r {
                Option::Some(j) => j < self.trees@.len() && self.trees@[j as int].id == id,
                Option::None => !has_id(self.trees@, id),
            },
    {
        let n: usize = self.trees.len();
        let mut i: usize = 0;
        while i < n
            invariant
                n == self.trees@.len(),
                i <= n,
                forall|j: int| 0 <= j < i ==> self.trees@[j].id != id,
            decreases n - i,
        {
            if self.trees[i].id == id {
                return Option::Some(i);
            }
            i += 1;
        }
        Option::None
    }
}

impl TreeStore {
    /// Decide well-formedness of the store.
    #[verifier::loop_isolation(false)]
    pub fn check_wf(&self) -> (r: bool)
        ensures
            r == store_wf(self.trees@),
    {
        let s = &self.trees;
        let n: usize = s.len();
        let mut i: usize = 0;
        while i < n
            invariant
                i <= n,
                forall|a: int, b: int|
                    0 <= a < i && 0 <= b < n && a != b ==> s@[a].id != s@[b].id,
            decreases n - i,
        {
            let mut j: usize = 0;
            while j < n
                invariant
                    j <= n,
                    forall|b: int| 0 <= b < j && i as int != b ==> s@[i as int].id != s@[b].id,
                decreases n - j,
            {
                if j != i && s[i].id == s[j].id {
                    return false;
                }
                j += 1;
            }
            i += 1;
        }
        let mut i: usize = 0;
        while i < n
            invariant
                i <= n,
                forall|a: int, b: int|
                    0 <= a < n && 0 <= b < n && a != b ==> s@[a].id != s@[b].id,
                forall|a: int, k: int|
                    0 <= a < i && 0 <= k < s@[a].tree.entries@.len() && (
                    #[trigger] s@[a].tree.entries@[k]).is_tree && has_id(
                        s@,
                        s@[a].tree.entries@[k].id,
                    ) ==> idx_of(s@, s@[a].tree.entries@[k].id) < a,
            decreases n - i,
        {
            let m: usize = s[i].tree.entries.len();
            let mut k: usize = 0;
            while k < m
                invariant
                    k <= m,
                    m == s@[i as int].tree.entries@.len(),
                    forall|kk: int|
                        0 <= kk < k && (#[trigger] s@[i as int].tree.entries@[kk]).is_tree
                            && has_id(s@, s@[i as int].tree.entries@[kk].id) ==> idx_of(
                            s@,
                            s@[i as int].tree.entries@[kk].id,
                        ) < i as int,
                decreases m - k,
            {
                if s[i].tree.entries[k].is_tree {
                    let child = s[i].tree.entries[k].id;
                    match self.find_tree(child) {
                        Option::None => {
                            proof {
                                assert(!has_id(s@, child));
                            }
                        },
                        Option::Some(j) => {
                            proof {
                                assert(has_id(s@, child));
                                let jj = idx_of(s@, child);
                                assert(0 <= jj < s@.len() && s@[jj].id == child);
                                assert(jj == j as int);
                            }
                            if j >= i {
                                proof {
                                    assert(!store_wf(s@));
                                }
                                return false;
                            }
                        },
                    }
                }
                k += 1;
            }
            i += 1;
        }
        true
    }
}

/// Copy a byte vector.
pub fn clone_bytes(v: &Vec<u8>) -> (r: Vec<u8>)
    ensures
        r@ == v@,
{
    let mut r: Vec<u8> = Vec::new();
    let n: usize = v.len();
    let mut i: usize = 0;
    while i < n
        invariant
            n == v@.len(),
            i <= n,
            r@ == v@.subrange(0, i as int),
        decreases n - i,
    {
        r.push(v[i]);
        proof {
            assert(r@ =~= v@.subrange(0, i as int + 1));
        }
        i += 1;
    }
    proof {
        assert(r@ =~= v@);
    }
    r
}

/// Append the bytes of `src` to `dst`.
pub fn append_bytes(dst: &mut Vec<u8>, src: &Vec<u8>)
    ensures
        final(dst)@ == old(dst)@ + src@,
{
    let n: usize = src.len();
    let mut i: usize = 0;
    while i < n
        invariant
            n == src@.len(),
            i <= n,
            dst@ == old(dst)@ + src@.subrange(0, i as int),
        decreases n - i,
    {
        dst.push(src[i]);
        proof {
            assert(dst@ =~= old(dst)@ + src@.subrange(0, i as int + 1));
        }
        i += 1;
    }
    proof {
        assert(dst@ =~= old(dst)@ + src@);
    }
}

} // verus!

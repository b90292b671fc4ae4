//! The staging table (index) and its builder.
//!
//! The builder walks a tree snapshot through the store, flattens every file
//! into a staging entry whose path concatenates the ancestor directory names,
//! and orders the result lexicographically by path with no duplicate
//! (path, stage) pair.

use vstd::prelude::*;
use crate::bytepath::{lex_lt, lemma_lex_total, lemma_lex_lt_trans, bytes_lt, bytes_eq};
use crate::tree::{StoredTree, TreeStore, has_id, idx_of, store_wf, clone_bytes, append_bytes, SLASH};

verus! {

/// Version tag of a freshly built staging table.
pub const INDEX_VERSION: u32 = 2;

/// One staging entry: a relative path, the object id of the file content,
/// the file mode, and the conflict stage (0 for a normal entry).
pub struct StagingEntry {
    pub path: Vec<u8>,
    pub id: u64,
    pub mode: u32,
    pub stage: u8,
}

/// Mathematical value of a staging entry.
pub struct EntryV {
    pub path: Seq<u8>,
    pub id: u64,
    pub mode: u32,
    pub stage: u8,
}

impl View for StagingEntry {
    type V = EntryV;

    open spec fn view(&self) -> EntryV {
        EntryV { path: self.path@, id: self.id, mode: self.mode, stage: self.stage }
    }
}

/// Mathematical values of a sequence of staging entries.
pub open spec fn evs(s: Seq<StagingEntry>) -> Seq<EntryV> {
    s.map_values(|e: StagingEntry| e@)
}

/// The ordered staging table: a header version and the sorted entries.
pub struct StagingTable {
    pub version: u32,
    pub entries: Vec<StagingEntry>,
}

/// Mathematical value of a staging table.
pub struct TableV {
    pub version: u32,
    pub entries: Seq<EntryV>,
}

impl View for StagingTable {
    type V = TableV;

    open spec fn view(&self) -> TableV {
        TableV { version: self.version, entries: evs(self.entries@) }
    }
}

/// Entries strictly ordered by path: sorted, and no path occurs twice.
pub open spec fn sorted_strict(es: Seq<EntryV>) -> bool {
    forall|i: int, j: int| 0 <= i < j < es.len() ==> lex_lt(es[i].path, es[j].path)
}

/// No two entries share both path and stage.
pub open spec fn stage_paths_distinct(es: Seq<EntryV>) -> bool {
    forall|i: int, j: int|
        0 <= i < j < es.len() ==> !(es[i].path == es[j].path && es[i].stage == es[j].stage)
}

/// No two entries share a path.
pub open spec fn paths_distinct(es: Seq<EntryV>) -> bool {
    forall|i: int, j: int| 0 <= i < j < es.len() ==> es[i].path != es[j].path
}

/// A well-formed staging table: entries strictly sorted by path.
pub open spec fn table_wf(t: TableV) -> bool {
    sorted_strict(t.entries)
}

/// Failure of the builder's walk, naming the tree it stopped at.
#[derive(Debug)]
pub enum TraverseError {
    /// A tree id could not be resolved in the store.
    UnresolvableTree { id: u64 },
    /// A tree held an entry with an empty name.
    MalformedEntry { id: u64 },
    /// Two file leaves flattened to the same path.
    DuplicatePath,
}

/// The flattening of the stored tree at position `i`, children of position
/// `k` onward, every file path prefixed with `prefix`; an unresolvable
/// subtree id or a malformed (empty) name is the error it causes.
pub open spec fn flat_entries(s: Seq<StoredTree>, i: int, prefix: Seq<u8>, k: int) -> Result<
    Seq<EntryV>,
    TraverseError,
>
    decreases i, s[i].tree.entries@.len() - k,
        when store_wf(s) && 0 <= i < s.len() && 0 <= k
{
    if k >= s[i].tree.entries@.len() {
        Result::Ok(Seq::empty())
    } else {
        let e = s[i].tree.entries@[k];
        if e.name@.len() == 0 {
            Result::Err(TraverseError::MalformedEntry { id: s[i].id })
        } else if e.is_tree {
            if has_id(s, e.id) {
                match flat_entries(s, idx_of(s, e.id), prefix + e.name@ + seq![SLASH], 0) {
                    Result::Err(err) => Result::Err(err),
                    Result::Ok(sub) => match flat_entries(s, i, prefix, k + 1) {
                        Result::Err(err) => Result::Err(err),
                        Result::Ok(rest) => Result::Ok(sub + rest),
                    },
                }
            } else {
                Result::Err(TraverseError::UnresolvableTree { id: e.id })
            }
        } else {
            match flat_entries(s, i, prefix, k + 1) {
                Result::Err(err) => Result::Err(err),
                Result::Ok(rest) => Result::Ok(
                    seq![EntryV { path: prefix + e.name@, id: e.id, mode: e.mode, stage: 0 }]
                        + rest,
                ),
            }
        }
    }
}

/// The flattening of the whole stored tree at position `i`.
pub open spec fn flat_tree(s: Seq<StoredTree>, i: int, prefix: Seq<u8>) -> Result<
    Seq<EntryV>,
    TraverseError,
> {
    flat_entries(s, i, prefix, 0)
}

/// Every flattened entry carries stage 0.
pub proof fn lemma_flat_stage0(s: Seq<StoredTree>, i: int, prefix: Seq<u8>, k: int)
    requires
        store_wf(s),
        0 <= i < s.len(),
        0 <= k,
        flat_entries(s, i, prefix, k) is Ok,
    ensures
        forall|n: int|
            0 <= n < flat_entries(s, i, prefix, k)->Ok_0.len() ==> (#[trigger] flat_entries(
                s,
                i,
                prefix,
                k,
            )->Ok_0[n]).stage == 0,
    decreases i, s[i].tree.entries@.len() - k,
{
    if k >= s[i].tree.entries@.len() {
    } else {
        let e = s[i].tree.entries@[k];
        if e.name@.len() == 0 {
        } else if e.is_tree {
            if has_id(s, e.id) {
                lemma_flat_stage0(s, idx_of(s, e.id), prefix + e.name@ + seq![SLASH], 0);
                lemma_flat_stage0(s, i, prefix, k + 1);
            }
        } else {
            lemma_flat_stage0(s, i, prefix, k + 1);
        }
    }
}

/// A strictly sorted entry sequence is determined by its members: the
/// builder's contract (sorted, same length, same members as the flattening)
/// admits exactly one table.
pub proof fn lemma_sorted_unique(a: Seq<EntryV>, b: Seq<EntryV>)
    requires
        sorted_strict(a),
        sorted_strict(b),
        a.len() == b.len(),
        forall|x: EntryV| a.contains(x) <==> b.contains(x),
    ensures
        a == b,
    decreases a.len(),
{
    if a.len() == 0 {
        assert(a =~= b);
    } else {
        assert(a.contains(a[0])) by {
            assert(a[0] == a[0]);
        }
        assert(b.contains(b[0])) by {
            assert(b[0] == b[0]);
        }
        let ja = choose|j: int| 0 <= j < b.len() && b[j] == a[0];
        let ia = choose|i: int| 0 <= i < a.len() && a[i] == b[0];
        assert(b.contains(a[0]));
        assert(a.contains(b[0]));
        if ja > 0 {
            assert(lex_lt(b[0].path, b[ja].path));
            if ia > 0 {
                assert(lex_lt(a[0].path, a[ia].path));
                crate::bytepath::lemma_lex_lt_trans(a[0].path, a[ia].path, b[ja].path);
                assert(lex_lt(a[0].path, a[0].path));
                assert(false);
            } else {
                assert(a[0] == b[0]);
                assert(lex_lt(a[0].path, a[0].path));
                assert(false);
            }
        }
        assert(b[0] == a[0]);
        let at = a.skip(1);
        let bt = b.skip(1);
        assert forall|x: EntryV| at.contains(x) implies bt.contains(x) by {
            let i = choose|i: int| 0 <= i < at.len() && at[i] == x;
            assert(a[i + 1] == x);
            assert(a.contains(x));
            assert(lex_lt(a[0].path, a[i + 1].path));
            assert(b.contains(x));
            let j = choose|j: int| 0 <= j < b.len() && b[j] == x;
            assert(j != 0) by {
                if j == 0 {
                    assert(x == a[0]);
                    assert(lex_lt(a[0].path, a[0].path));
                }
            }
            assert(bt[j - 1] == x);
            assert(bt.contains(x));
        }
        assert forall|x: EntryV| bt.contains(x) implies at.contains(x) by {
            let i = choose|i: int| 0 <= i < bt.len() && bt[i] == x;
            assert(b[i + 1] == x);
            assert(b.contains(x));
            assert(lex_lt(b[0].path, b[i + 1].path));
            assert(a.contains(x));
            let j = choose|j: int| 0 <= j < a.len() && a[j] == x;
            assert(j != 0) by {
                if j == 0 {
                    assert(x == b[0]);
                    assert(lex_lt(b[0].path, b[0].path));
                }
            }
            assert(at[j - 1] == x);
            assert(at.contains(x));
        }
        assert(sorted_strict(at)) by {
            assert(forall|i: int, j: int|
                0 <= i < j < at.len() ==> at[i] == a[i + 1] && at[j] == a[j + 1]);
        }
        assert(sorted_strict(bt)) by {
            assert(forall|i: int, j: int|
                0 <= i < j < bt.len() ==> bt[i] == b[i + 1] && bt[j] == b[j + 1]);
        }
        lemma_sorted_unique(at, bt);
        assert(a =~= b) by {
            assert(forall|i: int| 1 <= i < a.len() ==> a[i] == at[i - 1] && b[i] == bt[i - 1]);
        }
    }
}

/// The one strictly sorted arrangement of the members of `es`.
pub open spec fn sorted_form_of(es: Seq<EntryV>) -> Seq<EntryV> {
    choose|ss: Seq<EntryV>|
        sorted_strict(ss) && ss.len() == es.len() && (forall|x: EntryV|
            #[trigger] ss.contains(x) <==> es.contains(x))
}

/// The error the builder reports for the tree stored under `root`.
pub open spec fn build_err(s: Seq<StoredTree>, root: u64) -> TraverseError {
    if !has_id(s, root) {
        TraverseError::UnresolvableTree { id: root }
    } else if flat_tree(s, idx_of(s, root), Seq::empty()) is Err {
        flat_tree(s, idx_of(s, root), Seq::empty())->Err_0
    } else {
        TraverseError::DuplicatePath
    }
}

/// Walk the tree at position `i`, children `k` onward, appending every file
/// leaf to `out` with `prefix` before its name.
fn collect_at(
    store: &TreeStore,
    i: usize,
    prefix: &Vec<u8>,
    k: usize,
    out: &mut Vec<StagingEntry>,
) -> (r: Result<(), TraverseError>)
    requires
        store_wf(store.trees@),
        i < store.trees@.len(),
        k <= store.trees@[i as int].tree.entries@.len(),
    ensures
        match flat_entries(store.trees@, i as int, prefix@, k as int) {
            Result::Ok(es) => r is Ok && evs(final(out)@) == evs(old(out)@) + es,
            Result::Err(err) => r == Result::<(), TraverseError>::Err(err),
        },
    decreases i, store.trees@[i as int].tree.entries@.len() - k,
{
    let tree_len: usize = store.trees[i].tree.entries.len();
    if k >= tree_len {
        proof {
            assert(evs(out@) + Seq::<EntryV>::empty() =~= evs(out@));
        }
        return Result::Ok(());
    }
    let name_len: usize = store.trees[i].tree.entries[k].name.len();
    let cur_id: u64 = store.trees[i].tree.entries[k].id;
    let cur_mode: u32 = store.trees[i].tree.entries[k].mode;
    if name_len == 0 {
        return Result::Err(TraverseError::MalformedEntry { id: store.trees[i].id });
    }
    if store.trees[i].tree.entries[k].is_tree {
        match store.find_tree(cur_id) {
            Option::None => {
                return Result::Err(TraverseError::UnresolvableTree { id: cur_id });
            },
            Option::Some(j) => {
                proof {
                    assert(has_id(store.trees@, cur_id));
                    let jj = idx_of(store.trees@, cur_id);
                    assert(0 <= jj < store.trees@.len() && store.trees@[jj].id == cur_id);
                    assert(jj == j as int);
                    assert((store.trees@[i as int].tree.entries@[k as int]).is_tree);
                    assert(jj < i as int);
                }
                let mut sub_prefix = clone_bytes(prefix);
                append_bytes(&mut sub_prefix, &store.trees[i].tree.entries[k].name);
                sub_prefix.push(SLASH);
                proof {
                    assert(sub_prefix@ =~= prefix@ + store.trees@[i as int].tree.entries@[
                        k as int].name@ + seq![SLASH]);
                }
                let ghost mid = out@;
                let sub_r = collect_at(store, j, &sub_prefix, 0, out);
                if sub_r.is_err() {
                    return sub_r;
                }
                let rest_r = collect_at(store, i, prefix, k + 1, out);
                if rest_r.is_err() {
                    return rest_r;
                }
                proof {
                    let s = store.trees@;
                    let sub = flat_entries(s, j as int, sub_prefix@, 0)->Ok_0;
                    let rest = flat_entries(s, i as int, prefix@, k as int + 1)->Ok_0;
                    assert((evs(mid) + sub) + rest =~= evs(mid) + (sub + rest));
                }
                return Result::Ok(());
            },
        }
    } else {
        let mut path = clone_bytes(prefix);
        append_bytes(&mut path, &store.trees[i].tree.entries[k].name);
        let ghost mid = out@;
        let entry = StagingEntry { path, id: cur_id, mode: cur_mode, stage: 0 };
        let ghost entry_v = entry@;
        out.push(entry);
        proof {
            assert(evs(out@) =~= evs(mid) + seq![entry_v]);
        }
        let ghost mid2 = out@;
        let rest_r = collect_at(store, i, prefix, k + 1, out);
        if rest_r.is_err() {
            return rest_r;
        }
        proof {
            let s = store.trees@;
            let rest = flat_entries(s, i as int, prefix@, k as int + 1)->Ok_0;
            assert((evs(mid) + seq![entry_v]) + rest =~= evs(mid) + (seq![entry_v] + rest));
        }
        return Result::Ok(());
    }
}

/// Insert `e` into the strictly sorted `w`, keeping it sorted; refuse a
/// duplicate path.
fn insert_entry(w: &mut Vec<StagingEntry>, e: StagingEntry) -> (r: bool)
    requires
        sorted_strict(evs(old(w)@)),
    ensures
        r ==> sorted_strict(evs(final(w)@)) && final(w)@.len() == old(w)@.len() + 1 && (forall|
            x: EntryV,
        |
            evs(final(w)@).contains(x) <==> evs(old(w)@).contains(x) || x == e@) && (forall|
            x: EntryV,
        | evs(old(w)@).contains(x) ==> x.path != e@.path),
        !r ==> final(w)@ == old(w)@ && (exists|x: EntryV|
            evs(old(w)@).contains(x) && x.path == e@.path),
{
    let n: usize = w.len();
    let mut pos: usize = 0;
    while pos < n && bytes_lt(&w[pos].path, &e.path)
        invariant
            n == w@.len(),
            pos <= n,
            w@ == old(w)@,
            forall|j: int| 0 <= j < pos ==> lex_lt(evs(w@)[j].path, e@.path),
        decreases n - pos,
    {
        assert(evs(w@)[pos as int] == w@[pos as int]@);
        pos += 1;
    }
    if pos < n {
        let same = bytes_eq(&w[pos].path, &e.path);
        if same {
            proof {
                assert(evs(w@)[pos as int] == w@[pos as int]@);
                assert(evs(w@).contains(w@[pos as int]@));
            }
            return false;
        }
    }
    proof {
        let s0 = evs(w@);
        if pos < n {
            assert(s0[pos as int] == w@[pos as int]@);
            lemma_lex_total(e@.path, s0[pos as int].path);
            assert(lex_lt(e@.path, s0[pos as int].path));
        }
        assert forall|j: int| pos <= j < n implies lex_lt(e@.path, s0[j].path) by {
            if j > pos {
                lemma_lex_lt_trans(e@.path, s0[pos as int].path, s0[j].path);
            }
        }
        assert forall|x: EntryV| evs(w@).contains(x) implies x.path != e@.path by {
            let jx = choose|jj: int| 0 <= jj < s0.len() && s0[jj] == x;
            if jx < pos {
                assert(lex_lt(s0[jx].path, e@.path));
            } else {
                assert(lex_lt(e@.path, s0[jx].path));
            }
        }
    }
    let ghost pre = w@;
    let ghost ev = e@;
    w.insert(pos, e);
    proof {
        let s0 = evs(pre);
        let s1 = evs(w@);
        pre.insert_ensures(pos as int, w@[pos as int]);
        s0.insert_ensures(pos as int, ev);
        assert(s1 =~= s0.insert(pos as int, ev)) by {
            assert(forall|j: int| 0 <= j < s1.len() ==> s1[j] == w@[j]@);
        }
        assert forall|i: int, j: int| 0 <= i < j < s1.len() implies lex_lt(
            s1[i].path,
            s1[j].path,
        ) by {
            let p = pos as int;
            if j < p {
            } else if i < p && j == p {
                assert(s1[i] == s0[i]);
                assert(s1[j] == ev);
            } else if i < p && j > p {
                assert(s1[i] == s0[i]);
                assert(s1[j] == s0[j - 1]);
            } else if i == p {
                assert(s1[j] == s0[j - 1]);
                assert(lex_lt(ev.path, s0[j - 1].path));
            } else {
                assert(s1[i] == s0[i - 1]);
                assert(s1[j] == s0[j - 1]);
            }
        }
        assert forall|x: EntryV| s1.contains(x) implies (s0.contains(x) || x == ev) by {
            let jx = choose|jj: int| 0 <= jj < s1.len() && s1[jj] == x;
            let p = pos as int;
            if jx < p {
                assert(s0[jx] == x);
                assert(s0.contains(x));
            } else if jx == p {
            } else {
                assert(s0[jx - 1] == x);
                assert(s0.contains(x));
            }
        }
        assert forall|x: EntryV| s0.contains(x) || x == ev implies s1.contains(x) by {
            let p = pos as int;
            if x == ev {
                assert(s1[p] == x);
                assert(s1.contains(x));
            } else {
                let jx = choose|jj: int| 0 <= jj < s0.len() && s0[jj] == x;
                if jx < p {
                    assert(s1[jx] == x);
                } else {
                    assert(s1[jx + 1] == x);
                }
                assert(s1.contains(x));
            }
        }
    }
    true
}

/// Order entries strictly by path; report a duplicate path instead of a table.
#[verifier::loop_isolation(false)]
fn sort_entries(v: Vec<StagingEntry>) -> (r: Option<Vec<StagingEntry>>)
    ensures
        match r {
            Option::Some(w) => sorted_strict(evs(w@)) && w@.len() == v@.len() && (forall|
                x: EntryV,
            | evs(w@).contains(x) <==> evs(v@).contains(x)) && paths_distinct(evs(v@)),
            Option::None => !paths_distinct(evs(v@)),
        },
{
    let ghost orig = v@;
    let mut rest = v;
    let mut w: Vec<StagingEntry> = Vec::new();
    let ghost total = orig.len();
    while rest.len() > 0
        invariant
            rest@ =~= orig.subrange(total - rest@.len(), total as int),
            rest@.len() <= total,
            total == orig.len(),
            sorted_strict(evs(w@)),
            w@.len() == total - rest@.len(),
            forall|x: EntryV|
                evs(w@).contains(x) <==> evs(orig.subrange(0, total - rest@.len())).contains(x),
            paths_distinct(evs(orig.subrange(0, total - rest@.len()))),
        decreases rest@.len(),
    {
        let ghost done = total - rest@.len();
        let e = rest.remove(0);
        proof {
            assert(rest@ =~= orig.subrange(done + 1, total as int));
            assert(e == orig[done]);
        }
        let ghost ev = e@;
        let ghost pre_w = w@;
        let ok = insert_entry(&mut w, e);
        proof {
            let prefix0 = orig.subrange(0, done);
            let prefix1 = orig.subrange(0, done + 1);
            assert(forall|x: EntryV|
                evs(pre_w).contains(x) <==> evs(prefix0).contains(x));
            assert(prefix1 =~= prefix0.push(orig[done]));
            assert forall|x: EntryV| evs(prefix1).contains(x) implies (evs(prefix0).contains(x)
                || x == ev) by {
                let s = evs(prefix1);
                let jx = choose|jj: int| 0 <= jj < s.len() && s[jj] == x;
                if jx < done {
                    assert(evs(prefix0)[jx] == x);
                    assert(evs(prefix0).contains(x));
                } else {
                    assert(prefix1[jx] == orig[done]);
                }
            }
            assert forall|x: EntryV| evs(prefix0).contains(x) || x == ev implies evs(
                prefix1,
            ).contains(x) by {
                if x == ev {
                    assert(evs(prefix1)[done] == x);
                } else {
                    let s = evs(prefix0);
                    let jx = choose|jj: int| 0 <= jj < s.len() && s[jj] == x;
                    assert(evs(prefix1)[jx] == x);
                }
                assert(evs(prefix1).contains(x));
            }
            if !ok {
                let x0 = choose|x: EntryV| evs(pre_w).contains(x) && x.path == ev.path;
                assert(evs(prefix0).contains(x0));
                let s = evs(prefix0);
                let jx = choose|jj: int| 0 <= jj < s.len() && s[jj] == x0;
                assert(evs(orig)[jx] == orig[jx]@);
                assert(evs(orig)[done] == orig[done]@);
                assert(evs(orig)[jx].path == evs(orig)[done].path);
                assert(!paths_distinct(evs(orig)));
            } else {
                assert forall|i: int, j: int| 0 <= i < j < evs(prefix1).len() implies evs(
                    prefix1,
                )[i].path != evs(prefix1)[j].path by {
                    if j < done {
                        assert(evs(prefix0)[i] == evs(prefix1)[i]);
                        assert(evs(prefix0)[j] == evs(prefix1)[j]);
                    } else {
                        assert(j == done);
                        assert(prefix1[j] == orig[done]);
                        assert(evs(prefix1)[j] == ev);
                        let xi = evs(prefix0)[i];
                        assert(evs(prefix1)[i] == xi);
                        assert(evs(prefix0).contains(xi));
                        assert(evs(pre_w).contains(xi));
                        assert(xi.path != ev.path);
                    }
                }
            }
        }
        if !ok {
            return Option::None;
        }
    }
    proof {
        assert(orig.subrange(0, total as int) =~= orig);
        assert(evs(orig.subrange(0, total as int)) =~= evs(orig));
    }
    Option::Some(w)
}

/// Build a staging table from the tree stored under `root_tree_id`.
///
/// Every file leaf reachable from the root becomes one stage-0 entry whose
/// path joins the ancestor names; the table is strictly sorted by path, holds
/// no duplicate (path, stage) pair, and has exactly one entry per reachable
/// file leaf. An unresolvable tree id, a malformed (empty) child name, or two
/// leaves flattening to one path surface as an error, never as a partial
/// table.
pub fn build_index(root_tree_id: u64, store: &TreeStore) -> (r: Result<
    StagingTable,
    TraverseError,
>)
    requires
        store_wf(store.trees@),
    ensures
        r is Ok <==> (has_id(store.trees@, root_tree_id) && flat_tree(
            store.trees@,
            idx_of(store.trees@, root_tree_id),
            Seq::empty(),
        ) is Ok && paths_distinct(
            flat_tree(store.trees@, idx_of(store.trees@, root_tree_id), Seq::empty())->Ok_0,
        )),
        r matches Result::Ok(t) ==> {
            let es = flat_tree(store.trees@, idx_of(store.trees@, root_tree_id), Seq::empty())->Ok_0;
            &&& t@.version == INDEX_VERSION
            &&& table_wf(t@)
            &&& stage_paths_distinct(t@.entries)
            &&& t@.entries == sorted_form_of(es)
            &&& t@.entries.len() == es.len()
            &&& (forall|x: EntryV| t@.entries.contains(x) <==> es.contains(x))
            &&& (forall|n: int|
                0 <= n < t@.entries.len() ==> (#[trigger] t@.entries[n]).stage == 0)
        },
        r matches Result::Err(e) ==> e == build_err(store.trees@, root_tree_id),
{
    let root_pos = match store.find_tree(root_tree_id) {
        Option::None => {
            return Result::Err(TraverseError::UnresolvableTree { id: root_tree_id });
        },
        Option::Some(j) => j,
    };
    proof {
        assert(has_id(store.trees@, root_tree_id));
        let jj = idx_of(store.trees@, root_tree_id);
        assert(0 <= jj < store.trees@.len() && store.trees@[jj].id == root_tree_id);
        assert(jj == root_pos as int);
    }
    let empty_prefix: Vec<u8> = Vec::new();
    let mut collected: Vec<StagingEntry> = Vec::new();
    let res = collect_at(store, root_pos, &empty_prefix, 0, &mut collected);
    match res {
        Result::Err(e) => {
            return Result::Err(e);
        },
        Result::Ok(()) => {},
    }
    let ghost es = flat_tree(store.trees@, root_pos as int, Seq::empty())->Ok_0;
    proof {
        assert(evs(collected@) =~= Seq::<EntryV>::empty() + es);
        assert(evs(collected@) =~= es);
        assert(evs(collected@).len() == collected@.len());
    }
    match sort_entries(collected) {
        Option::None => {
            return Result::Err(TraverseError::DuplicatePath);
        },
        Option::Some(w) => {
            let t = StagingTable { version: INDEX_VERSION, entries: w };
            proof {
                lemma_flat_stage0(store.trees@, root_pos as int, Seq::empty(), 0);
                assert(t@.entries =~= evs(t.entries@));
                assert forall|n: int| 0 <= n < t@.entries.len() implies (#[trigger] t@.entries[n]).stage
                    == 0 by {
                    assert(t@.entries.contains(t@.entries[n]));
                    let x = t@.entries[n];
                    let jx = choose|jj: int| 0 <= jj < es.len() && es[jj] == x;
                    assert(es[jx].stage == 0);
                }
                assert forall|i: int, j: int| 0 <= i < j < t@.entries.len() implies !(t@.entries[i].path
                    == t@.entries[j].path && t@.entries[i].stage == t@.entries[j].stage) by {
                    assert(lex_lt(t@.entries[i].path, t@.entries[j].path));
                }
                let sf = sorted_form_of(es);
                assert(sorted_strict(sf) && sf.len() == es.len() && (forall|x: EntryV|
                    #[trigger] sf.contains(x) <==> es.contains(x))) by {
                    assert(sorted_strict(t@.entries) && t@.entries.len() == es.len() && (forall|
                        x: EntryV,
                    | #[trigger] t@.entries.contains(x) <==> es.contains(x)));
                }
                assert forall|x: EntryV| t@.entries.contains(x) implies sf.contains(x) by {}
                assert forall|x: EntryV| sf.contains(x) implies t@.entries.contains(x) by {}
                lemma_sorted_unique(t@.entries, sf);
            }
            Result::Ok(t)
        },
    }
}

} // verus!

//! The checkout driver: preconditions, worker count, index build and
//! persistence, and the cooperative file-materialization walk.
//!
//! Everything here is a decision over plain values: the caller performs the
//! actual filesystem writes from the returned plan, polls its cancellation
//! flag between units of work, and records the observed flag values that this
//! module's walk honors.

use vstd::prelude::*;
use crate::index::{
    StagingTable, TraverseError, build_index, flat_tree, paths_distinct, table_wf, INDEX_VERSION,
    EntryV, TableV, sorted_form_of, build_err,
};
use crate::codec::{serialize_index, encoding_of, encodable};
use crate::tree::{TreeStore, store_wf, has_id, idx_of, clone_bytes};

verus! {

/// The `checkout.workers` configuration value as the typed lookup returned
/// it: absent, a parsed integer, or present but unparsable.
#[derive(Debug)]
pub enum ConfigInt {
    Unset,
    Value(i64),
    Invalid,
}

/// Why a checkout failed.
#[derive(Debug)]
pub enum Error {
    /// The repository has no working directory; its control directory is named.
    BareRepository { git_dir: Vec<u8> },
    /// HEAD does not peel to a tree.
    NoHeadTree,
    /// The staging table could not be built from the tree with this id.
    IndexFromTree { id: u64, source: TraverseError },
    /// The staging table could not be serialized.
    WriteIndex,
    /// The configuration value under this key was unparsable and the
    /// repository is not lenient about configuration.
    Configuration { key: Vec<u8> },
    /// A staged object id had no blob behind it during the walk.
    Materialization { path: Vec<u8>, id: u64 },
}

/// The configuration key the worker-thread limit is read from:
/// the bytes of `checkout.workers`.
pub open spec fn workers_key() -> Seq<u8> {
    seq![99u8, 104u8, 101u8, 99u8, 107u8, 111u8, 117u8, 116u8, 46u8, 119u8, 111u8, 114u8, 107u8, 101u8, 114u8, 115u8]
}

/// The configuration key as a byte vector.
pub fn workers_key_bytes() -> (r: Vec<u8>)
    ensures
        r@ == workers_key(),
{
    let mut v: Vec<u8> = Vec::new();
    v.push(99);
    v.push(104);
    v.push(101);
    v.push(99);
    v.push(107);
    v.push(111);
    v.push(117);
    v.push(116);
    v.push(46);
    v.push(119);
    v.push(111);
    v.push(114);
    v.push(107);
    v.push(101);
    v.push(114);
    v.push(115);
    proof {
        assert(v@ =~= workers_key());
    }
    v
}

/// Resolve the worker-thread limit from `checkout.workers`: a negative value
/// clamps to the unlimited sentinel 0, a non-negative one is used as given,
/// an absent key leaves the limit unset, and an unparsable value is fatal
/// unless the repository is lenient, in which case one worker is used.
pub fn checkout_thread_limit_from_config(workers: &ConfigInt, lenient_config: bool) -> (r: Result<
    Option<usize>,
    Error,
>)
    requires
        workers matches ConfigInt::Value(v) ==> v <= usize::MAX,
    ensures
        *workers is Unset ==> r == Result::<Option<usize>, Error>::Ok(Option::<usize>::None),
        (*workers is Value && (*workers)->Value_0 < 0) ==> r == Result::<
            Option<usize>,
            Error,
        >::Ok(Option::Some(0usize)),
        (*workers is Value && (*workers)->Value_0 >= 0) ==> (r matches Result::Ok(o) && (o
            matches Option::Some(w) && w as int == (*workers)->Value_0)),
        (*workers is Invalid && lenient_config) ==> r == Result::<Option<usize>, Error>::Ok(
            Option::Some(1usize),
        ),
        (*workers is Invalid && !lenient_config) ==> (r matches Result::Err(e) && (e
            matches Error::Configuration { key } && key@ == workers_key())),
{
    match workers {
        ConfigInt::Unset => Result::Ok(Option::None),
        ConfigInt::Value(v) => {
            if *v < 0 {
                Result::Ok(Option::Some(0))
            } else {
                Result::Ok(Option::Some(*v as usize))
            }
        },
        ConfigInt::Invalid => {
            if lenient_config {
                Result::Ok(Option::Some(1))
            } else {
                Result::Err(Error::Configuration { key: workers_key_bytes() })
            }
        },
    }
}

/// The policies of one checkout, fixed before the walk starts.
pub struct CheckoutOptions {
    pub thread_limit: Option<usize>,
    pub destination_is_initially_empty: bool,
    pub overwrite_existing: bool,
    pub keep_going: bool,
    pub trust_ctime: bool,
    pub check_stat: bool,
}

/// A blob together with the id it is stored under.
pub struct StoredBlob {
    pub id: u64,
    pub data: Vec<u8>,
}

/// The object database's blob side: content bytes by id.
pub struct BlobStore {
    pub blobs: Vec<StoredBlob>,
}

/// The content stored under `id`, if any.
pub open spec fn blob_lookup(s: Seq<StoredBlob>, id: u64) -> Option<Seq<u8>>
    decreases s.len(),
{
    if s.len() == 0 {
        Option::None
    } else if s[0].id == id {
        Option::Some(s[0].data@)
    } else {
        blob_lookup(s.skip(1), id)
    }
}

impl BlobStore {
    /// Look up the content stored under `id`.
    #[verifier::loop_isolation(false)]
    pub fn find_blob(&self, id: u64) -> (r: Option<Vec<u8>>)
        ensures
            match r {
                Option::Some(d) => blob_lookup(self.blobs@, id) == Option::Some(d@),
                Option::None => blob_lookup(self.blobs@, id) is None,
            },
    {
        let n: usize = self.blobs.len();
        let mut i: usize = 0;
        proof {
            assert(self.blobs@.skip(0) =~= self.blobs@);
        }
        while i < n
            invariant
                i <= n,
                blob_lookup(self.blobs@, id) == blob_lookup(self.blobs@.skip(i as int), id),
            decreases n - i,
        {
            proof {
                assert(self.blobs@.skip(i as int)[0] == self.blobs@[i as int]);
                assert(self.blobs@.skip(i as int).skip(1) =~= self.blobs@.skip(i as int + 1));
            }
            if self.blobs[i].id == id {
                return Option::Some(clone_bytes(&self.blobs[i].data));
            }
            i += 1;
        }
        proof {
            assert(self.blobs@.skip(n as int).len() == 0);
        }
        Option::None
    }
}

/// The cancellation flag's value as observed before each unit of work.
pub struct Interrupt {
    pub observations: Vec<bool>,
}

/// Whether the flag was observed set before unit `i`.
pub open spec fn observed(obs: Seq<bool>, i: int) -> bool {
    0 <= i < obs.len() && obs[i]
}

impl Interrupt {
    /// The flag value observed before unit `i`; unobserved units count as
    /// not cancelled.
    pub fn is_set(&self, i: usize) -> (r: bool)
        ensures
            r == observed(self.observations@, i as int),
    {
        if i < self.observations.len() {
            self.observations[i]
        } else {
            false
        }
    }
}

/// One planned working-directory write.
pub struct FileWrite {
    pub path: Vec<u8>,
    pub data: Vec<u8>,
}

/// The planned writes mirror a prefix of the table: before each one the
/// flag was observed clear, its path is the entry's path, and its content is
/// the entry's blob.
pub open spec fn writes_ok(
    ws: Seq<FileWrite>,
    tv: crate::index::TableV,
    blobs: Seq<StoredBlob>,
    obs: Seq<bool>,
) -> bool {
    forall|j: int|
        #![trigger ws[j]]
        #![trigger tv.entries[j]]
        0 <= j < ws.len() ==> !observed(obs, j) && ws[j].path@ == tv.entries[j].path
            && blob_lookup(blobs, tv.entries[j].id) == Option::Some(ws[j].data@)
}

/// The walk fails exactly at position `j`: the flag stayed clear and every
/// earlier entry resolved, but the blob under entry `j` is missing.
pub open spec fn walk_fails_at(
    entries: Seq<EntryV>,
    blobs: Seq<StoredBlob>,
    obs: Seq<bool>,
    j: int,
) -> bool {
    &&& 0 <= j < entries.len()
    &&& !observed(obs, j)
    &&& blob_lookup(blobs, entries[j].id) is None
    &&& (forall|i: int|
        0 <= i < j ==> !observed(obs, i) && blob_lookup(blobs, (#[trigger] entries[i]).id)
            is Some)
}

/// Some entry the walk reaches before any observed interrupt has no blob.
pub open spec fn walk_failure(entries: Seq<EntryV>, blobs: Seq<StoredBlob>, obs: Seq<bool>) -> bool {
    exists|j: int| walk_fails_at(entries, blobs, obs, j)
}

proof fn lemma_writes_ok_push(
    ws: Seq<FileWrite>,
    tv: crate::index::TableV,
    blobs: Seq<StoredBlob>,
    obs: Seq<bool>,
    w: FileWrite,
)
    requires
        writes_ok(ws, tv, blobs, obs),
        ws.len() < tv.entries.len(),
        !observed(obs, ws.len() as int),
        w.path@ == tv.entries[ws.len() as int].path,
        blob_lookup(blobs, tv.entries[ws.len() as int].id) == Option::Some(w.data@),
    ensures
        writes_ok(ws.push(w), tv, blobs, obs),
{
    let ws2 = ws.push(w);
    assert forall|j: int|
        #![trigger ws2[j]]
        #![trigger tv.entries[j]]
        0 <= j < ws2.len() implies !observed(obs, j) && ws2[j].path@
            == tv.entries[j].path && blob_lookup(blobs, tv.entries[j].id) == Option::Some(
            ws2[j].data@,
        ) by {
        if j < ws.len() {
            assert(ws2[j] == ws[j]);
            let wj = ws[j];
            assert(!observed(obs, j) && (ws[j]).path@ == tv.entries[j].path && blob_lookup(
                blobs,
                tv.entries[j].id,
            ) == Option::Some(ws[j].data@));
        } else {
            assert(ws2[j] == w);
        }
    }
}

/// Walk the staging table in order, resolving each entry's blob, honoring
/// the cancellation flag before each write: once the flag is observed set no
/// further write is planned, and what was planned stays a prefix of the
/// table. A missing blob aborts the walk with the offending path and id;
/// cancellation alone never makes it fail.
#[verifier::loop_isolation(false)]
#[verifier::rlimit(60)]
pub fn materialize(table: &StagingTable, blobs: &BlobStore, interrupt: &Interrupt) -> (r: Result<
    (Vec<FileWrite>, bool),
    Error,
>)
    ensures
        r is Ok <==> !walk_failure(table@.entries, blobs.blobs@, interrupt.observations@),
        r matches Result::Ok(p) ==> {
            &&& p.0@.len() <= table@.entries.len()
            &&& (p.1 <==> p.0@.len() == table@.entries.len())
            &&& writes_ok(p.0@, table@, blobs.blobs@, interrupt.observations@)
            &&& (p.0@.len() < table@.entries.len() ==> observed(
                interrupt.observations@,
                p.0@.len() as int,
            ))
            &&& (observed(interrupt.observations@, 0) ==> p.0@.len() == 0)
        },
        r matches Result::Err(e) ==> (e matches Error::Materialization { path, id } && (exists|
            j: int,
        |
            walk_fails_at(table@.entries, blobs.blobs@, interrupt.observations@, j) && path@ == (
            #[trigger] table@.entries[j]).path && id == table@.entries[j].id)),
{
    proof {
        assert(table@.entries.len() == table.entries@.len());
    }
    let n: usize = table.entries.len();
    let mut ws: Vec<FileWrite> = Vec::new();
    let mut i: usize = 0;
    while i < n
        invariant
            i <= n,
            ws@.len() == i,
            writes_ok(ws@, table@, blobs.blobs@, interrupt.observations@),
        decreases n - i,
    {
        if interrupt.is_set(i) {
            proof {
                if ws@.len() > 0 {
                    let w0 = ws@[0];
                    assert(!observed(interrupt.observations@, 0));
                }
                let es = table@.entries;
                let obs = interrupt.observations@;
                if walk_failure(es, blobs.blobs@, obs) {
                    let j = choose|j: int| walk_fails_at(es, blobs.blobs@, obs, j);
                    assert(walk_fails_at(es, blobs.blobs@, obs, j));
                    if j < i {
                        let wj = ws@[j];
                        assert(blob_lookup(blobs.blobs@, es[j].id) == Option::Some(ws@[j].data@));
                    } else if j == i {
                        assert(!observed(obs, i as int));
                    } else {
                        assert(!observed(obs, i as int) && blob_lookup(
                            blobs.blobs@,
                            es[i as int].id,
                        ) is Some);
                    }
                    assert(false);
                }
            }
            return Result::Ok((ws, false));
        }
        proof {
            assert(table@.entries[i as int] == table.entries@[i as int]@);
        }
        match blobs.find_blob(table.entries[i].id) {
            Option::None => {
                let e = Error::Materialization {
                    path: clone_bytes(&table.entries[i].path),
                    id: table.entries[i].id,
                };
                proof {
                    let jw = i as int;
                    assert forall|x: int| 0 <= x < jw implies !observed(
                        interrupt.observations@,
                        x,
                    ) && blob_lookup(
                        blobs.blobs@,
                        (#[trigger] table@.entries[x]).id,
                    ) is Some by {
                        let wx = ws@[x];
                        assert(blob_lookup(blobs.blobs@, table@.entries[x].id)
                            == Option::Some(ws@[x].data@));
                    }
                    assert(walk_fails_at(
                        table@.entries,
                        blobs.blobs@,
                        interrupt.observations@,
                        jw,
                    ));
                }
                return Result::Err(e);
            },
            Option::Some(data) => {
                let ghost pre = ws@;
                let w = FileWrite { path: clone_bytes(&table.entries[i].path), data };
                proof {
                    lemma_writes_ok_push(
                        pre,
                        table@,
                        blobs.blobs@,
                        interrupt.observations@,
                        w,
                    );
                }
                ws.push(w);
                proof {
                    assert(ws@ == pre.push(w));
                }
            },
        }
        i += 1;
    }
    proof {
        if ws@.len() > 0 {
            let w0 = ws@[0];
            assert(!observed(interrupt.observations@, 0));
        }
        let es = table@.entries;
        let obs = interrupt.observations@;
        if walk_failure(es, blobs.blobs@, obs) {
            let j = choose|j: int| walk_fails_at(es, blobs.blobs@, obs, j);
            assert(walk_fails_at(es, blobs.blobs@, obs, j));
            let wj = ws@[j];
            assert(blob_lookup(blobs.blobs@, es[j].id) == Option::Some(ws@[j].data@));
            assert(false);
        }
    }
    Result::Ok((ws, true))
}

/// The repository handle the driver decides over: its directories, what HEAD
/// peels to, its configuration, and its object stores.
pub struct Repository {
    pub git_dir: Vec<u8>,
    pub work_dir: Option<Vec<u8>>,
    pub head_tree: Option<u64>,
    pub lenient_config: bool,
    pub workers: ConfigInt,
    pub trees: TreeStore,
    pub blobs: BlobStore,
}

/// What the driver relies on of a repository handle.
pub open spec fn repo_wf(r: Repository) -> bool {
    &&& store_wf(r.trees.trees@)
    &&& (r.workers matches ConfigInt::Value(v) ==> v <= usize::MAX)
}

impl Repository {
    /// Decide what the driver relies on of this handle.
    pub fn check_wf(&self) -> (r: bool)
        ensures
            r == repo_wf(*self),
    {
        let stores_ok = self.trees.check_wf();
        let workers_ok = match &self.workers {
            ConfigInt::Value(v) => *v < 0 || (*v as u64) <= (usize::MAX as u64),
            _ => true,
        };
        stores_ok && workers_ok
    }

    /// The directory that guard teardown removes: the working directory, or
    /// the control directory of a bare repository.
    pub fn cleanup_dir(&self) -> (r: &Vec<u8>)
        ensures
            self.work_dir is Some ==> r@ == self.work_dir->0@,
            self.work_dir is None ==> r@ == self.git_dir@,
    {
        match &self.work_dir {
            Option::Some(w) => w,
            Option::None => &self.git_dir,
        }
    }
}

/// Everything a completed checkout decision hands the caller: the staging
/// table, its byte image for the index file, the resolved worker limit, the
/// assembled options, and the planned writes.
pub struct CheckoutOutcome {
    pub index: StagingTable,
    pub index_bytes: Vec<u8>,
    pub thread_limit: Option<usize>,
    pub options: CheckoutOptions,
    pub writes: Vec<FileWrite>,
    pub completed: bool,
}

/// An in-progress checkout: owns the repository handle until the caller
/// persists it or teardown reclaims it.
pub struct PrepareCheckout {
    pub repo: Option<Repository>,
}

/// Whether the staging table can be built from the tree under `root` at all.
pub open spec fn build_ok(s: crate::tree::TreeStore, root: u64) -> bool {
    &&& has_id(s.trees@, root)
    &&& flat_tree(s.trees@, idx_of(s.trees@, root), Seq::empty()) is Ok
    &&& paths_distinct(flat_tree(s.trees@, idx_of(s.trees@, root), Seq::empty())->Ok_0)
}

/// The entries of the one staging table a successful build yields.
pub open spec fn built_entries(s: crate::tree::TreeStore, root: u64) -> Seq<EntryV> {
    sorted_form_of(flat_tree(s.trees@, idx_of(s.trees@, root), Seq::empty())->Ok_0)
}

/// The one staging table a successful build yields.
pub open spec fn built_tv(s: crate::tree::TreeStore, root: u64) -> TableV {
    TableV { version: INDEX_VERSION, entries: built_entries(s, root) }
}

/// The driver got past its preconditions and the build: a working directory
/// exists, HEAD peels to a tree, and that tree flattens to a distinct table.
pub open spec fn stage_ok_build(repo: Repository) -> bool {
    &&& repo.work_dir is Some
    &&& repo.head_tree is Some
    &&& build_ok(repo.trees, repo.head_tree->0)
}

/// ... and the built table fits the index format.
pub open spec fn stage_ok_encode(repo: Repository) -> bool {
    stage_ok_build(repo) && encodable(built_tv(repo.trees, repo.head_tree->0))
}

/// ... and the worker configuration does not abort a strict repository.
pub open spec fn stage_ok_config(repo: Repository) -> bool {
    stage_ok_encode(repo) && !(repo.workers is Invalid && !repo.lenient_config)
}

/// Every stage passes and the walk meets no missing blob before an observed
/// interrupt: the checkout is owed success.
pub open spec fn checkout_ok(repo: Repository, obs: Seq<bool>) -> bool {
    stage_ok_config(repo) && !walk_failure(
        built_entries(repo.trees, repo.head_tree->0),
        repo.blobs.blobs@,
        obs,
    )
}

impl PrepareCheckout {
    /// Persist the contained repository as is, even if the worktree checkout
    /// failed; the handle is present and consumed exactly once.
    pub fn persist(self) -> (r: Repository)
        requires
            self.repo is Some,
        ensures
            r == self.repo->0,
    {
        self.repo.unwrap()
    }

    /// Take the repository handle out for guard teardown.
    pub fn take_for_cleanup(&mut self) -> (r: Option<Repository>)
        ensures
            final(self).repo is None,
            r == old(self).repo,
    {
        self.repo.take()
    }

    /// Check out the main worktree: refuse a bare repository naming its
    /// control directory, refuse a HEAD that is no tree, build and serialize
    /// the staging table, resolve the worker limit, assemble the fixed
    /// checkout policies, and plan the cooperative walk.
    pub fn main_worktree(&mut self, should_interrupt: &Interrupt) -> (r: Result<
        CheckoutOutcome,
        Error,
    >)
        requires
            old(self).repo is Some,
            repo_wf(old(self).repo->0),
        ensures
            *final(self) == *old(self),
            old(self).repo->0.work_dir is None ==> (r matches Result::Err(e) && (e
                matches Error::BareRepository { git_dir } && git_dir@ == old(
                self,
            ).repo->0.git_dir@)),
            (old(self).repo->0.work_dir is Some && old(self).repo->0.head_tree is None) ==> (r
                matches Result::Err(e) && e is NoHeadTree),
            (old(self).repo->0.work_dir is Some && old(self).repo->0.head_tree is Some
                && !build_ok(old(self).repo->0.trees, old(self).repo->0.head_tree->0)) ==> (r
                matches Result::Err(e) && (e matches Error::IndexFromTree { id, source } && id
                == old(self).repo->0.head_tree->0 && source == build_err(
                old(self).repo->0.trees.trees@,
                old(self).repo->0.head_tree->0,
            ))),
            (stage_ok_build(old(self).repo->0) && !encodable(built_tv(
                old(self).repo->0.trees,
                old(self).repo->0.head_tree->0,
            ))) ==> (r matches Result::Err(e) && e is WriteIndex),
            (stage_ok_encode(old(self).repo->0) && old(self).repo->0.workers is Invalid && !old(
                self,
            ).repo->0.lenient_config) ==> (r matches Result::Err(e) && (e
                matches Error::Configuration { key } && key@ == workers_key())),
            (stage_ok_config(old(self).repo->0) && walk_failure(
                built_entries(old(self).repo->0.trees, old(self).repo->0.head_tree->0),
                old(self).repo->0.blobs.blobs@,
                should_interrupt.observations@,
            )) ==> (r matches Result::Err(e) && e is Materialization),
            checkout_ok(old(self).repo->0, should_interrupt.observations@) ==> r is Ok,
            r is Ok ==> checkout_ok(old(self).repo->0, should_interrupt.observations@),
            (r matches Result::Err(e) && e is BareRepository) ==> old(self).repo->0.work_dir
                is None,
            (r matches Result::Err(e) && e is NoHeadTree) ==> (old(self).repo->0.work_dir is Some
                && old(self).repo->0.head_tree is None),
            (r matches Result::Err(e) && e is IndexFromTree) ==> (old(self).repo->0.work_dir
                is Some && old(self).repo->0.head_tree is Some && !build_ok(
                old(self).repo->0.trees,
                old(self).repo->0.head_tree->0,
            )),
            (r matches Result::Err(e) && e is WriteIndex) ==> (stage_ok_build(old(self).repo->0)
                && !encodable(built_tv(old(self).repo->0.trees, old(self).repo->0.head_tree->0))),
            (r matches Result::Err(e) && e is Configuration) ==> (stage_ok_encode(
                old(self).repo->0,
            ) && old(self).repo->0.workers is Invalid && !old(self).repo->0.lenient_config
                && r->Err_0->Configuration_key@ == workers_key()),
            (r matches Result::Err(e) && e is Materialization) ==> (stage_ok_config(
                old(self).repo->0,
            ) && (exists|j: int|
                walk_fails_at(
                    built_entries(old(self).repo->0.trees, old(self).repo->0.head_tree->0),
                    old(self).repo->0.blobs.blobs@,
                    should_interrupt.observations@,
                    j,
                ) && r->Err_0->Materialization_path@ == (#[trigger] built_entries(
                    old(self).repo->0.trees,
                    old(self).repo->0.head_tree->0,
                )[j]).path && r->Err_0->Materialization_id == built_entries(
                    old(self).repo->0.trees,
                    old(self).repo->0.head_tree->0,
                )[j].id)),
            r matches Result::Ok(o) ==> {
                let repo = old(self).repo->0;
                &&& repo.work_dir is Some
                &&& repo.head_tree is Some
                &&& build_ok(repo.trees, repo.head_tree->0)
                &&& table_wf(o.index@)
                &&& o.index@ == built_tv(repo.trees, repo.head_tree->0)
                &&& encodable(o.index@)
                &&& o.index_bytes@ == encoding_of(o.index@)
                &&& (repo.workers is Unset ==> o.thread_limit is None)
                &&& (repo.workers is Value && repo.workers->Value_0 < 0 ==> o.thread_limit
                    == Option::Some(0usize))
                &&& (repo.workers is Value && repo.workers->Value_0 >= 0 ==> (o.thread_limit
                    matches Option::Some(w) && w as int == repo.workers->Value_0))
                &&& (repo.workers is Invalid ==> repo.lenient_config && o.thread_limit
                    == Option::Some(1usize))
                &&& o.options == (CheckoutOptions {
                    thread_limit: o.thread_limit,
                    destination_is_initially_empty: true,
                    overwrite_existing: false,
                    keep_going: false,
                    trust_ctime: true,
                    check_stat: true,
                })
                &&& o.writes@.len() <= o.index@.entries.len()
                &&& (o.completed <==> o.writes@.len() == o.index@.entries.len())
                &&& writes_ok(
                    o.writes@,
                    o.index@,
                    repo.blobs.blobs@,
                    should_interrupt.observations@,
                )
                &&& (o.writes@.len() < o.index@.entries.len() ==> observed(
                    should_interrupt.observations@,
                    o.writes@.len() as int,
                ))
                &&& (observed(should_interrupt.observations@, 0) ==> o.writes@.len() == 0)
            },
            r matches Result::Err(e) && e is WriteIndex ==> build_ok(
                old(self).repo->0.trees,
                old(self).repo->0.head_tree->0,
            ),
            r matches Result::Err(e) && e is Configuration ==> old(self).repo->0.workers
                is Invalid && !old(self).repo->0.lenient_config,
            r matches Result::Err(e) && e is Materialization ==> blob_lookup(
                old(self).repo->0.blobs.blobs@,
                r->Err_0->Materialization_id,
            ) is None,
    {
        let repo = match &self.repo {
            Option::Some(r) => r,
            Option::None => {
                proof {
                    assert(false);
                }
                unreached()
            },
        };
        if repo.work_dir.is_none() {
            return Result::Err(Error::BareRepository { git_dir: clone_bytes(&repo.git_dir) });
        }
        let root_tree: u64 = match &repo.head_tree {
            Option::Some(t) => *t,
            Option::None => {
                return Result::Err(Error::NoHeadTree);
            },
        };
        proof {
            assert(*repo == old(self).repo->0);
        }
        let table = match build_index(root_tree, &repo.trees) {
            Result::Ok(t) => t,
            Result::Err(src) => {
                return Result::Err(Error::IndexFromTree { id: root_tree, source: src });
            },
        };
        proof {
            assert(build_ok(repo.trees, root_tree));
            assert(table@.entries == built_entries(repo.trees, root_tree));
            assert(table@ == built_tv(repo.trees, root_tree));
        }
        let bytes = match serialize_index(&table) {
            Result::Ok(b) => b,
            Result::Err(_) => {
                return Result::Err(Error::WriteIndex);
            },
        };
        let thread_limit = match checkout_thread_limit_from_config(
            &repo.workers,
            repo.lenient_config,
        ) {
            Result::Ok(l) => l,
            Result::Err(e) => {
                proof {
                    assert(repo.workers is Invalid && !repo.lenient_config);
                }
                return Result::Err(e);
            },
        };
        let options = CheckoutOptions {
            thread_limit,
            destination_is_initially_empty: true,
            overwrite_existing: false,
            keep_going: false,
            trust_ctime: true,
            check_stat: true,
        };
        let (writes, completed) = match materialize(&table, &repo.blobs, should_interrupt) {
            Result::Ok(p) => p,
            Result::Err(e) => {
                return Result::Err(e);
            },
        };
        Result::Ok(
            CheckoutOutcome {
                index: table,
                index_bytes: bytes,
                thread_limit,
                options,
                writes,
                completed,
            },
        )
    }
}

} // verus!

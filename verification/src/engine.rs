//! The orchestrator: the decision sequence of a run and the engine proper,
//! which chains the submodule rewrite, the dangling-reference audit, the
//! parent rewrite and the branch retargeting over one store.

use vstd::prelude::*;

use crate::maps::{map_lookup, Mappings, RewriteMap};
use crate::rewrite::{
    are_mappings_valid, dangling_reported, find_dangling_references_to_submodule, gitlink_at,
    invalid_mapping_value, is_dangling, lemma_sub_rewritten_stable, parent_commit_rewritten,
    resolve_gitlink, retarget_branches, rewrite_repo_history, rewrite_submodule_history,
    sub_commit_rewritten, sub_image_ok, RewriteError,
};
use crate::store::{commit_at, is_commit_at, is_tree_at, obj_wf, store_wf, Object, Store,
    MODE_GITLINK, MODE_TREE};
use crate::tree_edit::{
    entry_at_path, lemma_entry_at_path_extend, lemma_prefix_chain_at_path, path_view,
    prefix_chain_ok, store_prefix,
};
use crate::walk::{order_ok, parents_of, revwalk, walk_ok};

verus! {

/// How a run ends, one status per outcome the tool reports.
pub enum ExitStatus {
    Success,
    NoGitRepo,
    DanglingFound,
    InvalidCommitId,
    InvalidMappings,
    DirtyWorkdir,
    SubmoduleFetchFailed,
    SubmoduleNotFound,
}

/// The process exit code of a status.
pub fn exit_code(s: &ExitStatus) -> (r: i32)
    ensures
        r == match s {
            ExitStatus::Success => 0int,
            ExitStatus::NoGitRepo => 1int,
            ExitStatus::DanglingFound => 2int,
            ExitStatus::InvalidCommitId => 3int,
            ExitStatus::InvalidMappings => 4int,
            ExitStatus::DirtyWorkdir => 5int,
            ExitStatus::SubmoduleFetchFailed => 6int,
            ExitStatus::SubmoduleNotFound => 7int,
        },
{
    match s {
        ExitStatus::Success => 0,
        ExitStatus::NoGitRepo => 1,
        ExitStatus::DanglingFound => 2,
        ExitStatus::InvalidCommitId => 3,
        ExitStatus::InvalidMappings => 4,
        ExitStatus::DirtyWorkdir => 5,
        ExitStatus::SubmoduleFetchFailed => 6,
        ExitStatus::SubmoduleNotFound => 7,
    }
}

/// What the preliminary checks decide, in order: the repository must open,
/// the working directory must be clean, the submodule must be registered,
/// and its history must fetch. The first failure wins; nothing has been
/// written when one fails.
pub open spec fn precheck_spec(
    repo_found: bool,
    workdir_clean: bool,
    submodule_exists: bool,
    fetch_ok: bool,
) -> Option<ExitStatus> {
    if !repo_found {
        Some(ExitStatus::NoGitRepo)
    } else if !workdir_clean {
        Some(ExitStatus::DirtyWorkdir)
    } else if !submodule_exists {
        Some(ExitStatus::SubmoduleNotFound)
    } else if !fetch_ok {
        Some(ExitStatus::SubmoduleFetchFailed)
    } else {
        None
    }
}

/// Decide the preliminary checks.
pub fn precheck(
    repo_found: bool,
    workdir_clean: bool,
    submodule_exists: bool,
    fetch_ok: bool,
) -> (r: Option<ExitStatus>)
    ensures
        r == precheck_spec(repo_found, workdir_clean, submodule_exists, fetch_ok),
{
    if !repo_found {
        Some(ExitStatus::NoGitRepo)
    } else if !workdir_clean {
        Some(ExitStatus::DirtyWorkdir)
    } else if !submodule_exists {
        Some(ExitStatus::SubmoduleNotFound)
    } else if !fetch_ok {
        Some(ExitStatus::SubmoduleFetchFailed)
    } else {
        None
    }
}

/// A second run finds the submodule gone and stops there, before anything
/// is written: once absorbed, the directory is no longer a registered
/// submodule, and the repository, clean after the first run, passes the
/// earlier checks.
pub proof fn lemma_second_run_stops(fetch_ok: bool)
    ensures
        precheck_spec(true, true, false, fetch_ok) == Some(ExitStatus::SubmoduleNotFound),
{
}

/// The image of an identifier under the map, or the identifier itself where
/// the map is silent: how the commit for the final index refresh is chosen.
pub fn lookup_or_self(m: &RewriteMap, id: usize) -> (r: usize)
    ensures
        r == match map_lookup(m@, id) {
            Some(n) => n,
            None => id,
        },
{
    match m.get(id) {
        Some(n) => n,
        None => id,
    }
}

/// Why the engine stopped.
pub enum EngineError {
    /// A mapping value or the default names a commit outside the submodule
    /// history; the offenders are listed.
    InvalidMappings(Vec<usize>),
    /// Gitlinks reference submodule commits that are neither in the fetched
    /// history nor covered by a mapping or the default; the targets are
    /// listed.
    DanglingReferences(Vec<usize>),
    /// The store contradicted the engine's own invariants: a programming
    /// error, treated as an abort rather than worked around.
    Internal,
}

/// What a finished run hands back: the final rewrite map, the snapshot of
/// the submodule-only map, the two walks, and the retargeted branch tips.
pub struct RunOutput {
    pub map: RewriteMap,
    pub sub_map: RewriteMap,
    pub sub_order: Vec<usize>,
    pub parent_order: Vec<usize>,
    pub new_tips: Vec<usize>,
}

/// Everything a successful run guarantees: the two walks enumerate the two
/// histories; every submodule commit is rewritten under the target
/// directory, injectively; every parent commit is carried over; and the
/// branch tips map pointwise to their images.
pub open spec fn engine_run_ok(
    s0: Seq<Object>,
    s_fin: Seq<Object>,
    out: RunOutput,
    sub_tips: Seq<usize>,
    parent_tips: Seq<usize>,
    pairs: Seq<(usize, usize)>,
    default: Option<usize>,
    dir: Seq<Seq<u8>>,
) -> bool {
    exists|s1: Seq<Object>|
        {
            &&& #[trigger] walk_ok(s1, parent_tips, out.parent_order@)
            &&& store_prefix(s0, s1)
            &&& store_prefix(s1, s_fin)
            &&& walk_ok(s0, sub_tips, out.sub_order@)
            &&& out.map@.len() == s0.len()
            &&& out.sub_map@.len() == s0.len()
            &&& forall|i: int|
                0 <= i < out.sub_order@.len() ==> sub_commit_rewritten(
                    s0,
                    s_fin,
                    out.sub_map@,
                    #[trigger] out.sub_order@[i] as int,
                    dir,
                )
            &&& forall|i: int, j: int|
                0 <= i < j < out.sub_order@.len() ==> out.sub_map@[out.sub_order@[i] as int]
                    != out.sub_map@[out.sub_order@[j] as int]
            &&& forall|k: int|
                0 <= k < out.sub_map@.len() && out.sub_map@[k] is Some
                    ==> out.sub_order@.contains(k as usize) || is_tree_at(s0, k)
            &&& forall|i: int|
                0 <= i < out.parent_order@.len() ==> parent_commit_rewritten(
                    s1,
                    s_fin,
                    out.map@,
                    out.sub_map@,
                    pairs,
                    default,
                    #[trigger] out.parent_order@[i] as int,
                    dir,
                )
            &&& out.new_tips@.len() == parent_tips.len()
            &&& forall|i: int|
                0 <= i < parent_tips.len() ==> map_lookup(out.map@, #[trigger] parent_tips[i])
                    == Some(out.new_tips@[i])
        }
}

/// What a dangling-reference abort guarantees: the submodule history was
/// rewritten, the parent walk was audited, every reported target dangles,
/// and every dangling target is reported.
pub open spec fn engine_dangling(
    s0: Seq<Object>,
    s_fin: Seq<Object>,
    v: Seq<usize>,
    sub_tips: Seq<usize>,
    parent_tips: Seq<usize>,
    pairs: Seq<(usize, usize)>,
    default: Option<usize>,
    dir: Seq<Seq<u8>>,
) -> bool {
    exists|so: Seq<usize>, po: Seq<usize>, subm: Seq<Option<usize>>|
        {
            &&& #[trigger] walk_ok(s0, sub_tips, so)
            &&& #[trigger] walk_ok(s_fin, parent_tips, po)
            &&& subm.len() == s0.len()
            &&& forall|i: int|
                0 <= i < so.len() ==> sub_commit_rewritten(
                    s0,
                    s_fin,
                    subm,
                    #[trigger] so[i] as int,
                    dir,
                )
            &&& v.len() > 0
            &&& #[trigger] dangling_reported(s_fin, subm, pairs, default, po, dir, v[0])
            &&& forall|w: int|
                0 <= w < v.len() ==> #[trigger] dangling_reported(
                    s_fin,
                    subm,
                    pairs,
                    default,
                    po,
                    dir,
                    v[w],
                )
            &&& forall|i: int|
                0 <= i < po.len() && is_dangling(s_fin, subm, pairs, default, #[trigger] po[i] as int, dir)
                    ==> v.contains(gitlink_at(s_fin, po[i] as int, dir)->Some_0)
        }
}


/// Every commit of the submodule walk has been rewritten into `s_fin` and
/// recorded in `subm`.
pub open spec fn sub_history_rewritten(
    s0: Seq<Object>,
    s_fin: Seq<Object>,
    subm: Seq<Option<usize>>,
    so: Seq<usize>,
    dir: Seq<Seq<u8>>,
) -> bool {
    forall|i: int|
        0 <= i < so.len() ==> sub_commit_rewritten(s0, s_fin, subm, #[trigger] so[i] as int, dir)
}

/// What an internal abort proves about the store: one of three conditions
/// that a well-formed repository never produces — the parent walk reached a
/// commit created during this very run, a gitlink passed the audit yet
/// resolves to no usable submodule image, or a branch tip names no commit.
pub open spec fn engine_internal_cause(
    s0: Seq<Object>,
    s_fin: Seq<Object>,
    sub_tips: Seq<usize>,
    parent_tips: Seq<usize>,
    pairs: Seq<(usize, usize)>,
    default: Option<usize>,
    dir: Seq<Seq<u8>>,
) -> bool {
    exists|s1: Seq<Object>, so: Seq<usize>, po: Seq<usize>, subm: Seq<Option<usize>>|
        {
            &&& #[trigger] walk_ok(s0, sub_tips, so)
            &&& #[trigger] walk_ok(s1, parent_tips, po)
            &&& store_prefix(s0, s1)
            &&& store_prefix(s1, s_fin)
            &&& subm.len() == s0.len()
            &&& #[trigger] sub_history_rewritten(s0, s_fin, subm, so, dir)
            &&& {
                ||| (exists|i: int| 0 <= i < po.len() && #[trigger] po[i] >= s0.len())
                ||| (exists|i: int|
                    0 <= i < po.len() && (gitlink_at(s1, #[trigger] po[i] as int, dir)
                        matches Some(g) && !crate::rewrite::resolution_good(
                        s1,
                        subm,
                        pairs,
                        default,
                        g,
                        dir,
                    )))
                ||| (exists|i: int|
                    0 <= i < parent_tips.len() && !is_commit_at(
                        s1,
                        #[trigger] parent_tips[i] as int,
                    ))
            }
        }
}

/// Run the engine over a loaded store: enumerate the submodule history,
/// validate the mappings, rewrite the submodule history under `dir`, audit
/// the parent history for dangling gitlinks, rewrite the parent history,
/// and compute the retargeted branch tips.
#[verifier::rlimit(60)]
pub fn run(
    store: &mut Store,
    dir: &Vec<Vec<u8>>,
    sub_tips: &Vec<usize>,
    parent_tips: &Vec<usize>,
    mappings: &Mappings,
    default_mapping: Option<usize>,
) -> (r: Result<RunOutput, EngineError>)
    requires
        old(store).wf(),
        dir@.len() > 0,
    ensures
        final(store).wf(),
        store_prefix(old(store)@, final(store)@),
        r matches Ok(out) ==> engine_run_ok(
            old(store)@,
            final(store)@,
            out,
            sub_tips@,
            parent_tips@,
            mappings.pairs@,
            default_mapping,
            path_view(dir@),
        ),
        r matches Err(EngineError::InvalidMappings(v)) ==> final(store)@ == old(store)@
            && v@.len() > 0 && exists|so: Seq<usize>|
            #[trigger] walk_ok(old(store)@, sub_tips@, so) && forall|w: int|
                0 <= w < v@.len() ==> invalid_mapping_value(
                    mappings.pairs@,
                    default_mapping,
                    so,
                    #[trigger] v@[w],
                ),
        r matches Err(EngineError::DanglingReferences(v)) ==> engine_dangling(
            old(store)@,
            final(store)@,
            v@,
            sub_tips@,
            parent_tips@,
            mappings.pairs@,
            default_mapping,
            path_view(dir@),
        ),
        r matches Err(EngineError::Internal) ==> engine_internal_cause(
            old(store)@,
            final(store)@,
            sub_tips@,
            parent_tips@,
            mappings.pairs@,
            default_mapping,
            path_view(dir@),
        ),
{
    let ghost s0 = store@;
    let ghost pv = path_view(dir@);
    proof {
        assert(store_prefix(s0, store@)) by {
            assert(store@.subrange(0, s0.len() as int) =~= s0);
        }
    }
    let entry_len = store.len();
    let mut m = RewriteMap::new(entry_len);

    let sub_order = revwalk(store, sub_tips);

    let invalid = are_mappings_valid(&sub_order, mappings, default_mapping);
    if invalid.len() > 0 {
        return Err(EngineError::InvalidMappings(invalid));
    }

    rewrite_submodule_history(store, &mut m, &sub_order, dir);
    let sub_map = m.snapshot();
    let ghost s1 = store@;
    let ghost subm = sub_map@;

    let parent_order = revwalk(store, parent_tips);

    let mut i: usize = 0;
    while i < parent_order.len()
        invariant
            i <= parent_order@.len(),
            m@.len() == s0.len(),
            store@ == s1,
            store.wf(),
            store_prefix(s0, store@),
            forall|j: int| 0 <= j < i ==> #[trigger] parent_order@[j] < m@.len(),
        decreases parent_order@.len() - i,
    {
        if !(parent_order[i] < entry_len) {
            proof {
                assert(store@.subrange(0, store@.len() as int) =~= store@);
                assert(store_prefix(store@, store@));
                assert(walk_ok(s0, sub_tips@, sub_order@));
                assert(walk_ok(store@, parent_tips@, parent_order@));
                assert(sub_history_rewritten(s0, store@, subm, sub_order@, pv));
                assert(parent_order@[i as int] >= s0.len());
            }
            return Err(EngineError::Internal);
        }
        i += 1;
    }

    let dangling = find_dangling_references_to_submodule(
        store,
        &sub_map,
        mappings,
        default_mapping,
        &parent_order,
        dir,
    );
    if dangling.len() > 0 {
        proof {
            assert(engine_dangling(
                s0,
                store@,
                dangling@,
                sub_tips@,
                parent_tips@,
                mappings.pairs@,
                default_mapping,
                pv,
            )) by {
                assert(walk_ok(s0, sub_tips@, sub_order@));
                assert(walk_ok(store@, parent_tips@, parent_order@));
                assert(dangling_reported(
                    store@,
                    subm,
                    mappings.pairs@,
                    default_mapping,
                    parent_order@,
                    pv,
                    dangling@[0],
                ));
            }
        }
        return Err(EngineError::DanglingReferences(dangling));
    }

    match rewrite_repo_history(
        store,
        &mut m,
        &sub_map,
        mappings,
        default_mapping,
        &parent_order,
        dir,
    ) {
        Ok(()) => {}
        Err(RewriteError::UnresolvedGitlink(_)) => {
            proof {
                assert(store@.subrange(0, s0.len() as int) =~= s0);
                assert(store@.subrange(0, s1.len() as int) =~= s1);
                assert(sub_history_rewritten(s0, store@, subm, sub_order@, pv)) by {
                    assert forall|i: int| 0 <= i < sub_order@.len() implies sub_commit_rewritten(
                        s0,
                        store@,
                        subm,
                        #[trigger] sub_order@[i] as int,
                        pv,
                    ) by {
                        lemma_sub_rewritten_stable(
                            s0,
                            s1,
                            store@,
                            subm,
                            subm,
                            sub_order@[i] as int,
                            pv,
                        );
                    }
                }
                assert(walk_ok(s0, sub_tips@, sub_order@));
                assert(walk_ok(s1, parent_tips@, parent_order@));
            }
            return Err(EngineError::Internal);
        }
    }
    let ghost s_fin = store@;
    proof {
        assert(store@.subrange(0, s1.len() as int) =~= s1);
        assert(store@.subrange(0, s0.len() as int) =~= s0);
        assert forall|i: int| 0 <= i < sub_order@.len() implies sub_commit_rewritten(
            s0,
            s_fin,
            subm,
            #[trigger] sub_order@[i] as int,
            pv,
        ) by {
            lemma_sub_rewritten_stable(s0, s1, s_fin, subm, subm, sub_order@[i] as int, pv);
        }
    }

    let new_tips = match retarget_branches(&m, parent_tips) {
        Some(v) => v,
        None => {
            proof {
                let i = choose|i: int|
                    0 <= i < parent_tips@.len() && map_lookup(
                        m@,
                        #[trigger] parent_tips@[i],
                    ) is None;
                let t = parent_tips@[i];
                assert(!is_commit_at(s1, t as int)) by {
                    if is_commit_at(s1, t as int) {
                        assert(parent_order@.contains(t));
                        let j = choose|j: int|
                            0 <= j < parent_order@.len() && parent_order@[j] == t;
                        assert(parent_commit_rewritten(
                            s1,
                            store@,
                            m@,
                            subm,
                            mappings.pairs@,
                            default_mapping,
                            parent_order@[j] as int,
                            pv,
                        ));
                        assert(m@[t as int] is Some);
                    }
                }
                assert(walk_ok(s0, sub_tips@, sub_order@));
                assert(walk_ok(s1, parent_tips@, parent_order@));
                assert(sub_history_rewritten(s0, s_fin, subm, sub_order@, pv));
            }
            return Err(EngineError::Internal);
        }
    };

    let out = RunOutput { map: m, sub_map, sub_order, parent_order, new_tips };
    proof {
        assert(engine_run_ok(
            s0,
            s_fin,
            out,
            sub_tips@,
            parent_tips@,
            mappings.pairs@,
            default_mapping,
            pv,
        )) by {
            assert(walk_ok(s1, parent_tips@, out.parent_order@));
        }
    }
    Ok(out)
}

/// The commit `x` belongs to the rewritten history: it is the image of a
/// parent-repository commit or of a submodule commit.
pub open spec fn in_image_set(
    m_fin: Seq<Option<usize>>,
    subm: Seq<Option<usize>>,
    so: Seq<usize>,
    po: Seq<usize>,
    x: usize,
) -> bool {
    (exists|i: int| 0 <= i < po.len() && #[trigger] m_fin[po[i] as int] == Some(x)) || (exists|
        i: int,
    | 0 <= i < so.len() && #[trigger] subm[so[i] as int] == Some(x))
}

/// After the run, no commit of the rewritten history carries a gitlink at
/// the submodule path: the images of the two walks form a set that contains
/// the retargeted branch tips, is closed under parents, and whose members
/// all lack the gitlink — so everything reachable from a retargeted tip
/// lacks it too.
///
/// The one hypothesis beyond the run's own guarantees is that no commit
/// without the gitlink has a parent with it: a history that drops the
/// submodule keeps its pre-rewrite ancestors, gitlink included, because
/// such commits are carried over unchanged.
#[verifier::rlimit(100)]
#[verifier::spinoff_prover]
pub proof fn lemma_rewritten_history_free_of_gitlinks(
    s0: Seq<Object>,
    s1: Seq<Object>,
    s_fin: Seq<Object>,
    m_fin: Seq<Option<usize>>,
    subm: Seq<Option<usize>>,
    so: Seq<usize>,
    po: Seq<usize>,
    pairs: Seq<(usize, usize)>,
    default: Option<usize>,
    dir: Seq<Seq<u8>>,
)
    requires
        store_wf(s0),
        store_wf(s1),
        store_wf(s_fin),
        store_prefix(s0, s1),
        store_prefix(s1, s_fin),
        order_ok(s0, so),
        order_ok(s1, po),
        dir.len() > 0,
        forall|i: int|
            0 <= i < so.len() ==> sub_commit_rewritten(s0, s_fin, subm, #[trigger] so[i] as int, dir),
        forall|k: int|
            0 <= k < subm.len() && subm[k] is Some ==> so.contains(k as usize) || is_tree_at(s0, k),
        forall|k: int|
            0 <= k < subm.len() && is_tree_at(s0, k) && subm[k] is Some ==> is_tree_at(
                s_fin,
                subm[k]->Some_0 as int,
            ),
        forall|i: int|
            0 <= i < po.len() ==> parent_commit_rewritten(
                s1,
                s_fin,
                m_fin,
                subm,
                pairs,
                default,
                #[trigger] po[i] as int,
                dir,
            ),
        forall|i: int, k: int|
            0 <= i < po.len() && gitlink_at(s1, #[trigger] po[i] as int, dir) is None && 0 <= k
                < parents_of(s1, po[i] as int).len() ==> gitlink_at(
                s1,
                #[trigger] parents_of(s1, po[i] as int)[k] as int,
                dir,
            ) is None,
    ensures
        forall|x: usize|
            #[trigger] in_image_set(m_fin, subm, so, po, x) ==> is_commit_at(s_fin, x as int),
        forall|x: usize, k: int|
            in_image_set(m_fin, subm, so, po, x) && 0 <= k < parents_of(s_fin, x as int).len()
                ==> in_image_set(m_fin, subm, so, po, #[trigger] parents_of(s_fin, x as int)[k]),
        forall|x: usize|
            #[trigger] in_image_set(m_fin, subm, so, po, x) ==> match entry_at_path(
                s_fin,
                commit_at(s_fin, x as int).tree as int,
                dir,
            ) {
                Some(e) => e.mode != MODE_GITLINK,
                None => true,
            },
{
    assert forall|x: usize| #[trigger] in_image_set(m_fin, subm, so, po, x) implies is_commit_at(
        s_fin,
        x as int,
    ) && (match entry_at_path(s_fin, commit_at(s_fin, x as int).tree as int, dir) {
        Some(e) => e.mode != MODE_GITLINK,
        None => true,
    }) && (forall|k: int|
        0 <= k < parents_of(s_fin, x as int).len() ==> in_image_set(
            m_fin,
            subm,
            so,
            po,
            #[trigger] parents_of(s_fin, x as int)[k],
        )) by {
        if exists|i: int| 0 <= i < po.len() && #[trigger] m_fin[po[i] as int] == Some(x) {
            let i = choose|i: int| 0 <= i < po.len() && #[trigger] m_fin[po[i] as int] == Some(x);
            let c = po[i] as int;
            assert(parent_commit_rewritten(s1, s_fin, m_fin, subm, pairs, default, c, dir));
            match gitlink_at(s1, c, dir) {
                None => {
                    // Identity: the commit is its own image.
                    assert(x == po[i]);
                    assert(is_commit_at(s1, c));
                    assert(s_fin[c] == s1.subrange(0, s1.len() as int)[c]);
                    assert(is_commit_at(s_fin, c));
                    assert(commit_at(s_fin, c) == commit_at(s1, c));
                    let tc = commit_at(s1, c).tree as int;
                    assert(obj_wf(s1, c));
                    assert(is_tree_at(s1, tc));
                    lemma_entry_at_path_extend(s1, s_fin, tc, dir);
                    assert(match entry_at_path(s1, tc, dir) {
                        Some(e) => e.mode != MODE_GITLINK,
                        None => true,
                    });
                    assert forall|k: int|
                        0 <= k < parents_of(s_fin, x as int).len() implies in_image_set(
                        m_fin,
                        subm,
                        so,
                        po,
                        #[trigger] parents_of(s_fin, x as int)[k],
                    ) by {
                        let p = parents_of(s1, c)[k];
                        assert(parents_of(s_fin, x as int)[k] == p);
                        assert(po.contains(p));
                        let j = choose|j: int| 0 <= j < po.len() && po[j] == p;
                        assert(gitlink_at(s1, po[i] as int, dir) is None);
                        assert(gitlink_at(s1, p as int, dir) is None);
                        assert(parent_commit_rewritten(
                            s1,
                            s_fin,
                            m_fin,
                            subm,
                            pairs,
                            default,
                            po[j] as int,
                            dir,
                        ));
                        assert(m_fin[po[j] as int] == Some(p));
                    }
                }
                Some(g) => {
                    let n = m_fin[c]->Some_0;
                    assert(x == n);
                    assert(is_commit_at(s_fin, n as int));
                    let nc = commit_at(s_fin, n as int);
                    let oc = commit_at(s1, c);
                    assert(entry_at_path(s_fin, nc.tree as int, dir) matches Some(e2) && e2.mode
                        == MODE_TREE);
                    let rsub = resolve_gitlink(subm, pairs, default, g)->Some_0;
                    assert(sub_image_ok(s1, rsub as int, dir));
                    // The resolved image is a submodule commit image: its
                    // map key is a walked commit, not a relocated tree,
                    // because relocated trees are trees, not commits.
                    assert(in_image_set(m_fin, subm, so, po, rsub)) by {
                        let key = match crate::maps::mappings_lookup(pairs, g) {
                            Some(v) => v,
                            None => g,
                        };
                        let key2: usize = if map_lookup(subm, key) is Some {
                            key
                        } else {
                            default->Some_0
                        };
                        assert(map_lookup(subm, key2) == Some(rsub));
                        assert(subm[key2 as int] == Some(rsub));
                        if is_tree_at(s0, key2 as int) {
                            assert(is_tree_at(s_fin, rsub as int));
                            assert(is_commit_at(s1, rsub as int));
                            assert(s_fin[rsub as int] == s1.subrange(
                                0,
                                s1.len() as int,
                            )[rsub as int]);
                            assert(false);
                        }
                        assert(so.contains(key2));
                        let j = choose|j: int| 0 <= j < so.len() && so[j] == key2;
                        assert(subm[so[j] as int] == Some(rsub));
                    }
                    assert forall|k: int|
                        0 <= k < parents_of(s_fin, x as int).len() implies in_image_set(
                        m_fin,
                        subm,
                        so,
                        po,
                        #[trigger] parents_of(s_fin, x as int)[k],
                    ) by {
                        if k < oc.parents@.len() {
                            let p = oc.parents@[k];
                            assert(m_fin[p as int] == Some(nc.parents@[k]));
                            assert(parents_of(s1, c)[k] == p);
                            assert(po.contains(p));
                            let j = choose|j: int| 0 <= j < po.len() && po[j] == p;
                            assert(m_fin[po[j] as int] == Some(nc.parents@[k]));
                        } else {
                            assert(nc.parents@[k] == nc.parents@.last());
                            assert(nc.parents@.last() == rsub);
                        }
                    }
                }
            }
        } else {
            let i = choose|i: int| 0 <= i < so.len() && #[trigger] subm[so[i] as int] == Some(x);
            let c = so[i] as int;
            assert(sub_commit_rewritten(s0, s_fin, subm, c, dir));
            let n = subm[c]->Some_0;
            assert(x == n);
            assert(is_commit_at(s_fin, n as int));
            let nc = commit_at(s_fin, n as int);
            let oc = commit_at(s0, c);
            assert(prefix_chain_ok(s_fin, nc.tree as int, dir, oc.tree));
            lemma_prefix_chain_at_path(s_fin, nc.tree as int, dir, oc.tree);
            assert forall|k: int|
                0 <= k < parents_of(s_fin, x as int).len() implies in_image_set(
                m_fin,
                subm,
                so,
                po,
                #[trigger] parents_of(s_fin, x as int)[k],
            ) by {
                let p = oc.parents@[k];
                assert(subm[p as int] == Some(nc.parents@[k]));
                assert(parents_of(s0, c)[k] == p);
                assert(so.contains(p));
                let j = choose|j: int| 0 <= j < so.len() && so[j] == p;
                assert(subm[so[j] as int] == Some(nc.parents@[k]));
            }
        }
    }
}

/// Every retargeted branch tip belongs to the rewritten history's image
/// set; together with the closure lemma, everything reachable from the new
/// tips is free of the gitlink.
pub proof fn lemma_new_tips_in_images(
    s1: Seq<Object>,
    s_fin: Seq<Object>,
    m_fin: Seq<Option<usize>>,
    subm: Seq<Option<usize>>,
    so: Seq<usize>,
    po: Seq<usize>,
    pairs: Seq<(usize, usize)>,
    default: Option<usize>,
    dir: Seq<Seq<u8>>,
    tips: Seq<usize>,
    new_tips: Seq<usize>,
)
    requires
        walk_ok(s1, tips, po),
        forall|i: int| 0 <= i < tips.len() ==> is_commit_at(s1, #[trigger] tips[i] as int),
        new_tips.len() == tips.len(),
        forall|i: int|
            0 <= i < tips.len() ==> map_lookup(m_fin, #[trigger] tips[i]) == Some(new_tips[i]),
        forall|i: int|
            0 <= i < po.len() ==> parent_commit_rewritten(
                s1,
                s_fin,
                m_fin,
                subm,
                pairs,
                default,
                #[trigger] po[i] as int,
                dir,
            ),
    ensures
        forall|i: int|
            0 <= i < new_tips.len() ==> in_image_set(m_fin, subm, so, po, #[trigger] new_tips[i]),
{
    assert forall|i: int| 0 <= i < new_tips.len() implies in_image_set(
        m_fin,
        subm,
        so,
        po,
        #[trigger] new_tips[i],
    ) by {
        let t = tips[i];
        assert(po.contains(t));
        let j = choose|j: int| 0 <= j < po.len() && po[j] == t;
        assert(parent_commit_rewritten(s1, s_fin, m_fin, subm, pairs, default, po[j] as int, dir));
        assert(0 <= t < m_fin.len());
        assert(m_fin[po[j] as int] == Some(new_tips[i]));
    }
}

} // verus!

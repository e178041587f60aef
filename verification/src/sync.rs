//! The two reconciliation engines and the laws they obey.
//!
//! Pairwise reconciliation works from each side's own add/delete intent when
//! no common ancestor is recorded; three-way reconciliation works from the
//! effective sets of two replicas that both diverged from a shared ancestor.
//! Engines never mutate their inputs; results own their entry sets.

use crate::loaddata::{effective, Dict, DictView};
use crate::words::{WordSet, WordView};
use vstd::prelude::*;

verus! {

/// The edit to apply to one replica so that both sides converge.
pub struct SyncResult {
    pub to_insert: WordSet,
    pub to_delete: WordSet,
}

/// One replica's net change against a common ancestor.
pub struct Changes {
    pub added: WordSet,
    pub deleted: WordSet,
}

/// Entries that pairwise reconciliation sends from `src` for insertion into
/// `dst`: entries `src`'s user added beyond `src`'s own base that are unknown
/// to `dst` in any form.  An entry `src` both added and deleted is not sent:
/// the deletion takes precedence.
pub open spec fn outbound_inserts(src: DictView, dst: DictView) -> Set<WordView> {
    src.user_new.difference(src.main).difference(src.user_deleted).difference(
        dst.main,
    ).difference(dst.user_new).difference(dst.user_deleted)
}

/// Entries that pairwise reconciliation sends from `src` for deletion on
/// `dst`: entries `src`'s user removed that `dst` still shows and has not
/// itself removed.
pub open spec fn outbound_deletes(src: DictView, dst: DictView) -> Set<WordView> {
    src.user_deleted.difference(dst.user_deleted).intersect(dst.main.union(dst.user_new))
}

/// Both edits of a pairwise reconciliation: first the edit for `a`, then the
/// edit for `b`.
pub open spec fn spec_reconcile_pairwise(a: DictView, b: DictView) -> (
    (Set<WordView>, Set<WordView>),
    (Set<WordView>, Set<WordView>),
) {
    (
        (outbound_inserts(b, a), outbound_deletes(b, a)),
        (outbound_inserts(a, b), outbound_deletes(a, b)),
    )
}

/// Direct two-replica reconciliation, without a common ancestor.  Returns the
/// edit for `a` and the edit for `b`.
pub fn reconcile_pairwise(a: &Dict, b: &Dict) -> (r: (SyncResult, SyncResult))
    ensures
        r.0.to_insert@ == outbound_inserts(b@, a@),
        r.0.to_delete@ == outbound_deletes(b@, a@),
        r.1.to_insert@ == outbound_inserts(a@, b@),
        r.1.to_delete@ == outbound_deletes(a@, b@),
        (r.0.to_insert@, r.0.to_delete@) == spec_reconcile_pairwise(a@, b@).0,
        (r.1.to_insert@, r.1.to_delete@) == spec_reconcile_pairwise(a@, b@).1,
{
    let a_visible = a.main.union(&a.user_new);
    let b_visible = b.main.union(&b.user_new);
    let for_a = SyncResult {
        to_insert: b.user_new.difference(&b.main).difference(&b.user_deleted).difference(
            &a.main,
        ).difference(&a.user_new).difference(&a.user_deleted),
        to_delete: b.user_deleted.difference(&a.user_deleted).intersect(&a_visible),
    };
    let for_b = SyncResult {
        to_insert: a.user_new.difference(&a.main).difference(&a.user_deleted).difference(
            &b.main,
        ).difference(&b.user_new).difference(&b.user_deleted),
        to_delete: a.user_deleted.difference(&b.user_deleted).intersect(&b_visible),
    };
    (for_a, for_b)
}

/// The net change of a replica whose visible entries are `side_all` against
/// an ancestor whose visible entries are `base_all`.
pub fn compare_dict(base_all: &WordSet, side_all: &WordSet) -> (r: Changes)
    ensures
        r.added@ == side_all@.difference(base_all@),
        r.deleted@ == base_all@.difference(side_all@),
{
    Changes {
        added: side_all.difference(base_all),
        deleted: base_all.difference(side_all),
    }
}

/// Entries that three-way reconciliation sends for insertion into the replica
/// whose visible entries are `to_all`: entries the other side added since the
/// ancestor that the receiver does not already show.
pub open spec fn three_way_inserts(
    base_all: Set<WordView>,
    from_all: Set<WordView>,
    to_all: Set<WordView>,
) -> Set<WordView> {
    from_all.difference(base_all).difference(to_all)
}

/// Entries that three-way reconciliation sends for deletion on the replica
/// whose visible entries are `to_all`: entries the other side removed since
/// the ancestor that the receiver still shows.
pub open spec fn three_way_deletes(
    base_all: Set<WordView>,
    from_all: Set<WordView>,
    to_all: Set<WordView>,
) -> Set<WordView> {
    base_all.difference(from_all).intersect(to_all)
}

/// Both edits of a three-way reconciliation: first the edit for `a`, then the
/// edit for `b`.
pub open spec fn spec_reconcile_three_way(base: DictView, a: DictView, b: DictView) -> (
    (Set<WordView>, Set<WordView>),
    (Set<WordView>, Set<WordView>),
) {
    (
        (
            three_way_inserts(effective(base), effective(b), effective(a)),
            three_way_deletes(effective(base), effective(b), effective(a)),
        ),
        (
            three_way_inserts(effective(base), effective(a), effective(b)),
            three_way_deletes(effective(base), effective(a), effective(b)),
        ),
    )
}

/// Reconciliation of two replicas that share a recorded ancestor.  Returns
/// the edit for `a` and the edit for `b`.
pub fn reconcile_three_way(base: &Dict, a: &Dict, b: &Dict) -> (r: (SyncResult, SyncResult))
    ensures
        r.0.to_insert@ == three_way_inserts(effective(base@), effective(b@), effective(a@)),
        r.0.to_delete@ == three_way_deletes(effective(base@), effective(b@), effective(a@)),
        r.1.to_insert@ == three_way_inserts(effective(base@), effective(a@), effective(b@)),
        r.1.to_delete@ == three_way_deletes(effective(base@), effective(a@), effective(b@)),
        (r.0.to_insert@, r.0.to_delete@) == spec_reconcile_three_way(base@, a@, b@).0,
        (r.1.to_insert@, r.1.to_delete@) == spec_reconcile_three_way(base@, a@, b@).1,
{
    let base_all = base.all_words();
    let a_all = a.all_words();
    let b_all = b.all_words();
    let a_change = compare_dict(&base_all, &a_all);
    let b_change = compare_dict(&base_all, &b_all);
    let for_a = SyncResult {
        to_insert: b_change.added.difference(&a_all),
        to_delete: b_change.deleted.intersect(&a_all),
    };
    let for_b = SyncResult {
        to_insert: a_change.added.difference(&b_all),
        to_delete: a_change.deleted.intersect(&b_all),
    };
    (for_a, for_b)
}

/// The state of a replica after its edit has been performed: inserted entries
/// become visible additions, deleted entries become tombstones.
pub open spec fn apply_to_replica(
    d: DictView,
    ins: Set<WordView>,
    del: Set<WordView>,
) -> DictView {
    DictView {
        main: d.main,
        user_new: d.user_new.difference(del).union(ins),
        user_deleted: d.user_deleted.difference(ins).union(del),
    }
}

/// Performs an edit on a replica snapshot.
pub fn apply_sync_result(d: &Dict, r: &SyncResult) -> (out: Dict)
    ensures
        out@ == apply_to_replica(d@, r.to_insert@, r.to_delete@),
{
    Dict {
        main: d.main.clone(),
        user_new: d.user_new.difference(&r.to_delete).union(&r.to_insert),
        user_deleted: d.user_deleted.difference(&r.to_insert).union(&r.to_delete),
    }
}

/// Performing an edit turns a replica's visible set into (visible ∪ inserted)
/// \ deleted.
pub proof fn lemma_effective_apply(d: DictView, ins: Set<WordView>, del: Set<WordView>)
    ensures
        effective(apply_to_replica(d, ins, del)) == effective(d).union(ins).difference(del),
{
    assert(effective(apply_to_replica(d, ins, del)) =~= effective(d).union(ins).difference(del));
}

/// Reconciling (A, B) and reconciling (B, A) produce the same two edits, with
/// the roles of the replicas exchanged.
pub proof fn lemma_pairwise_symmetric(a: DictView, b: DictView)
    ensures
        spec_reconcile_pairwise(a, b).0 == spec_reconcile_pairwise(b, a).1,
        spec_reconcile_pairwise(a, b).1 == spec_reconcile_pairwise(b, a).0,
{
}

/// Three-way reconciliation is symmetric in the two replicas as well.
pub proof fn lemma_three_way_symmetric(base: DictView, a: DictView, b: DictView)
    ensures
        spec_reconcile_three_way(base, a, b).0 == spec_reconcile_three_way(base, b, a).1,
        spec_reconcile_three_way(base, a, b).1 == spec_reconcile_three_way(base, b, a).0,
{
}

/// Replicas with identical base, added and deleted sets reconcile to two
/// empty edits.
pub proof fn lemma_pairwise_identical_no_op(a: DictView, b: DictView)
    requires
        a.main == b.main,
        a.user_new == b.user_new,
        a.user_deleted == b.user_deleted,
    ensures
        outbound_inserts(a, b).is_empty(),
        outbound_inserts(b, a).is_empty(),
        outbound_deletes(a, b).is_empty(),
        outbound_deletes(b, a).is_empty(),
{
    assert(outbound_inserts(a, b) =~= Set::<WordView>::empty());
    assert(outbound_inserts(b, a) =~= Set::<WordView>::empty());
    assert(outbound_deletes(a, b) =~= Set::<WordView>::empty());
    assert(outbound_deletes(b, a) =~= Set::<WordView>::empty());
}

/// Three-way reconciliation of identical replicas is a no-op as well,
/// whatever the ancestor holds.
pub proof fn lemma_three_way_identical_no_op(base: DictView, a: DictView, b: DictView)
    requires
        a.main == b.main,
        a.user_new == b.user_new,
        a.user_deleted == b.user_deleted,
    ensures
        spec_reconcile_three_way(base, a, b).0.0.is_empty(),
        spec_reconcile_three_way(base, a, b).0.1.is_empty(),
        spec_reconcile_three_way(base, a, b).1.0.is_empty(),
        spec_reconcile_three_way(base, a, b).1.1.is_empty(),
{
    assert(effective(a) =~= effective(b));
    assert(three_way_inserts(effective(base), effective(b), effective(a)) =~= Set::<
        WordView,
    >::empty());
    assert(three_way_deletes(effective(base), effective(b), effective(a)) =~= Set::<
        WordView,
    >::empty());
    assert(three_way_inserts(effective(base), effective(a), effective(b)) =~= Set::<
        WordView,
    >::empty());
    assert(three_way_deletes(effective(base), effective(a), effective(b)) =~= Set::<
        WordView,
    >::empty());
}

/// Tombstone precedence: an entry added on A but deleted on B is never
/// inserted into B.
pub proof fn lemma_tombstone_precedence(a: DictView, b: DictView, w: WordView)
    requires
        a.user_new.contains(w),
        b.user_deleted.contains(w),
    ensures
        !spec_reconcile_pairwise(a, b).1.0.contains(w),
{
}

/// Applying the pairwise edits to both replicas and reconciling again yields
/// two empty edits.
pub proof fn lemma_pairwise_idempotent(a: DictView, b: DictView)
    ensures
        ({
            let a2 = apply_to_replica(a, outbound_inserts(b, a), outbound_deletes(b, a));
            let b2 = apply_to_replica(b, outbound_inserts(a, b), outbound_deletes(a, b));
            &&& outbound_inserts(a2, b2).is_empty()
            &&& outbound_inserts(b2, a2).is_empty()
            &&& outbound_deletes(a2, b2).is_empty()
            &&& outbound_deletes(b2, a2).is_empty()
        }),
{
    let a2 = apply_to_replica(a, outbound_inserts(b, a), outbound_deletes(b, a));
    let b2 = apply_to_replica(b, outbound_inserts(a, b), outbound_deletes(a, b));
    assert(outbound_inserts(a2, b2) =~= Set::<WordView>::empty());
    assert(outbound_inserts(b2, a2) =~= Set::<WordView>::empty());
    assert(outbound_deletes(a2, b2) =~= Set::<WordView>::empty());
    assert(outbound_deletes(b2, a2) =~= Set::<WordView>::empty());
}

/// After a three-way reconciliation's edits are applied, the two replicas
/// show the same visible entries.
pub proof fn lemma_three_way_converges(base: DictView, a: DictView, b: DictView)
    ensures
        ({
            let r = spec_reconcile_three_way(base, a, b);
            let a2 = apply_to_replica(a, r.0.0, r.0.1);
            let b2 = apply_to_replica(b, r.1.0, r.1.1);
            effective(a2) == effective(b2)
        }),
{
    let r = spec_reconcile_three_way(base, a, b);
    let a2 = apply_to_replica(a, r.0.0, r.0.1);
    let b2 = apply_to_replica(b, r.1.0, r.1.1);
    lemma_effective_apply(a, r.0.0, r.0.1);
    lemma_effective_apply(b, r.1.0, r.1.1);
    assert(effective(a2) =~= effective(b2));
}

/// Applying the three-way edits to both replicas and reconciling against the
/// same ancestor again yields two empty edits.
pub proof fn lemma_three_way_idempotent(base: DictView, a: DictView, b: DictView)
    ensures
        ({
            let r = spec_reconcile_three_way(base, a, b);
            let a2 = apply_to_replica(a, r.0.0, r.0.1);
            let b2 = apply_to_replica(b, r.1.0, r.1.1);
            let r2 = spec_reconcile_three_way(base, a2, b2);
            &&& r2.0.0.is_empty()
            &&& r2.0.1.is_empty()
            &&& r2.1.0.is_empty()
            &&& r2.1.1.is_empty()
        }),
{
    let r = spec_reconcile_three_way(base, a, b);
    let a2 = apply_to_replica(a, r.0.0, r.0.1);
    let b2 = apply_to_replica(b, r.1.0, r.1.1);
    lemma_effective_apply(a, r.0.0, r.0.1);
    lemma_effective_apply(b, r.1.0, r.1.1);
    let r2 = spec_reconcile_three_way(base, a2, b2);
    assert(r2.0.0 =~= Set::<WordView>::empty());
    assert(r2.0.1 =~= Set::<WordView>::empty());
    assert(r2.1.0 =~= Set::<WordView>::empty());
    assert(r2.1.1 =~= Set::<WordView>::empty());
}

} // verus!

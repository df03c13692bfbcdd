use vstd::prelude::*;
use crate::cascade::{cascade_ids_ok, id_listed, remove_listed, lemma_remove_listed_membership};
use crate::display::{display_ok, parent_link, entries_valid};
use crate::tasks::{
    Task, Filter, SortCriterion, Date, task_is_root, has_parent_id, ids_distinct, is_descendant,
    descends_within,
};

verus! {

// ---------------------------------------------------------------------------
// The promises of the display list and of the cascade, stated on their own.
// Each is proved from the contracts of the functions it speaks about, so a
// reader can check the guarantee without retracing those contracts.
// ---------------------------------------------------------------------------

/// Depth first means parents first: in any display list the rebuild
/// produces, a task's parent stands at a strictly earlier position.
pub proof fn lemma_parent_before_child(
    tasks: Seq<Task>,
    d: Seq<usize>,
    f: Filter,
    c: SortCriterion,
    today: Date,
    j: int,
    k: int,
)
    requires
        ids_distinct(tasks),
        display_ok(tasks, d, f, c, today),
        0 <= j < d.len(),
        0 <= k < d.len(),
        has_parent_id(tasks[d[k] as int], tasks[d[j] as int].id@),
    ensures
        j < k,
{
    assert(!task_is_root(tasks[d[k] as int]));
    let j0 = choose|j0: int| 0 <= j0 < k && #[trigger] parent_link(tasks, d, j0, k);
    assert(tasks[d[j0] as int].id@ == tasks[d[j] as int].id@);
    if d[j0] != d[j] {
        let a = d[j0] as int;
        let b = d[j] as int;
        if a < b {
            assert(tasks[a].id@ != tasks[b].id@);
        } else {
            assert(tasks[b].id@ != tasks[a].id@);
        }
    }
    assert(d[j0] == d[j]);
    if j0 != j {
        assert(d[j0] != d[j]);
    }
}

/// The depth-first invariant in full: a displayed parent stands strictly
/// before its displayed child, and everything between the two descends
/// from the parent — no other branch interleaves before the child's
/// subtree is reached.
pub proof fn lemma_depth_first_invariant(
    tasks: Seq<Task>,
    d: Seq<usize>,
    f: Filter,
    c: SortCriterion,
    today: Date,
    j: int,
    k: int,
)
    requires
        ids_distinct(tasks),
        display_ok(tasks, d, f, c, today),
        0 <= j < d.len(),
        0 <= k < d.len(),
        has_parent_id(tasks[d[k] as int], tasks[d[j] as int].id@),
    ensures
        j < k,
        forall|b: int|
            j < b < k ==> is_descendant(tasks, (#[trigger] d[b]) as int, tasks[d[j] as int].id@),
{
    lemma_parent_before_child(tasks, d, f, c, today, j, k);
}

/// A task whose parent identity no store task carries never appears in a
/// display list: orphans are silently dropped, not shown and not faulted.
pub proof fn lemma_orphan_excluded(
    tasks: Seq<Task>,
    d: Seq<usize>,
    f: Filter,
    c: SortCriterion,
    today: Date,
    t: int,
)
    requires
        tasks.len() <= usize::MAX,
        display_ok(tasks, d, f, c, today),
        0 <= t < tasks.len(),
        tasks[t].parent_id is Some,
        forall|j: int| 0 <= j < tasks.len() ==> (#[trigger] tasks[j]).id@ != tasks[t].parent_id->0@,
    ensures
        !d.contains(t as usize),
{
    if d.contains(t as usize) {
        let k = choose|k: int| 0 <= k < d.len() && d[k] == t as usize;
        assert((t as usize) as int == t);
        assert(d[k] as int == t);
        assert(!task_is_root(tasks[d[k] as int]));
        let j0 = choose|j0: int| 0 <= j0 < k && #[trigger] parent_link(tasks, d, j0, k);
        assert(tasks[d[j0] as int].id@ == tasks[t].parent_id->0@);
        assert(false);
    }
}

/// Filter containment: under a project filter every displayed root belongs
/// to that project, and the unfiltered list shows every root the filtered
/// one shows — dropping the filter only ever widens the set of roots.
pub proof fn lemma_project_filter_containment(
    tasks: Seq<Task>,
    d_proj: Seq<usize>,
    d_all: Seq<usize>,
    fp: Filter,
    c1: SortCriterion,
    c2: SortCriterion,
    t1: Date,
    t2: Date,
    q: int,
)
    requires
        fp is ProjectId,
        display_ok(tasks, d_proj, fp, c1, t1),
        display_ok(tasks, d_all, Filter::All, c2, t2),
        0 <= q < d_proj.len(),
        task_is_root(tasks[d_proj[q] as int]),
    ensures
        tasks[d_proj[q] as int].project_id@ == fp->ProjectId_0@,
        d_all.contains(d_proj[q]),
{
    let t = d_proj[q] as int;
    assert(d_proj.contains(d_proj[q])) by {
        assert(d_proj[q] == d_proj[q]);
    }
    assert(crate::tasks::root_matches(tasks[t], fp, t1));
    assert(crate::tasks::root_matches(tasks[t], Filter::All, t2));
}

/// Sort stability: under the priority criterion, displayed roots come in
/// ascending priority, and two roots of equal priority keep their relative
/// store order.
pub proof fn lemma_priority_sort_stable(
    tasks: Seq<Task>,
    d: Seq<usize>,
    f: Filter,
    today: Date,
    i: int,
    j: int,
)
    requires
        display_ok(tasks, d, f, SortCriterion::Priority, today),
        0 <= i < j < d.len(),
        task_is_root(tasks[d[i] as int]),
        task_is_root(tasks[d[j] as int]),
    ensures
        tasks[d[i] as int].priority <= tasks[d[j] as int].priority,
        tasks[d[i] as int].priority == tasks[d[j] as int].priority ==> d[i] < d[j],
{
    assert(crate::display::root_lt(tasks, SortCriterion::Priority, d[i], d[j]));
}

/// Every entry of one valid display list appears in any other valid
/// display list over the same store, filter and date — membership does not
/// even depend on the sort criterion.
proof fn lemma_display_member(
    tasks: Seq<Task>,
    d1: Seq<usize>,
    d2: Seq<usize>,
    f: Filter,
    c1: SortCriterion,
    c2: SortCriterion,
    today: Date,
    k: int,
)
    requires
        ids_distinct(tasks),
        display_ok(tasks, d1, f, c1, today),
        display_ok(tasks, d2, f, c2, today),
        0 <= k < d1.len(),
    ensures
        d2.contains(d1[k]),
    decreases k,
{
    let x = d1[k];
    if task_is_root(tasks[x as int]) {
        assert(d1.contains(x)) by {
            assert(d1[k] == x);
        }
        assert(crate::tasks::root_matches(tasks[x as int], f, today));
    } else {
        let j = choose|j: int| 0 <= j < k && #[trigger] parent_link(tasks, d1, j, k);
        lemma_display_member(tasks, d1, d2, f, c1, c2, today, j);
        let w = choose|w: int| 0 <= w < d2.len() && d2[w] == d1[j];
        assert(has_parent_id(tasks[x as int], tasks[d2[w] as int].id@));
    }
}

/// The position of a displayed task is unique: the same store index never
/// stands at two positions, so "the" position is well defined.
proof fn lemma_position_unique(d: Seq<usize>, p1: int, p2: int)
    requires
        d.no_duplicates(),
        0 <= p1 < d.len(),
        0 <= p2 < d.len(),
        d[p1] == d[p2],
    ensures
        p1 == p2,
{
    if p1 != p2 {
        assert(d[p1] != d[p2]);
    }
}

/// A displayed descendant always stands after its displayed ancestor: the
/// chain of parent references climbs through strictly earlier positions.
proof fn lemma_descendant_position(
    tasks: Seq<Task>,
    d: Seq<usize>,
    f: Filter,
    c: SortCriterion,
    today: Date,
    j: int,
    k: int,
    fuel: nat,
)
    requires
        ids_distinct(tasks),
        display_ok(tasks, d, f, c, today),
        0 <= j < d.len(),
        0 <= k < d.len(),
        descends_within(tasks, d[k] as int, tasks[d[j] as int].id@, fuel),
    ensures
        j < k,
    decreases fuel,
{
    assert(!task_is_root(tasks[d[k] as int]));
    let j0 = choose|j0: int| 0 <= j0 < k && #[trigger] parent_link(tasks, d, j0, k);
    if tasks[d[k] as int].parent_id->0@ == tasks[d[j] as int].id@ {
        assert(tasks[d[j0] as int].id@ == tasks[d[j] as int].id@);
        lemma_same_store_index(tasks, d[j0] as int, d[j] as int);
        lemma_position_unique(d, j0, j);
    } else {
        let jt = choose|jt: int|
            0 <= jt < tasks.len() && (#[trigger] tasks[jt]).id@ == tasks[d[k] as int].parent_id->0@
                && descends_within(
                tasks,
                jt,
                tasks[d[j] as int].id@,
                (fuel - 1) as nat,
            );
        assert(tasks[d[j0] as int].id@ == tasks[jt].id@);
        lemma_same_store_index(tasks, d[j0] as int, jt);
        lemma_descendant_position(tasks, d, f, c, today, j, j0, (fuel - 1) as nat);
    }
}

/// Two store positions carrying the same identity are the same position.
proof fn lemma_same_store_index(tasks: Seq<Task>, a: int, b: int)
    requires
        ids_distinct(tasks),
        0 <= a < tasks.len(),
        0 <= b < tasks.len(),
        tasks[a].id@ == tasks[b].id@,
    ensures
        a == b,
{
    if a < b {
        assert(tasks[a].id@ != tasks[b].id@);
    }
    if b < a {
        assert(tasks[b].id@ != tasks[a].id@);
    }
}

/// The heart of determinism: two valid display lists that agree up to
/// position `m` also agree at position `m`.
proof fn lemma_display_agree_at(
    tasks: Seq<Task>,
    d1: Seq<usize>,
    d2: Seq<usize>,
    f: Filter,
    c: SortCriterion,
    today: Date,
    m: int,
)
    requires
        ids_distinct(tasks),
        display_ok(tasks, d1, f, c, today),
        display_ok(tasks, d2, f, c, today),
        d1.len() == d2.len(),
        0 <= m < d1.len(),
        forall|q: int| 0 <= q < m ==> d1[q] == d2[q],
    ensures
        d1[m] == d2[m],
{
    let x = d1[m];
    let y = d2[m];
    if x != y {
        lemma_display_member(tasks, d1, d2, f, c, c, today, m);
        let px = choose|px: int| 0 <= px < d2.len() && d2[px] == x;
        assert(m < px) by {
            if px < m {
                assert(d1[px] == x);
                lemma_position_unique(d1, px, m);
            }
        }
        lemma_display_member(tasks, d2, d1, f, c, c, today, m);
        let py = choose|py: int| 0 <= py < d1.len() && d1[py] == y;
        assert(m < py) by {
            if py < m {
                assert(d2[py] == y);
                lemma_position_unique(d2, py, m);
            }
        }
        if task_is_root(tasks[x as int]) && task_is_root(tasks[y as int]) {
            assert(crate::display::root_lt(tasks, c, x, y));
            assert(crate::display::root_lt(tasks, c, y, x));
            assert(false);
        } else if task_is_root(tasks[x as int]) {
            // y hangs below a parent in the shared prefix; by the
            // no-interleaving promise of the first list, x would have to
            // descend from that parent — a root descends from nothing.
            let j2 = choose|j2: int| 0 <= j2 < m && #[trigger] parent_link(tasks, d2, j2, m);
            assert(d1[j2] == d2[j2]);
            assert(has_parent_id(tasks[d1[py] as int], tasks[d1[j2] as int].id@));
            assert(is_descendant(tasks, d1[m] as int, tasks[d1[j2] as int].id@));
            let fuel = choose|fuel: nat|
                descends_within(tasks, x as int, tasks[d1[j2] as int].id@, fuel);
            assert(tasks[x as int].parent_id is Some);
            assert(false);
        } else if task_is_root(tasks[y as int]) {
            let j1 = choose|j1: int| 0 <= j1 < m && #[trigger] parent_link(tasks, d1, j1, m);
            assert(d2[j1] == d1[j1]);
            assert(has_parent_id(tasks[d2[px] as int], tasks[d2[j1] as int].id@));
            assert(is_descendant(tasks, d2[m] as int, tasks[d2[j1] as int].id@));
            let fuel = choose|fuel: nat|
                descends_within(tasks, y as int, tasks[d2[j1] as int].id@, fuel);
            assert(tasks[y as int].parent_id is Some);
            assert(false);
        } else {
            let j1 = choose|j1: int| 0 <= j1 < m && #[trigger] parent_link(tasks, d1, j1, m);
            let j2 = choose|j2: int| 0 <= j2 < m && #[trigger] parent_link(tasks, d2, j2, m);
            assert(d1[j1] == d2[j1]);
            assert(d1[j2] == d2[j2]);
            let pxt = d1[j1];
            let pyt = d2[j2];
            if tasks[pxt as int].id@ == tasks[pyt as int].id@ {
                // Same parent: x and y are siblings, and each list puts
                // the other one later — the sibling order cannot say both.
                assert(crate::display::same_parent(tasks, x, y));
                assert(crate::display::sib_lt(tasks, x, y));
                assert(crate::display::same_parent(tasks, y, x));
                assert(crate::display::sib_lt(tasks, y, x));
                assert(false);
            } else {
                // Different parents: each list traps the other's entry
                // strictly inside the other subtree, which would make each
                // parent a strict descendant of the other — but a
                // descendant always stands after its ancestor.
                assert(has_parent_id(tasks[d1[py] as int], tasks[d1[j2] as int].id@));
                assert(is_descendant(tasks, d1[m] as int, tasks[d1[j2] as int].id@));
                assert(has_parent_id(tasks[d2[px] as int], tasks[d2[j1] as int].id@));
                assert(is_descendant(tasks, d2[m] as int, tasks[d2[j1] as int].id@));
                let fx = choose|fx: nat|
                    descends_within(tasks, x as int, tasks[pyt as int].id@, fx);
                assert(descends_within(tasks, pxt as int, tasks[pyt as int].id@, (fx - 1) as nat))
                    by {
                    if tasks[x as int].parent_id->0@ == tasks[pyt as int].id@ {
                        lemma_same_store_index(tasks, pxt as int, pyt as int);
                        assert(false);
                    } else {
                        let xi = x as int;
                        let jt = choose|jt: int|
                            0 <= jt < tasks.len() && (#[trigger] tasks[jt]).id@
                                == tasks[xi].parent_id->0@ && descends_within(
                                tasks,
                                jt,
                                tasks[pyt as int].id@,
                                (fx - 1) as nat,
                            );
                        lemma_same_store_index(tasks, jt, pxt as int);
                    }
                }
                let fy = choose|fy: nat|
                    descends_within(tasks, y as int, tasks[pxt as int].id@, fy);
                assert(descends_within(tasks, pyt as int, tasks[pxt as int].id@, (fy - 1) as nat))
                    by {
                    if tasks[y as int].parent_id->0@ == tasks[pxt as int].id@ {
                        lemma_same_store_index(tasks, pyt as int, pxt as int);
                        assert(false);
                    } else {
                        let yi = y as int;
                        let jt = choose|jt: int|
                            0 <= jt < tasks.len() && (#[trigger] tasks[jt]).id@
                                == tasks[yi].parent_id->0@ && descends_within(
                                tasks,
                                jt,
                                tasks[pxt as int].id@,
                                (fy - 1) as nat,
                            );
                        lemma_same_store_index(tasks, jt, pyt as int);
                    }
                }
                lemma_descendant_position(
                    tasks,
                    d1,
                    f,
                    c,
                    today,
                    j2,
                    j1,
                    (fx - 1) as nat,
                );
                lemma_descendant_position(
                    tasks,
                    d1,
                    f,
                    c,
                    today,
                    j1,
                    j2,
                    (fy - 1) as nat,
                );
                assert(false);
            }
        }
    }
}

/// Valid display lists that agree on a prefix agree everywhere.
proof fn lemma_display_prefix(
    tasks: Seq<Task>,
    d1: Seq<usize>,
    d2: Seq<usize>,
    f: Filter,
    c: SortCriterion,
    today: Date,
    m: int,
)
    requires
        ids_distinct(tasks),
        display_ok(tasks, d1, f, c, today),
        display_ok(tasks, d2, f, c, today),
        d1.len() == d2.len(),
        0 <= m <= d1.len(),
        forall|q: int| 0 <= q < m ==> d1[q] == d2[q],
    ensures
        forall|q: int| 0 <= q < d1.len() ==> d1[q] == d2[q],
    decreases d1.len() - m,
{
    if m < d1.len() {
        lemma_display_agree_at(tasks, d1, d2, f, c, today, m);
        lemma_display_prefix(tasks, d1, d2, f, c, today, m + 1);
    }
}

/// Determinism: the rebuild's promises pin the display list down
/// completely. Any two lists that satisfy them for the same store, filter,
/// criterion and date are one and the same list.
pub proof fn lemma_display_determined(
    tasks: Seq<Task>,
    d1: Seq<usize>,
    d2: Seq<usize>,
    f: Filter,
    c: SortCriterion,
    today: Date,
)
    requires
        ids_distinct(tasks),
        display_ok(tasks, d1, f, c, today),
        display_ok(tasks, d2, f, c, today),
    ensures
        d1 == d2,
{
    broadcast use vstd::set::group_set_axioms;

    assert(d1.to_set() =~= d2.to_set()) by {
        broadcast use vstd::seq_lib::group_seq_properties;

        assert forall|x: usize| d1.to_set().contains(x) implies d2.to_set().contains(x) by {
            assert(d1.contains(x));
            let k = choose|k: int| 0 <= k < d1.len() && d1[k] == x;
            lemma_display_member(tasks, d1, d2, f, c, c, today, k);
        }
        assert forall|x: usize| d2.to_set().contains(x) implies d1.to_set().contains(x) by {
            assert(d2.contains(x));
            let k = choose|k: int| 0 <= k < d2.len() && d2[k] == x;
            lemma_display_member(tasks, d2, d1, f, c, c, today, k);
        }
    }
    d1.unique_seq_to_set();
    d2.unique_seq_to_set();
    assert(d1.len() == d2.len());
    lemma_display_prefix(tasks, d1, d2, f, c, today, 0);
    assert(d1 =~= d2);
}

/// Cascade completeness, first half: every task that survives a cascade is
/// a task of the old store, and carries neither the removed root's
/// identity nor any descendant's identity.
pub proof fn lemma_cascade_removes_all(
    tasks: Seq<Task>,
    removal: Seq<String>,
    root: Seq<char>,
    k: int,
)
    requires
        cascade_ids_ok(tasks, removal, root),
        0 <= k < remove_listed(tasks, removal).len(),
    ensures
        tasks.contains(remove_listed(tasks, removal)[k]),
        remove_listed(tasks, removal)[k].id@ != root,
        forall|i: int|
            0 <= i < tasks.len() && #[trigger] is_descendant(tasks, i, root) ==> remove_listed(
                tasks,
                removal,
            )[k].id@ != tasks[i].id@,
{
    lemma_remove_listed_membership(tasks, removal);
    let kept = remove_listed(tasks, removal)[k];
    assert(!id_listed(removal, kept.id@));
    assert(kept.id@ != root) by {
        if kept.id@ == root {
            assert(removal[0]@ == kept.id@);
        }
    }
    assert forall|i: int|
        0 <= i < tasks.len() && #[trigger] is_descendant(tasks, i, root) implies kept.id@
        != tasks[i].id@ by {
        assert(id_listed(removal, tasks[i].id@));
        if kept.id@ == tasks[i].id@ {
            let w = choose|w: int| 0 <= w < removal.len() && (#[trigger] removal[w])@
                == tasks[i].id@;
            assert(removal[w]@ == kept.id@);
        }
    }
}

/// Cascade completeness, second half: a cascade removes nothing else —
/// every task that is neither the root nor one of its descendants
/// survives, unchanged.
pub proof fn lemma_cascade_keeps_rest(
    tasks: Seq<Task>,
    removal: Seq<String>,
    root: Seq<char>,
    i: int,
)
    requires
        ids_distinct(tasks),
        cascade_ids_ok(tasks, removal, root),
        0 <= i < tasks.len(),
        tasks[i].id@ != root,
        !is_descendant(tasks, i, root),
    ensures
        remove_listed(tasks, removal).contains(tasks[i]),
{
    lemma_remove_listed_membership(tasks, removal);
    assert(!id_listed(removal, tasks[i].id@)) by {
        if id_listed(removal, tasks[i].id@) {
            let w = choose|w: int| 0 <= w < removal.len() && (#[trigger] removal[w])@
                == tasks[i].id@;
            assert(w != 0);
            let t = choose|t: int|
                0 <= t < tasks.len() && tasks[t].id@ == (#[trigger] removal[w])@ && is_descendant(
                    tasks,
                    t,
                    root,
                );
            assert(t == i) by {
                if t < i {
                    assert(tasks[t].id@ != tasks[i].id@);
                }
                if i < t {
                    assert(tasks[i].id@ != tasks[t].id@);
                }
            }
            assert(false);
        }
    }
}

} // verus!

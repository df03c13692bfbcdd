use vstd::prelude::*;
use crate::clock::today_local;
use crate::display::{
    display_ok, entries_valid, rebuild_display, find_id_position, lemma_display_id_unique,
    lemma_distinct_in_range_bound,
};
use crate::selection::SelectionState;
use crate::tasks::{
    Task, Tasks, SortCriterion, Date, has_parent_id, ids_distinct, parent_is, display_has_id,
    descends_within, is_descendant,
};

verus! {

/// The parent graph has no cycle: no task lies strictly below its own
/// identity. The remote service is assumed to uphold this of the tasks it
/// hands out; resolving a descendant set assumes it.
pub open spec fn parent_acyclic(tasks: Seq<Task>) -> bool {
    forall|i: int| 0 <= i < tasks.len() ==> !is_descendant(tasks, i, (#[trigger] tasks[i]).id@)
}

/// Some entry of `ids` carries the identity `id`.
pub open spec fn id_listed(ids: Seq<String>, id: Seq<char>) -> bool {
    exists|w: int| 0 <= w < ids.len() && (#[trigger] ids[w])@ == id
}

/// No identity appears twice in `ids`.
pub open spec fn ids_unique(ids: Seq<String>) -> bool {
    forall|w1: int, w2: int|
        0 <= w1 < w2 < ids.len() ==> (#[trigger] ids[w1])@ != (#[trigger] ids[w2])@
}

/// Every task whose parent identity stands among the first `k` entries of
/// `ids` has its own identity listed too.
pub open spec fn ids_closed_upto(tasks: Seq<Task>, ids: Seq<String>, k: int) -> bool {
    forall|w: int, c: int|
        0 <= w < k && 0 <= c < tasks.len() && has_parent_id(
            #[trigger] tasks[c],
            (#[trigger] ids[w])@,
        ) ==> id_listed(ids, tasks[c].id@)
}

/// Every entry past the first is the identity of a store task strictly
/// below the root.
pub open spec fn listed_are_descendants(tasks: Seq<Task>, ids: Seq<String>, root: Seq<char>) -> bool {
    forall|w: int|
        1 <= w < ids.len() ==> exists|i: int|
            0 <= i < tasks.len() && tasks[i].id@ == (#[trigger] ids[w])@ && is_descendant(
                tasks,
                i,
                root,
            )
}

/// Every entry past the first carries a task whose parent identity stands
/// earlier in the list: a parent always precedes its own children.
pub open spec fn listed_parent_before(tasks: Seq<Task>, ids: Seq<String>) -> bool {
    forall|w: int|
        1 <= w < ids.len() ==> exists|v: int, i: int|
            0 <= v < w && 0 <= i < tasks.len() && tasks[i].id@ == (#[trigger] ids[w])@
                && tasks[i].parent_id is Some && tasks[i].parent_id->0@ == ids[v]@
}

/// The full removal list of a cascade rooted at `root`: the root identity
/// first, then exactly the identities of its strict descendants.
pub open spec fn cascade_ids_ok(tasks: Seq<Task>, removal: Seq<String>, root: Seq<char>) -> bool {
    &&& removal.len() >= 1
    &&& removal[0]@ == root
    &&& ids_unique(removal)
    &&& listed_are_descendants(tasks, removal, root)
    &&& listed_parent_before(tasks, removal)
    &&& forall|i: int|
        0 <= i < tasks.len() && #[trigger] is_descendant(tasks, i, root) ==> id_listed(
            removal,
            tasks[i].id@,
        )
}

/// Some store task carries the identity `id`.
pub open spec fn some_task_has_id(tasks: Seq<Task>, id: Seq<char>) -> bool {
    exists|i: int| 0 <= i < tasks.len() && (#[trigger] tasks[i]).id@ == id
}

/// A list whose entries past the first are identities of store tasks, all
/// different, holds at most one entry more than the store has tasks.
proof fn lemma_unique_ids_bound(tasks: Seq<Task>, ids: Seq<String>)
    requires
        ids_unique(ids),
        forall|w: int| 1 <= w < ids.len() ==> some_task_has_id(tasks, (#[trigger] ids[w])@),
    ensures
        ids.len() <= tasks.len() + 1,
{
    if ids.len() >= 2 {
        let f = |w: int|
            choose|i: int| 0 <= i < tasks.len() && (#[trigger] tasks[i]).id@ == ids[w + 1]@;
        let s = Seq::new((ids.len() - 1) as nat, f);
        assert forall|k: int| 0 <= k < s.len() implies 0 <= #[trigger] s[k] < tasks.len() by {
            assert(some_task_has_id(tasks, ids[k + 1]@));
        }
        assert(s.no_duplicates()) by {
            assert forall|k1: int, k2: int| 0 <= k1 < k2 < s.len() implies s[k1] != s[k2] by {
                assert(some_task_has_id(tasks, ids[k1 + 1]@));
                assert(some_task_has_id(tasks, ids[k2 + 1]@));
                assert(tasks[s[k1]].id@ == ids[k1 + 1]@);
                assert(tasks[s[k2]].id@ == ids[k2 + 1]@);
                assert(ids[k1 + 1]@ != ids[k2 + 1]@);
            }
        }
        lemma_distinct_in_range_bound(s, tasks.len() as int);
    }
}

/// Every task with a parent chain into a closed, root-containing list is
/// itself listed: the closure really is complete.
proof fn lemma_cascade_complete(
    tasks: Seq<Task>,
    ids: Seq<String>,
    root: Seq<char>,
    i: int,
    fuel: nat,
)
    requires
        ids_closed_upto(tasks, ids, ids.len() as int),
        id_listed(ids, root),
        0 <= i < tasks.len(),
        descends_within(tasks, i, root, fuel),
    ensures
        id_listed(ids, tasks[i].id@),
    decreases fuel,
{
    if tasks[i].parent_id->0@ == root {
        let w = choose|w: int| 0 <= w < ids.len() && (#[trigger] ids[w])@ == root;
        assert(has_parent_id(tasks[i], ids[w]@));
    } else {
        let j = choose|j: int|
            0 <= j < tasks.len() && (#[trigger] tasks[j]).id@ == tasks[i].parent_id->0@
                && descends_within(tasks, j, root, (fuel - 1) as nat);
        lemma_cascade_complete(tasks, ids, root, j, (fuel - 1) as nat);
        let w = choose|w: int| 0 <= w < ids.len() && (#[trigger] ids[w])@ == tasks[j].id@;
        assert(has_parent_id(tasks[i], ids[w]@));
    }
}

/// Whether `id` stands somewhere in `ids`.
#[verifier::loop_isolation(false)]
fn id_listed_exec(ids: &Vec<String>, id: &String) -> (r: bool)
    ensures
        r == id_listed(ids@, id@),
{
    let len = ids.len();
    let mut w: usize = 0;
    while w < len
        invariant
            w <= len,
            forall|v: int| 0 <= v < w ==> (#[trigger] ids@[v])@ != id@,
        decreases len - w,
    {
        if ids[w] == *id {
            return true;
        }
        w = w + 1;
    }
    false
}

/// Gather the removal list of a cascade rooted at `root_id`: the root
/// identity, then every strict descendant's identity, parents always ahead
/// of their children, nothing listed twice — a worklist walk that stays
/// well behaved even on damaged parent graphs.
#[verifier::loop_isolation(false)]
fn collect_cascade(tasks: &Vec<Task>, root_id: &String) -> (r: Vec<String>)
    requires
        ids_distinct(tasks@),
    ensures
        cascade_ids_ok(tasks@, r@, root_id@),
{
    let mut r: Vec<String> = Vec::new();
    r.push(root_id.clone());
    let mut k: usize = 0;
    while k < r.len()
        invariant
            1 <= r@.len(),
            r@.len() <= tasks@.len() + 1,
            r@[0]@ == root_id@,
            k <= r@.len(),
            ids_unique(r@),
            listed_are_descendants(tasks@, r@, root_id@),
            listed_parent_before(tasks@, r@),
            ids_closed_upto(tasks@, r@, k as int),
        decreases tasks@.len() + 1 - k,
    {
        let cur = r[k].clone();
        let n = tasks.len();
        let mut c: usize = 0;
        while c < n
            invariant
                c <= n,
                k < r@.len(),
                r@.len() <= tasks@.len() + 1,
                cur@ == r@[k as int]@,
                1 <= r@.len(),
                r@[0]@ == root_id@,
                ids_unique(r@),
                listed_are_descendants(tasks@, r@, root_id@),
                listed_parent_before(tasks@, r@),
                ids_closed_upto(tasks@, r@, k as int),
                forall|c2: int|
                    0 <= c2 < c && has_parent_id(#[trigger] tasks@[c2], cur@) ==> id_listed(
                        r@,
                        tasks@[c2].id@,
                    ),
            decreases n - c,
        {
            let is_child = parent_is(&tasks[c], &cur);
            if is_child {
                let already = id_listed_exec(&r, &tasks[c].id);
                if !already {
                    let ghost prev = r@;
                    r.push(tasks[c].id.clone());
                    proof {
                        let last = r@.len() - 1;
                        assert(forall|w: int| 0 <= w < prev.len() ==> r@[w] == prev[w]);
                        assert(r@[last]@ == tasks@[c as int].id@);
                        assert forall|x: Seq<char>| id_listed(prev, x) implies id_listed(
                            r@,
                            x,
                        ) by {
                            let w = choose|w: int| 0 <= w < prev.len() && (#[trigger] prev[w])@ == x;
                            assert(r@[w]@ == x);
                        }
                        assert(ids_unique(r@)) by {
                            assert forall|w1: int, w2: int|
                                0 <= w1 < w2 < r@.len() implies (#[trigger] r@[w1])@ != (
                            #[trigger] r@[w2])@ by {
                                if w2 == last {
                                    assert(!id_listed(prev, tasks@[c as int].id@));
                                    assert(prev[w1]@ != tasks@[c as int].id@);
                                }
                            }
                        }
                        assert(exists|i: int|
                            0 <= i < tasks@.len() && tasks@[i].id@ == (r@[last])@ && is_descendant(
                                tasks@,
                                i,
                                root_id@,
                            )) by {
                            if k == 0 {
                                assert(cur@ == root_id@);
                                assert(descends_within(tasks@, c as int, root_id@, 1));
                                assert(is_descendant(tasks@, c as int, root_id@)) by {
                                    assert(descends_within(tasks@, c as int, root_id@, 1nat));
                                }
                            } else {
                                assert(1 <= k < prev.len());
                                let i_k = choose|i: int|
                                    0 <= i < tasks@.len() && tasks@[i].id@ == (
                                    #[trigger] prev[k as int])@ && is_descendant(
                                        tasks@,
                                        i,
                                        root_id@,
                                    );
                                let fuel = choose|fuel: nat|
                                    descends_within(tasks@, i_k, root_id@, fuel);
                                assert(tasks@[i_k].id@ == tasks@[c as int].parent_id->0@);
                                assert(descends_within(tasks@, c as int, root_id@, fuel + 1));
                                assert(is_descendant(tasks@, c as int, root_id@));
                            }
                        }
                        assert(listed_are_descendants(tasks@, r@, root_id@)) by {
                            assert forall|w: int| 1 <= w < r@.len() implies exists|i: int|
                                0 <= i < tasks@.len() && tasks@[i].id@ == (#[trigger] r@[w])@
                                    && is_descendant(tasks@, i, root_id@) by {
                                if w < last {
                                    assert(r@[w] == prev[w]);
                                    assert(exists|i: int|
                                        0 <= i < tasks@.len() && tasks@[i].id@ == (
                                        #[trigger] prev[w])@ && is_descendant(
                                            tasks@,
                                            i,
                                            root_id@,
                                        ));
                                }
                            }
                        }
                        assert(listed_parent_before(tasks@, r@)) by {
                            assert forall|w: int| 1 <= w < r@.len() implies exists|v: int, i: int|
                                0 <= v < w && 0 <= i < tasks@.len() && tasks@[i].id@ == (
                                #[trigger] r@[w])@ && tasks@[i].parent_id is Some
                                    && tasks@[i].parent_id->0@ == r@[v]@ by {
                                if w < last {
                                    assert(r@[w] == prev[w]);
                                    let (v, i) = choose|v: int, i: int|
                                        0 <= v < w && 0 <= i < tasks@.len() && tasks@[i].id@ == (
                                        #[trigger] prev[w])@ && tasks@[i].parent_id is Some
                                            && tasks@[i].parent_id->0@ == prev[v]@;
                                    assert(r@[v] == prev[v]);
                                    assert(0 <= v < w && 0 <= i < tasks@.len() && tasks@[i].id@
                                        == r@[w]@ && tasks@[i].parent_id is Some
                                        && tasks@[i].parent_id->0@ == r@[v]@);
                                } else {
                                    assert((k as int) < w && tasks@[c as int].id@ == r@[w]@
                                        && tasks@[c as int].parent_id is Some && tasks@[
                                        c as int].parent_id->0@ == r@[k as int]@);
                                }
                            }
                        }
                        assert(ids_closed_upto(tasks@, r@, k as int)) by {
                            assert forall|w: int, c2: int|
                                0 <= w < k as int && 0 <= c2 < tasks@.len() && has_parent_id(
                                    #[trigger] tasks@[c2],
                                    (#[trigger] r@[w])@,
                                ) implies id_listed(r@, tasks@[c2].id@) by {
                                assert(r@[w] == prev[w]);
                                assert(id_listed(prev, tasks@[c2].id@));
                            }
                        }
                        assert forall|c2: int|
                            0 <= c2 < c + 1 && has_parent_id(
                                #[trigger] tasks@[c2],
                                cur@,
                            ) implies id_listed(r@, tasks@[c2].id@) by {
                            if c2 == c as int {
                                assert(r@[last]@ == tasks@[c2].id@);
                            } else {
                                assert(id_listed(prev, tasks@[c2].id@));
                            }
                        }
                        assert forall|w: int| 1 <= w < r@.len() implies some_task_has_id(
                            tasks@,
                            (#[trigger] r@[w])@,
                        ) by {
                            let i = choose|i: int|
                                0 <= i < tasks@.len() && tasks@[i].id@ == (#[trigger] r@[w])@
                                    && is_descendant(tasks@, i, root_id@);
                            assert(tasks@[i].id@ == r@[w]@);
                        }
                        lemma_unique_ids_bound(tasks@, r@);
                    }
                } else {
                    proof {
                        assert forall|c2: int|
                            0 <= c2 < c + 1 && has_parent_id(
                                #[trigger] tasks@[c2],
                                cur@,
                            ) implies id_listed(r@, tasks@[c2].id@) by {}
                    }
                }
            }
            c = c + 1;
        }
        proof {
            assert(ids_closed_upto(tasks@, r@, k as int + 1)) by {
                assert forall|w: int, c2: int|
                    0 <= w < k as int + 1 && 0 <= c2 < tasks@.len() && has_parent_id(
                        #[trigger] tasks@[c2],
                        (#[trigger] r@[w])@,
                    ) implies id_listed(r@, tasks@[c2].id@) by {
                    if w == k as int {
                        assert(r@[w]@ == cur@);
                    }
                }
            }
        }
        k = k + 1;
    }
    proof {
        assert forall|i: int|
            0 <= i < tasks@.len() && #[trigger] is_descendant(tasks@, i, root_id@) implies
            id_listed(r@, tasks@[i].id@) by {
            let fuel = choose|fuel: nat| descends_within(tasks@, i, root_id@, fuel);
            assert(id_listed(r@, root_id@)) by {
                assert(r@[0]@ == root_id@);
            }
            lemma_cascade_complete(tasks@, r@, root_id@, i, fuel);
        }
    }
    r
}

/// The identity `id` belongs to a store task strictly below the root.
pub open spec fn entry_is_descendant(tasks: Seq<Task>, root: Seq<char>, id: Seq<char>) -> bool {
    exists|i: int|
        0 <= i < tasks.len() && (#[trigger] tasks[i]).id@ == id && is_descendant(tasks, i, root)
}

/// Every listed identity belongs to a store task strictly below the root.
pub open spec fn listed_all_descendants(tasks: Seq<Task>, r: Seq<String>, root: Seq<char>) -> bool {
    forall|w: int| 0 <= w < r.len() ==> entry_is_descendant(tasks, root, (#[trigger] r[w])@)
}

/// The task carrying the `w`th listed identity hangs directly below the
/// root or below an identity listed earlier.
pub open spec fn entry_hangs_below(tasks: Seq<Task>, r: Seq<String>, root: Seq<char>, w: int) -> bool {
    exists|i: int|
        0 <= i < tasks.len() && (#[trigger] tasks[i]).id@ == r[w]@ && tasks[i].parent_id is Some
            && (tasks[i].parent_id->0@ == root || exists|v: int|
            0 <= v < w && tasks[i].parent_id->0@ == r[v]@)
}

/// Every listed identity's task hangs from the root or from an identity
/// listed earlier: a parent always precedes its own children.
pub open spec fn listed_parent_rooted(tasks: Seq<Task>, r: Seq<String>, root: Seq<char>) -> bool {
    forall|w: int| 0 <= w < r.len() ==> #[trigger] entry_hangs_below(tasks, r, root, w)
}

/// Every strict descendant of the root is listed.
pub open spec fn all_descendants_listed(tasks: Seq<Task>, r: Seq<String>, root: Seq<char>) -> bool {
    forall|i: int|
        0 <= i < tasks.len() && #[trigger] is_descendant(tasks, i, root) ==> id_listed(
            r,
            tasks[i].id@,
        )
}

/// The identities of every task strictly below `task_id`, a parent always
/// listed before its own children; the task itself is not included.
pub fn descendants_of(tasks: &Vec<Task>, task_id: &String) -> (r: Vec<String>)
    requires
        ids_distinct(tasks@),
        parent_acyclic(tasks@),
    ensures
        ids_unique(r@),
        listed_all_descendants(tasks@, r@, task_id@),
        all_descendants_listed(tasks@, r@, task_id@),
        forall|w: int| 0 <= w < r@.len() ==> (#[trigger] r@[w])@ != task_id@,
        listed_parent_rooted(tasks@, r@, task_id@),
{
    let full = collect_cascade(tasks, task_id);
    let mut r: Vec<String> = Vec::new();
    let mut w: usize = 1;
    #[verifier::loop_isolation(false)]
    while w < full.len()
        invariant
            1 <= w <= full@.len(),
            r@.len() == w - 1,
            forall|v: int| 0 <= v < r@.len() ==> (#[trigger] r@[v])@ == full@[v + 1]@,
        decreases full@.len() - w,
    {
        r.push(full[w].clone());
        w = w + 1;
    }
    proof {
        assert forall|w2: int| 0 <= w2 < r@.len() implies (#[trigger] r@[w2])@ != task_id@ by {
            assert(full@[0]@ == task_id@);
            assert(r@[w2]@ == full@[w2 + 1]@);
        }
        assert(all_descendants_listed(tasks@, r@, task_id@)) by {
            assert forall|i: int|
                0 <= i < tasks@.len() && #[trigger] is_descendant(tasks@, i, task_id@) implies
                id_listed(r@, tasks@[i].id@) by {
                assert(id_listed(full@, tasks@[i].id@));
                let v = choose|v: int|
                    0 <= v < full@.len() && (#[trigger] full@[v])@ == tasks@[i].id@;
                assert(v != 0) by {
                    if v == 0 {
                        assert(tasks@[i].id@ == task_id@);
                        assert(is_descendant(tasks@, i, tasks@[i].id@));
                        assert(false);
                    }
                }
                assert(r@[v - 1]@ == tasks@[i].id@);
            }
        }
        assert(listed_all_descendants(tasks@, r@, task_id@)) by {
            assert forall|w2: int| 0 <= w2 < r@.len() implies entry_is_descendant(
                tasks@,
                task_id@,
                (#[trigger] r@[w2])@,
            ) by {
                assert(r@[w2]@ == (full@[w2 + 1])@);
                let i = choose|i: int|
                    0 <= i < tasks@.len() && tasks@[i].id@ == (#[trigger] full@[w2 + 1])@
                        && is_descendant(tasks@, i, task_id@);
                assert((#[trigger] tasks@[i]).id@ == r@[w2]@ && is_descendant(
                    tasks@,
                    i,
                    task_id@,
                ));
            }
        }
        assert(ids_unique(r@)) by {
            assert forall|w1: int, w2: int| 0 <= w1 < w2 < r@.len() implies (#[trigger] r@[w1])@
                != (#[trigger] r@[w2])@ by {
                assert(full@[w1 + 1]@ != full@[w2 + 1]@);
            }
        }
        assert(listed_parent_rooted(tasks@, r@, task_id@)) by {
            assert forall|w2: int| 0 <= w2 < r@.len() implies #[trigger] entry_hangs_below(
                tasks@,
                r@,
                task_id@,
                w2,
            ) by {
                assert(r@[w2]@ == full@[w2 + 1]@);
                let (v, i) = choose|v: int, i: int|
                    #![trigger full@[v], tasks@[i]]
                    0 <= v < w2 + 1 && 0 <= i < tasks@.len() && tasks@[i].id@ == full@[w2 + 1]@
                        && tasks@[i].parent_id is Some && tasks@[i].parent_id->0@ == full@[v]@;
                if v == 0 {
                    assert((#[trigger] tasks@[i]).id@ == r@[w2]@ && tasks@[i].parent_id is Some
                        && tasks@[i].parent_id->0@ == task_id@);
                } else {
                    assert(r@[v - 1]@ == full@[v]@);
                    assert(0 <= v - 1 < w2 && tasks@[i].parent_id->0@ == r@[v - 1]@);
                    assert((#[trigger] tasks@[i]).id@ == r@[w2]@ && tasks@[i].parent_id is Some
                        && (exists|v2: int|
                        0 <= v2 < w2 && tasks@[i].parent_id->0@ == r@[v2]@));
                }
            }
        }
    }
    r
}

// ---------------------------------------------------------------------------
// Removing a cascade from the store
// ---------------------------------------------------------------------------

/// The store with every listed identity taken out, order otherwise kept.
pub open spec fn remove_listed(tasks: Seq<Task>, ids: Seq<String>) -> Seq<Task>
    decreases tasks.len(),
{
    if tasks.len() == 0 {
        Seq::empty()
    } else if id_listed(ids, tasks.first().id@) {
        remove_listed(tasks.drop_first(), ids)
    } else {
        seq![tasks.first()] + remove_listed(tasks.drop_first(), ids)
    }
}

/// What survives a removal: exactly the tasks whose identity is not
/// listed, each still a member of the original store.
pub proof fn lemma_remove_listed_membership(tasks: Seq<Task>, ids: Seq<String>)
    ensures
        remove_listed(tasks, ids).len() <= tasks.len(),
        forall|k: int|
            0 <= k < remove_listed(tasks, ids).len() ==> tasks.contains(
                #[trigger] remove_listed(tasks, ids)[k],
            ) && !id_listed(ids, remove_listed(tasks, ids)[k].id@),
        forall|i: int|
            0 <= i < tasks.len() && !id_listed(ids, (#[trigger] tasks[i]).id@) ==> remove_listed(
                tasks,
                ids,
            ).contains(tasks[i]),
    decreases tasks.len(),
{
    let res = remove_listed(tasks, ids);
    if tasks.len() > 0 {
        let rest = tasks.drop_first();
        lemma_remove_listed_membership(rest, ids);
        let rres = remove_listed(rest, ids);
        assert forall|k: int|
            0 <= k < res.len() implies tasks.contains(#[trigger] res[k]) && !id_listed(
                ids,
                res[k].id@,
            ) by {
            if id_listed(ids, tasks.first().id@) {
                assert(res[k] == rres[k]);
                assert(rest.contains(rres[k]));
                let m = choose|m: int| 0 <= m < rest.len() && rest[m] == rres[k];
                assert(tasks[m + 1] == res[k]);
            } else {
                if k == 0 {
                    assert(res[0] == tasks.first());
                    assert(tasks[0] == tasks.first());
                } else {
                    assert(res[k] == rres[k - 1]);
                    assert(rest.contains(rres[k - 1]));
                    let m = choose|m: int| 0 <= m < rest.len() && rest[m] == rres[k - 1];
                    assert(tasks[m + 1] == res[k]);
                }
            }
        }
        assert forall|i: int|
            0 <= i < tasks.len() && !id_listed(ids, (#[trigger] tasks[i]).id@) implies
            res.contains(tasks[i]) by {
            if i == 0 {
                assert(res[0] == tasks[0]);
            } else {
                assert(rest[i - 1] == tasks[i]);
                assert(rres.contains(rest[i - 1]));
                let m = choose|m: int| 0 <= m < rres.len() && rres[m] == rest[i - 1];
                if id_listed(ids, tasks.first().id@) {
                    assert(res[m] == tasks[i]);
                } else {
                    assert(res[m + 1] == tasks[i]);
                }
            }
        }
    }
}

/// Removal keeps identities unique.
pub proof fn lemma_remove_listed_distinct(tasks: Seq<Task>, ids: Seq<String>)
    requires
        ids_distinct(tasks),
    ensures
        ids_distinct(remove_listed(tasks, ids)),
    decreases tasks.len(),
{
    let res = remove_listed(tasks, ids);
    if tasks.len() > 0 {
        let rest = tasks.drop_first();
        assert(ids_distinct(rest)) by {
            assert forall|i: int, j: int| 0 <= i < j < rest.len() implies rest[i].id@
                != rest[j].id@ by {
                assert(rest[i] == tasks[i + 1] && rest[j] == tasks[j + 1]);
            }
        }
        lemma_remove_listed_distinct(rest, ids);
        lemma_remove_listed_membership(rest, ids);
        let rres = remove_listed(rest, ids);
        if !id_listed(ids, tasks.first().id@) {
            assert forall|i: int, j: int| 0 <= i < j < res.len() implies res[i].id@
                != res[j].id@ by {
                if i == 0 {
                    assert(res[j] == rres[j - 1]);
                    assert(rest.contains(rres[j - 1]));
                    let m = choose|m: int| 0 <= m < rest.len() && rest[m] == rres[j - 1];
                    assert(tasks[m + 1] == res[j]);
                    assert(tasks[0].id@ != tasks[m + 1].id@);
                    assert(res[0] == tasks[0]);
                } else {
                    assert(res[i] == rres[i - 1] && res[j] == rres[j - 1]);
                }
            }
        }
    }
}

/// Take every task whose identity is listed out of the store, in place.
#[verifier::loop_isolation(false)]
fn remove_listed_exec(tasks: &mut Vec<Task>, ids: &Vec<String>)
    ensures
        final(tasks)@ == remove_listed(old(tasks)@, ids@),
{
    let ghost orig = tasks@;
    let mut idx: usize = tasks.len();
    proof {
        assert(orig.subrange(idx as int, orig.len() as int) =~= Seq::<Task>::empty());
        assert(tasks@ =~= orig.subrange(0, idx as int) + remove_listed(
            orig.subrange(idx as int, orig.len() as int),
            ids@,
        ));
    }
    while idx > 0
        invariant
            idx <= orig.len(),
            tasks@ == orig.subrange(0, idx as int) + remove_listed(
                orig.subrange(idx as int, orig.len() as int),
                ids@,
            ),
        decreases idx,
    {
        let ghost pre = tasks@;
        let ghost tail_prev = orig.subrange(idx as int, orig.len() as int);
        let ghost tail_now = orig.subrange(idx - 1, orig.len() as int);
        proof {
            assert(tail_now.drop_first() =~= tail_prev);
            assert(tail_now.first() == orig[idx - 1]);
            assert(pre[idx - 1] == orig[idx - 1]);
            assert(idx <= pre.len());
        }
        let listed = id_listed_exec(ids, &tasks[idx - 1].id);
        if listed {
            tasks.remove(idx - 1);
            proof {
                assert(remove_listed(tail_now, ids@) == remove_listed(tail_prev, ids@));
                assert(tasks@ =~= orig.subrange(0, idx - 1) + remove_listed(tail_now, ids@)) by {
                    assert(tasks@ == pre.remove(idx - 1));
                }
            }
        } else {
            proof {
                assert(remove_listed(tail_now, ids@) == seq![orig[idx - 1]] + remove_listed(
                    tail_prev,
                    ids@,
                ));
                assert(tasks@ =~= orig.subrange(0, idx - 1) + remove_listed(tail_now, ids@));
            }
        }
        idx = idx - 1;
    }
    proof {
        assert(orig.subrange(0, orig.len() as int) =~= orig);
        assert(tasks@ =~= remove_listed(orig, ids@));
    }
}

// ---------------------------------------------------------------------------
// Where the cursor lands after a cascade
// ---------------------------------------------------------------------------

/// The identity of the first display entry at or after `q` whose identity
/// is not on the removal list.
pub open spec fn survivor_from(
    tasks: Seq<Task>,
    d: Seq<usize>,
    removal: Seq<String>,
    q: int,
) -> Option<Seq<char>>
    decreases d.len() - q,
{
    if q < 0 || q >= d.len() {
        None
    } else if !id_listed(removal, tasks[d[q] as int].id@) {
        Some(tasks[d[q] as int].id@)
    } else {
        survivor_from(tasks, d, removal, q + 1)
    }
}

/// The identity of the last display entry at or before `q` whose identity
/// is not on the removal list.
pub open spec fn survivor_back(
    tasks: Seq<Task>,
    d: Seq<usize>,
    removal: Seq<String>,
    q: int,
) -> Option<Seq<char>>
    decreases q + 1,
{
    if q < 0 || q >= d.len() {
        None
    } else if !id_listed(removal, tasks[d[q] as int].id@) {
        Some(tasks[d[q] as int].id@)
    } else {
        survivor_back(tasks, d, removal, q - 1)
    }
}

/// The identity a cascade re-anchors the cursor on: the nearest entry of
/// the old display list at or after the selection that survives the
/// removal, else the nearest one before it, else nothing; a missing or
/// out-of-range selection anchors nothing.
pub open spec fn cascade_anchor(
    tasks: Seq<Task>,
    d: Seq<usize>,
    sel: Option<usize>,
    removal: Seq<String>,
) -> Option<Seq<char>> {
    match sel {
        Some(i) => if (i as int) < d.len() && (d[i as int] as int) < tasks.len() {
            match survivor_from(tasks, d, removal, i as int) {
                Some(aid) => Some(aid),
                None => survivor_back(tasks, d, removal, i as int - 1),
            }
        } else {
            None
        },
        None => None,
    }
}

/// Where a cascade leaves the cursor: the anchor's position in the new
/// display list where it appears, the top of a non-empty list where it
/// does not, nothing where nothing was anchored.
pub open spec fn cascade_reanchored(pre: Tasks, post: Tasks, removal: Seq<String>) -> bool {
    let anchor = cascade_anchor(pre.tasks@, pre.display_tasks@, pre.state.selected, removal);
    &&& anchor is None ==> post.state.selected is None
    &&& anchor is Some ==> {
        let aid = anchor->0;
        &&& forall|q: int|
            display_has_id(post.tasks@, post.display_tasks@, aid, q) ==> post.state.selected
                == Some(q as usize)
        &&& !(exists|q: int| display_has_id(post.tasks@, post.display_tasks@, aid, q))
            ==> post.state.selected == (if post.display_tasks@.len() > 0 {
            Some(0usize)
        } else {
            None::<usize>
        })
    }
}

/// Scan the display list forward from `start` for an entry that survives.
#[verifier::loop_isolation(false)]
fn find_survivor_forward(
    tasks: &Vec<Task>,
    d: &Vec<usize>,
    removal: &Vec<String>,
    start: usize,
) -> (r: Option<String>)
    requires
        entries_valid(tasks@, d@),
    ensures
        match r {
            Some(s) => survivor_from(tasks@, d@, removal@, start as int) == Some(s@),
            None => survivor_from(tasks@, d@, removal@, start as int) is None,
        },
{
    let mut q: usize = start;
    while q < d.len()
        invariant
            start <= q,
            survivor_from(tasks@, d@, removal@, start as int) == survivor_from(
                tasks@,
                d@,
                removal@,
                q as int,
            ),
        decreases d@.len() - q,
    {
        let idx = d[q];
        if !id_listed_exec(removal, &tasks[idx].id) {
            return Some(tasks[idx].id.clone());
        }
        q = q + 1;
    }
    None
}

/// Scan the display list backward from `last` for an entry that survives.
#[verifier::loop_isolation(false)]
fn find_survivor_backward(
    tasks: &Vec<Task>,
    d: &Vec<usize>,
    removal: &Vec<String>,
    last: usize,
) -> (r: Option<String>)
    requires
        entries_valid(tasks@, d@),
    ensures
        match r {
            Some(s) => survivor_back(tasks@, d@, removal@, last as int) == Some(s@),
            None => survivor_back(tasks@, d@, removal@, last as int) is None,
        },
{
    if last >= d.len() {
        return None;
    }
    let mut q: usize = last;
    loop
        invariant
            q <= last,
            last < d@.len(),
            survivor_back(tasks@, d@, removal@, last as int) == survivor_back(
                tasks@,
                d@,
                removal@,
                q as int,
            ),
        decreases q,
    {
        let idx = d[q];
        if !id_listed_exec(removal, &tasks[idx].id) {
            return Some(tasks[idx].id.clone());
        }
        if q == 0 {
            return None;
        }
        q = q - 1;
    }
}

impl Tasks {
    /// Remove the task carrying `task_id` together with its whole
    /// descendant set from the store in one step, rebuild the display list
    /// for the active filter with priority ordering, and re-anchor the
    /// cursor: on the identity it rested on if that survives, else on the
    /// nearest surviving entry of the old display list after it, else
    /// before it. The removed identities come back to the caller, who owes
    /// the remote service one outbound request per identity, dispatched
    /// after the store has already changed.
    pub fn cascade_remove_on(&mut self, task_id: &String, today: Date) -> (removed: Vec<String>)
        requires
            ids_distinct(old(self).tasks@),
            entries_valid(old(self).tasks@, old(self).display_tasks@),
        ensures
            final(self).filter == old(self).filter,
            final(self).tasks_with_children == old(self).tasks_with_children,
            final(self).state.offset == 0,
            ids_distinct(final(self).tasks@),
            display_ok(
                final(self).tasks@,
                final(self).display_tasks@,
                final(self).filter,
                SortCriterion::Priority,
                today,
            ),
            cascade_ids_ok(old(self).tasks@, removed@, task_id@),
            final(self).tasks@ == remove_listed(old(self).tasks@, removed@),
            cascade_reanchored(*old(self), *final(self), removed@),
    {
        let ghost pre = *self;
        let removal = collect_cascade(&self.tasks, task_id);
        let anchor: Option<String> = match self.state.selected() {
            Some(sel) => {
                if sel < self.display_tasks.len() {
                    let e = self.display_tasks[sel];
                    if e < self.tasks.len() {
                        match find_survivor_forward(
                            &self.tasks,
                            &self.display_tasks,
                            &removal,
                            sel,
                        ) {
                            Some(a) => Some(a),
                            None => {
                                if sel > 0 {
                                    find_survivor_backward(
                                        &self.tasks,
                                        &self.display_tasks,
                                        &removal,
                                        sel - 1,
                                    )
                                } else {
                                    None
                                }
                            },
                        }
                    } else {
                        None
                    }
                } else {
                    None
                }
            },
            None => None,
        };
        proof {
            assert(match anchor {
                Some(a) => cascade_anchor(
                    pre.tasks@,
                    pre.display_tasks@,
                    pre.state.selected,
                    removal@,
                ) == Some(a@),
                None => cascade_anchor(
                    pre.tasks@,
                    pre.display_tasks@,
                    pre.state.selected,
                    removal@,
                ) is None,
            });
        }
        let ghost aid_g = cascade_anchor(
            pre.tasks@,
            pre.display_tasks@,
            pre.state.selected,
            removal@,
        )->0;
        remove_listed_exec(&mut self.tasks, &removal);
        proof {
            lemma_remove_listed_distinct(pre.tasks@, removal@);
        }
        self.state = SelectionState { selected: None, offset: 0 };
        let d2 = rebuild_display(&self.tasks, &self.filter, SortCriterion::Priority, today);
        self.display_tasks = d2;
        match &anchor {
            Some(aid) => {
                proof {
                    assert(aid_g == aid@);
                }
                match find_id_position(&self.tasks, &self.display_tasks, aid) {
                    Some(qpos) => {
                        self.state.select(Some(qpos));
                        proof {
                            assert(cascade_reanchored(pre, *self, removal@)) by {
                                assert(display_has_id(
                                    self.tasks@,
                                    self.display_tasks@,
                                    aid_g,
                                    qpos as int,
                                ));
                                assert forall|q2: int|
                                    display_has_id(
                                        self.tasks@,
                                        self.display_tasks@,
                                        aid_g,
                                        q2,
                                    ) implies self.state.selected == Some(q2 as usize) by {
                                    lemma_display_id_unique(
                                        self.tasks@,
                                        self.display_tasks@,
                                        qpos as int,
                                        q2,
                                    );
                                }
                            }
                        }
                    },
                    None => {
                        if self.display_tasks.len() > 0 {
                            self.state.select(Some(0));
                        } else {
                            self.state.select(None);
                        }
                        proof {
                            assert(cascade_reanchored(pre, *self, removal@)) by {
                                assert(!(exists|q2: int|
                                    display_has_id(self.tasks@, self.display_tasks@, aid_g, q2)))
                                    by {
                                    if exists|q2: int|
                                        display_has_id(
                                            self.tasks@,
                                            self.display_tasks@,
                                            aid_g,
                                            q2,
                                        ) {
                                        let q2 = choose|q2: int|
                                            display_has_id(
                                                self.tasks@,
                                                self.display_tasks@,
                                                aid_g,
                                                q2,
                                            );
                                        assert(self.tasks@[(
                                        #[trigger] self.display_tasks@[q2]) as int].id@ != aid@);
                                        assert(false);
                                    }
                                }
                            }
                        }
                    },
                }
            },
            None => {
                proof {
                    assert(cascade_reanchored(pre, *self, removal@));
                }
            },
        }
        removal
    }

    /// As `cascade_remove_on`, with "today" read fresh from the local
    /// clock for the date filters.
    pub fn cascade_remove(&mut self, task_id: &String) -> (removed: Vec<String>)
        requires
            ids_distinct(old(self).tasks@),
            entries_valid(old(self).tasks@, old(self).display_tasks@),
        ensures
            final(self).filter == old(self).filter,
            final(self).tasks_with_children == old(self).tasks_with_children,
            final(self).state.offset == 0,
            ids_distinct(final(self).tasks@),
            exists|today: Date|
                #[trigger] display_ok(
                    final(self).tasks@,
                    final(self).display_tasks@,
                    final(self).filter,
                    SortCriterion::Priority,
                    today,
                ),
            cascade_ids_ok(old(self).tasks@, removed@, task_id@),
            final(self).tasks@ == remove_listed(old(self).tasks@, removed@),
            cascade_reanchored(*old(self), *final(self), removed@),
    {
        let today = today_local();
        self.cascade_remove_on(task_id, today)
    }
}

} // verus!

use vstd::prelude::*;
use crate::tasks::{Task, Filter, SortCriterion, Date, task_is_root, root_matches, has_parent_id, ids_distinct, parent_is, root_matches_exec, descends_within, is_descendant, lemma_descends_trans};

verus! {

/// `d2` carries `d1` unchanged at its front.
pub open spec fn extends(d2: Seq<usize>, d1: Seq<usize>) -> bool {
    d1.len() <= d2.len() && forall|q: int| 0 <= q < d1.len() ==> d1[q] == d2[q]
}

// ---------------------------------------------------------------------------
// What a rebuilt display list promises.
//
// The display list is a sequence of indices into the task store: root-major,
// depth-first, roots filtered and ordered by the sort criterion, siblings
// ordered by their structural `order` field.
// ---------------------------------------------------------------------------

/// Every entry indexes into the store.
pub open spec fn entries_valid(tasks: Seq<Task>, d: Seq<usize>) -> bool {
    forall|k: int| 0 <= k < d.len() ==> (#[trigger] d[k]) < tasks.len()
}

/// The display entry at position `j` carries the identity that the entry at
/// position `k` names as its parent.
pub open spec fn parent_link(tasks: Seq<Task>, d: Seq<usize>, j: int, k: int) -> bool {
    tasks[d[j] as int].id@ == tasks[d[k] as int].parent_id->0@
}

/// Every displayed non-root's parent task is itself displayed, at an earlier
/// position. In particular no displayed task is an orphan.
pub open spec fn parents_before(tasks: Seq<Task>, d: Seq<usize>) -> bool {
    forall|k: int|
        0 <= k < d.len() && !task_is_root(tasks[#[trigger] d[k] as int]) ==> exists|j: int|
            0 <= j < k && #[trigger] parent_link(tasks, d, j, k)
}

/// Exactly the roots that pass the filter appear in the display list.
pub open spec fn roots_exact(tasks: Seq<Task>, d: Seq<usize>, f: Filter, today: Date) -> bool {
    forall|t: int|
        0 <= t < tasks.len() && task_is_root(#[trigger] tasks[t]) ==> (d.contains(t as usize)
            <==> root_matches(tasks[t], f, today))
}

/// Every task whose parent is displayed is displayed too: a shown root
/// brings its whole subtree along.
pub open spec fn children_closed(tasks: Seq<Task>, d: Seq<usize>) -> bool {
    children_closed_from(tasks, d, 0)
}

/// Both entries name the same (present) parent identity.
pub open spec fn same_parent(tasks: Seq<Task>, a: usize, b: usize) -> bool {
    tasks[a as int].parent_id is Some && tasks[b as int].parent_id is Some
        && tasks[a as int].parent_id->0@ == tasks[b as int].parent_id->0@
}

/// The sibling ordering: ascending structural `order`, ties resolved by
/// store position, which keeps the ordering total over distinct entries.
pub open spec fn sib_lt(tasks: Seq<Task>, a: usize, b: usize) -> bool {
    ||| tasks[a as int].order < tasks[b as int].order
    ||| (tasks[a as int].order == tasks[b as int].order && a < b)
}

/// Displayed siblings appear in ascending sibling order.
pub open spec fn siblings_ordered(tasks: Seq<Task>, d: Seq<usize>) -> bool {
    forall|i: int, j: int|
        0 <= i < j < d.len() && #[trigger] same_parent(tasks, d[i], d[j]) ==> sib_lt(
            tasks,
            d[i],
            d[j],
        )
}

/// The date key: a task with a due date ranks before one without; two dated
/// tasks rank by their dates.
pub open spec fn due_day(t: Task) -> Option<int> {
    match t.due {
        Some(d) => Some(d.date.days as int),
        None => None,
    }
}

/// Strict comparison of date keys: dated before undated, dates ascending,
/// two missing dates equal-ranked.
pub open spec fn date_key_lt(x: Option<int>, y: Option<int>) -> bool {
    match (x, y) {
        (Some(a), Some(b)) => a < b,
        (Some(_), None) => true,
        (None, Some(_)) => false,
        (None, None) => false,
    }
}

/// The root ordering for a criterion: strictly smaller key, or equal keys
/// and earlier store position — equal-ranked roots keep their relative
/// store order, which is what makes the sort stable.
pub open spec fn root_lt(tasks: Seq<Task>, c: SortCriterion, a: usize, b: usize) -> bool {
    match c {
        SortCriterion::Priority => {
            ||| tasks[a as int].priority < tasks[b as int].priority
            ||| (tasks[a as int].priority == tasks[b as int].priority && a < b)
        },
        SortCriterion::Date => {
            ||| date_key_lt(due_day(tasks[a as int]), due_day(tasks[b as int]))
            ||| (due_day(tasks[a as int]) == due_day(tasks[b as int]) && a < b)
        },
    }
}

/// Displayed roots appear in ascending root order for the criterion.
pub open spec fn roots_ordered(tasks: Seq<Task>, d: Seq<usize>, c: SortCriterion) -> bool {
    forall|i: int, j: int|
        0 <= i < j < d.len() && task_is_root(tasks[#[trigger] d[i] as int]) && task_is_root(
            tasks[#[trigger] d[j] as int],
        ) ==> root_lt(tasks, c, d[i], d[j])
}

/// Positions `lo <= k` of `d` hold non-roots whose parent stands at some
/// position in `[lo - 1, k)`: the shape of a freshly emitted subtree hung
/// below the entry at `lo - 1`.
pub open spec fn segment_linked(tasks: Seq<Task>, d: Seq<usize>, lo: int) -> bool {
    forall|k: int|
        lo <= k < d.len() ==> (!task_is_root(tasks[#[trigger] d[k] as int]) && exists|j: int|
            lo - 1 <= j < k && #[trigger] parent_link(tasks, d, j, k))
}

/// Every task that names an entry at position `lo` or later as its parent
/// is displayed.
pub open spec fn children_closed_from(tasks: Seq<Task>, d: Seq<usize>, lo: int) -> bool {
    forall|t: int, j: int|
        0 <= t < tasks.len() && lo <= j < d.len() && #[trigger] has_parent_id(
            tasks[t],
            tasks[#[trigger] d[j] as int].id@,
        ) ==> d.contains(t as usize)
}

/// No displayed entry names `tasks[p]` as its parent — true of any list
/// whose latest entry is a first appearance of `p`.
pub open spec fn no_displayed_child_of(tasks: Seq<Task>, d: Seq<usize>, p: usize) -> bool {
    forall|k: int|
        0 <= k < d.len() ==> !has_parent_id(tasks[#[trigger] d[k] as int], tasks[p as int].id@)
}

/// Subtrees stay contiguous: everything standing strictly between a
/// displayed task and any of its displayed children descends from that
/// task — no other branch interleaves before a subtree is fully emitted.
pub open spec fn no_interleaving(tasks: Seq<Task>, d: Seq<usize>) -> bool {
    forall|a: int, b: int, k: int|
        #![trigger has_parent_id(tasks[d[k] as int], tasks[d[a] as int].id@), d[b]]
        0 <= a < b < k < d.len() && has_parent_id(tasks[d[k] as int], tasks[d[a] as int].id@)
            ==> is_descendant(tasks, d[b] as int, tasks[d[a] as int].id@)
}

/// Everything a rebuild promises of the display list it returns.
pub open spec fn display_ok(
    tasks: Seq<Task>,
    d: Seq<usize>,
    f: Filter,
    c: SortCriterion,
    today: Date,
) -> bool {
    &&& entries_valid(tasks, d)
    &&& d.no_duplicates()
    &&& roots_exact(tasks, d, f, today)
    &&& parents_before(tasks, d)
    &&& children_closed(tasks, d)
    &&& siblings_ordered(tasks, d)
    &&& roots_ordered(tasks, d, c)
    &&& no_interleaving(tasks, d)
}

// ---------------------------------------------------------------------------
// Root selection
// ---------------------------------------------------------------------------

/// The store indices of the roots that pass the filter, in store order.
pub(crate) fn collect_roots(tasks: &Vec<Task>, f: &Filter, today: &Date) -> (roots: Vec<usize>)
    ensures
        forall|i: int, j: int| 0 <= i < j < roots@.len() ==> roots@[i] < roots@[j],
        forall|i: int|
            0 <= i < roots@.len() ==> (#[trigger] roots@[i]) < tasks@.len() && task_is_root(
                tasks@[roots@[i] as int],
            ) && root_matches(tasks@[roots@[i] as int], *f, *today),
        forall|t: int|
            0 <= t < tasks@.len() && task_is_root(#[trigger] tasks@[t]) && root_matches(
                tasks@[t],
                *f,
                *today,
            ) ==> roots@.contains(t as usize),
{
    let mut roots: Vec<usize> = Vec::new();
    let n = tasks.len();
    let mut idx: usize = 0;
    while idx < n
        invariant
            n == tasks@.len(),
            idx <= n,
            forall|i: int, j: int| 0 <= i < j < roots@.len() ==> roots@[i] < roots@[j],
            forall|i: int| 0 <= i < roots@.len() ==> (#[trigger] roots@[i]) < idx,
            forall|i: int|
                0 <= i < roots@.len() ==> task_is_root(tasks@[(#[trigger] roots@[i]) as int])
                    && root_matches(tasks@[roots@[i] as int], *f, *today),
            forall|t: int|
                0 <= t < idx && task_is_root(#[trigger] tasks@[t]) && root_matches(
                    tasks@[t],
                    *f,
                    *today,
                ) ==> roots@.contains(t as usize),
        decreases n - idx,
    {
        let is_root = tasks[idx].parent_id.is_none();
        if is_root && root_matches_exec(&tasks[idx], f, today) {
            let ghost pre = roots@;
            roots.push(idx);
            proof {
                assert(roots@[roots@.len() - 1] == idx);
                assert(forall|i: int| 0 <= i < pre.len() ==> roots@[i] == pre[i]);
                assert(roots@.contains(idx)) by {
                    assert(roots@[roots@.len() - 1] == idx);
                }
                assert forall|t: int|
                    0 <= t < idx + 1 && task_is_root(#[trigger] tasks@[t]) && root_matches(
                        tasks@[t],
                        *f,
                        *today,
                    ) implies roots@.contains(t as usize) by {
                    if t < idx {
                        assert(pre.contains(t as usize));
                        let w = choose|w: int| 0 <= w < pre.len() && pre[w] == t as usize;
                        assert(roots@[w] == t as usize);
                    }
                }
            }
        }
        idx = idx + 1;
    }
    roots
}

// ---------------------------------------------------------------------------
// Ordering display indices
// ---------------------------------------------------------------------------

/// Which key a sort of store indices goes by: a root criterion, or the
/// structural sibling order.
pub enum IndexKey {
    Roots(SortCriterion),
    Siblings,
}

/// The strict total order that `sort_indices` establishes for a key.
/// Distinct indices are always comparable because store position breaks
/// every tie.
pub open spec fn key_lt(tasks: Seq<Task>, key: IndexKey, a: usize, b: usize) -> bool {
    match key {
        IndexKey::Roots(c) => root_lt(tasks, c, a, b),
        IndexKey::Siblings => sib_lt(tasks, a, b),
    }
}

fn key_lt_exec(tasks: &Vec<Task>, key: &IndexKey, a: usize, b: usize) -> (r: bool)
    requires
        a < tasks@.len(),
        b < tasks@.len(),
    ensures
        r == key_lt(tasks@, *key, a, b),
{
    match key {
        IndexKey::Roots(SortCriterion::Priority) => {
            let pa = tasks[a].priority;
            let pb = tasks[b].priority;
            pa < pb || (pa == pb && a < b)
        },
        IndexKey::Roots(SortCriterion::Date) => {
            let lt = match (&tasks[a].due, &tasks[b].due) {
                (Some(da), Some(db)) => da.date.days < db.date.days,
                (Some(_), None) => true,
                (None, Some(_)) => false,
                (None, None) => false,
            };
            let eq = match (&tasks[a].due, &tasks[b].due) {
                (Some(da), Some(db)) => da.date.days == db.date.days,
                (Some(_), None) => false,
                (None, Some(_)) => false,
                (None, None) => true,
            };
            lt || (eq && a < b)
        },
        IndexKey::Siblings => {
            let oa = tasks[a].order;
            let ob = tasks[b].order;
            oa < ob || (oa == ob && a < b)
        },
    }
}

/// Swapping two positions of a sequence leaves its multiset of values as it
/// was.
proof fn lemma_swap_multiset(s: Seq<usize>, i: int, m: int)
    requires
        0 <= i < s.len(),
        0 <= m < s.len(),
    ensures
        s.update(i, s[m]).update(m, s[i]).to_multiset() == s.to_multiset(),
{
    broadcast use vstd::seq_lib::to_multiset_update;
    broadcast use vstd::seq_lib::group_to_multiset_ensures;

    if i == m {
        assert(s.update(i, s[m]).update(m, s[i]) =~= s);
    } else {
        let s1 = s.update(i, s[m]);
        let s2 = s1.update(m, s[i]);
        assert(s1[m] == s[m]);
        assert(s1.to_multiset() == s.to_multiset().insert(s[m]).remove(s[i]));
        assert(s2.to_multiset() == s1.to_multiset().insert(s[i]).remove(s1[m]));
        assert(s2.to_multiset() =~= s.to_multiset());
    }
}

/// Sort store indices in place by the key's total order: a selection sort,
/// deterministic, and stable through the store-position tie break.
pub(crate) fn sort_indices(tasks: &Vec<Task>, v: &mut Vec<usize>, key: IndexKey)
    requires
        forall|i: int| 0 <= i < old(v)@.len() ==> (#[trigger] old(v)@[i]) < tasks@.len(),
    ensures
        final(v)@.to_multiset() == old(v)@.to_multiset(),
        final(v)@.len() == old(v)@.len(),
        forall|i: int| 0 <= i < final(v)@.len() ==> (#[trigger] final(v)@[i]) < tasks@.len(),
        forall|i: int, j: int|
            0 <= i < j < final(v)@.len() ==> !key_lt(tasks@, key, final(v)@[j], final(v)@[i]),
{
    let ghost orig = v@;
    let n = v.len();
    let mut i: usize = 0;
    while i < n
        invariant
            n == v@.len(),
            i <= n,
            v@.to_multiset() == orig.to_multiset(),
            forall|p: int| 0 <= p < v@.len() ==> (#[trigger] v@[p]) < tasks@.len(),
            forall|p: int, q: int| 0 <= p < q < i ==> !key_lt(tasks@, key, v@[q], v@[p]),
            forall|p: int, q: int|
                0 <= p < i && i <= q < n ==> !key_lt(tasks@, key, v@[q], v@[p]),
        decreases n - i,
    {
        let mut m: usize = i;
        let mut j: usize = i + 1;
        while j < n
            invariant
                n == v@.len(),
                i <= m < j <= n,
                forall|p: int| 0 <= p < v@.len() ==> (#[trigger] v@[p]) < tasks@.len(),
                forall|q: int| i <= q < j ==> !key_lt(tasks@, key, v@[q], v@[m as int]),
            decreases n - j,
        {
            if key_lt_exec(tasks, &key, v[j], v[m]) {
                m = j;
            }
            j = j + 1;
        }
        let ghost pre = v@;
        let vi = v[i];
        let vm = v[m];
        v.set(i, vm);
        v.set(m, vi);
        proof {
            assert(v@ =~= pre.update(i as int, pre[m as int]).update(m as int, pre[i as int]));
            lemma_swap_multiset(pre, i as int, m as int);
            assert(v@.to_multiset() == orig.to_multiset());
            assert forall|p: int, q: int| 0 <= p < q < i + 1 implies !key_lt(
                tasks@,
                key,
                v@[q],
                v@[p],
            ) by {
                if q < i {
                    assert(v@[p] == pre[p] && v@[q] == pre[q]);
                } else {
                    assert(q == i);
                    assert(v@[q] == pre[m as int]);
                    assert(v@[p] == pre[p]);
                    assert(!key_lt(tasks@, key, pre[m as int], pre[p]));
                }
            }
            assert forall|p: int, q: int| 0 <= p < i + 1 && i + 1 <= q < n implies !key_lt(
                tasks@,
                key,
                v@[q],
                v@[p],
            ) by {
                let wq: usize = if q == m { pre[i as int] } else { pre[q] };
                assert(v@[q] == wq);
                if p < i {
                    assert(v@[p] == pre[p]);
                    assert(!key_lt(tasks@, key, wq, pre[p]));
                } else {
                    assert(p == i);
                    assert(v@[p] == pre[m as int]);
                    assert(!key_lt(tasks@, key, wq, pre[m as int]));
                }
            }
        }
        i = i + 1;
    }
}

// ---------------------------------------------------------------------------
// Small facts the flattening proof leans on
// ---------------------------------------------------------------------------

/// Two store positions that carry the same identity are the same position.
proof fn lemma_same_id(tasks: Seq<Task>, a: int, b: int)
    requires
        ids_distinct(tasks),
        0 <= a < tasks.len(),
        0 <= b < tasks.len(),
        tasks[a].id@ == tasks[b].id@,
    ensures
        a == b,
{
    if a < b {
        assert(tasks[a].id@ != tasks[b].id@);
    }
    if b < a {
        assert(tasks[b].id@ != tasks[a].id@);
    }
}

/// Two display positions carrying the same identity are the same position,
/// given distinct store identities and a duplicate-free display list.
pub proof fn lemma_display_id_unique(tasks: Seq<Task>, d: Seq<usize>, q1: int, q2: int)
    requires
        ids_distinct(tasks),
        entries_valid(tasks, d),
        d.no_duplicates(),
        0 <= q1 < d.len(),
        0 <= q2 < d.len(),
        tasks[d[q1] as int].id@ == tasks[d[q2] as int].id@,
    ensures
        q1 == q2,
{
    lemma_same_id(tasks, d[q1] as int, d[q2] as int);
}

/// A duplicate-free sequence of integers drawn from `[0, n)` has at most
/// `n` entries.
pub(crate) proof fn lemma_distinct_in_range_bound(s: Seq<int>, n: int)
    requires
        n >= 0,
        s.no_duplicates(),
        forall|k: int| 0 <= k < s.len() ==> 0 <= #[trigger] s[k] < n,
    ensures
        s.len() <= n,
{
    broadcast use vstd::seq_lib::group_seq_properties;
    broadcast use vstd::set_lib::group_set_properties;
    broadcast use vstd::set::group_set_axioms;

    s.unique_seq_to_set();
    let range = vstd::set_lib::set_int_range(0, n);
    vstd::set_lib::lemma_int_range(0, n);
    assert(s.to_set().subset_of(range)) by {
        assert forall|x: int| s.to_set().contains(x) implies range.contains(x) by {
            assert(s.contains(x));
            let w = choose|w: int| 0 <= w < s.len() && s[w] == x;
        }
    }
    vstd::set_lib::lemma_len_subset(s.to_set(), range);
}

/// A duplicate-free list of store indices can hold no more entries than the
/// store has tasks.
proof fn lemma_distinct_indices_bound(tasks: Seq<Task>, d: Seq<usize>)
    requires
        entries_valid(tasks, d),
        d.no_duplicates(),
    ensures
        d.len() <= tasks.len(),
{
    let di = d.map_values(|x: usize| x as int);
    assert(di.no_duplicates()) by {
        assert forall|i: int, j: int| 0 <= i < j < di.len() implies di[i] != di[j] by {
            assert(d[i] != d[j]);
        }
    }
    assert forall|k: int| 0 <= k < di.len() implies 0 <= #[trigger] di[k] < tasks.len() as int by {
        assert(d[k] < tasks.len());
    }
    lemma_distinct_in_range_bound(di, tasks.len() as int);
}

/// Sequences with the same multiset of values hold the same values, and one
/// is duplicate-free exactly when the other is.
proof fn lemma_multiset_same_values(a: Seq<usize>, b: Seq<usize>)
    requires
        a.to_multiset() == b.to_multiset(),
    ensures
        forall|x: usize| a.contains(x) <==> b.contains(x),
        a.no_duplicates() ==> b.no_duplicates(),
{
    broadcast use vstd::seq_lib::group_to_multiset_ensures;

    assert forall|x: usize| a.contains(x) <==> b.contains(x) by {
        assert(a.contains(x) <==> a.to_multiset().count(x) > 0);
        assert(b.contains(x) <==> b.to_multiset().count(x) > 0);
    }
    if a.no_duplicates() {
        a.lemma_multiset_has_no_duplicates();
        b.lemma_multiset_has_no_duplicates_conv();
    }
}

// ---------------------------------------------------------------------------
// Child collection
// ---------------------------------------------------------------------------

/// The store indices of the direct children of `tasks[p]`, in store order.
fn collect_children(tasks: &Vec<Task>, p: usize) -> (kids: Vec<usize>)
    requires
        p < tasks@.len(),
    ensures
        forall|i: int, j: int| 0 <= i < j < kids@.len() ==> kids@[i] < kids@[j],
        forall|i: int|
            0 <= i < kids@.len() ==> (#[trigger] kids@[i]) < tasks@.len() && has_parent_id(
                tasks@[kids@[i] as int],
                tasks@[p as int].id@,
            ),
        forall|t: int|
            0 <= t < tasks@.len() && has_parent_id(#[trigger] tasks@[t], tasks@[p as int].id@)
                ==> kids@.contains(t as usize),
        kids@.no_duplicates(),
{
    let mut kids: Vec<usize> = Vec::new();
    let n = tasks.len();
    let mut idx: usize = 0;
    while idx < n
        invariant
            n == tasks@.len(),
            p < tasks@.len(),
            idx <= n,
            forall|i: int, j: int| 0 <= i < j < kids@.len() ==> kids@[i] < kids@[j],
            forall|i: int| 0 <= i < kids@.len() ==> (#[trigger] kids@[i]) < idx,
            forall|i: int|
                0 <= i < kids@.len() ==> has_parent_id(
                    tasks@[(#[trigger] kids@[i]) as int],
                    tasks@[p as int].id@,
                ),
            forall|t: int|
                0 <= t < idx && has_parent_id(#[trigger] tasks@[t], tasks@[p as int].id@)
                    ==> kids@.contains(t as usize),
        decreases n - idx,
    {
        if parent_is(&tasks[idx], &tasks[p].id) {
            let ghost pre = kids@;
            kids.push(idx);
            proof {
                assert(kids@[kids@.len() - 1] == idx);
                assert(forall|i: int| 0 <= i < pre.len() ==> kids@[i] == pre[i]);
                assert forall|t: int|
                    0 <= t < idx + 1 && has_parent_id(#[trigger] tasks@[t], tasks@[p as int].id@)
                        implies kids@.contains(t as usize) by {
                    if t < idx {
                        assert(pre.contains(t as usize));
                        let w = choose|w: int| 0 <= w < pre.len() && pre[w] == t as usize;
                        assert(kids@[w] == t as usize);
                    } else {
                        assert(kids@[kids@.len() - 1] == t as usize);
                    }
                }
            }
        }
        idx = idx + 1;
    }
    proof {
        assert forall|i: int, j: int| 0 <= i < j < kids@.len() implies kids@[i] != kids@[j] by {
            assert(kids@[i] < kids@[j]);
        }
    }
    kids
}

// ---------------------------------------------------------------------------
// Depth-first emission
// ---------------------------------------------------------------------------

/// Append the whole subtree below `tasks[p]` to the display list, children
/// in sibling order, each child immediately followed by its own subtree.
/// `p` itself must have just been emitted as the latest entry.
#[verifier::loop_isolation(false)]
fn push_descendants(tasks: &Vec<Task>, p: usize, display: Vec<usize>) -> (out: Vec<usize>)
    requires
        ids_distinct(tasks@),
        p < tasks@.len(),
        entries_valid(tasks@, display@),
        display@.no_duplicates(),
        display@.len() >= 1,
        display@[display@.len() - 1] == p,
        parents_before(tasks@, display@),
        siblings_ordered(tasks@, display@),
        no_interleaving(tasks@, display@),
        no_displayed_child_of(tasks@, display@, p),
    ensures
        extends(out@, display@),
        entries_valid(tasks@, out@),
        out@.no_duplicates(),
        parents_before(tasks@, out@),
        siblings_ordered(tasks@, out@),
        no_interleaving(tasks@, out@),
        segment_linked(tasks@, out@, display@.len() as int),
        children_closed_from(tasks@, out@, display@.len() - 1),
        forall|k: int|
            display@.len() <= k < out@.len() ==> is_descendant(
                tasks@,
                (#[trigger] out@[k]) as int,
                tasks@[p as int].id@,
            ),
    decreases tasks@.len() - display@.len(),
{
    let ghost old_d = display@;
    let ghost oL = display@.len() as int;
    let mut d = display;
    let mut kids = collect_children(tasks, p);
    let ghost kids0 = kids@;
    sort_indices(tasks, &mut kids, IndexKey::Siblings);
    proof {
        lemma_multiset_same_values(kids0, kids@);
        assert(kids@.no_duplicates());
        assert forall|i: int| 0 <= i < kids@.len() implies (#[trigger] kids@[i]) < tasks@.len()
            && has_parent_id(tasks@[kids@[i] as int], tasks@[p as int].id@) by {
            assert(kids0.contains(kids@[i]));
            let w = choose|w: int| 0 <= w < kids0.len() && kids0[w] == kids@[i];
        }
        assert forall|t: int|
            0 <= t < tasks@.len() && has_parent_id(#[trigger] tasks@[t], tasks@[p as int].id@)
                implies kids@.contains(t as usize) by {
            assert(kids0.contains(t as usize));
        }
    }
    let nk = kids.len();
    let mut k: usize = 0;
    while k < nk
        invariant
            k <= nk,
            nk == kids@.len(),
            extends(d@, old_d),
            d@.len() >= oL,
            entries_valid(tasks@, d@),
            d@.no_duplicates(),
            parents_before(tasks@, d@),
            siblings_ordered(tasks@, d@),
            no_interleaving(tasks@, d@),
            segment_linked(tasks@, d@, oL),
            children_closed_from(tasks@, d@, oL),
            forall|q: int|
                oL <= q < d@.len() ==> is_descendant(
                    tasks@,
                    (#[trigger] d@[q]) as int,
                    tasks@[p as int].id@,
                ),
            forall|j: int| 0 <= j < k ==> d@.contains(#[trigger] kids@[j]),
            forall|q: int|
                0 <= q < d@.len() && has_parent_id(
                    tasks@[#[trigger] d@[q] as int],
                    tasks@[p as int].id@,
                ) ==> exists|j: int| 0 <= j < k && #[trigger] kids@[j] == d@[q],
        decreases nk - k,
    {
        let c = kids[k];
        let ghost prev = d@;
        proof {
            assert(has_parent_id(tasks@[c as int], tasks@[p as int].id@));
            assert(!prev.contains(c)) by {
                if prev.contains(c) {
                    let q = choose|q: int| 0 <= q < prev.len() && prev[q] == c;
                    assert(has_parent_id(
                        tasks@[prev[q] as int],
                        tasks@[p as int].id@,
                    ));
                    let j = choose|j: int| 0 <= j < k && #[trigger] kids@[j] == prev[q];
                    assert(kids@[j] == kids@[k as int]);
                    assert(false);
                }
            }
            assert(prev[oL - 1] == old_d[oL - 1]);
            assert(prev[oL - 1] == p);
        }
        d.push(c);
        let ghost d1 = d@;
        proof {
            assert(d1.len() == prev.len() + 1);
            assert(d1[d1.len() - 1] == c);
            assert(forall|q: int| 0 <= q < prev.len() ==> d1[q] == prev[q]);
            assert(d1.no_duplicates()) by {
                assert forall|i: int, j: int| 0 <= i < j < d1.len() implies d1[i] != d1[j] by {
                    if j == d1.len() - 1 {
                        assert(!prev.contains(c));
                        assert(prev[i] != c);
                    }
                }
            }
            assert(parents_before(tasks@, d1)) by {
                assert forall|q: int|
                    0 <= q < d1.len() && !task_is_root(tasks@[d1[q] as int]) implies exists|j: int|
                    0 <= j < q && #[trigger] parent_link(tasks@, d1, j, q) by {
                    if q < d1.len() - 1 {
                        assert(d1[q] == prev[q]);
                        let j = choose|j: int|
                            0 <= j < q && #[trigger] parent_link(tasks@, prev, j, q);
                        assert(parent_link(tasks@, d1, j, q));
                    } else {
                        assert(d1[oL - 1] == p);
                        assert(parent_link(tasks@, d1, oL - 1, q));
                    }
                }
            }
            assert(siblings_ordered(tasks@, d1)) by {
                assert forall|i: int, j: int|
                    0 <= i < j < d1.len() && #[trigger] same_parent(tasks@, d1[i], d1[j]) implies
                    sib_lt(tasks@, d1[i], d1[j]) by {
                    if j < d1.len() - 1 {
                        assert(same_parent(tasks@, prev[i], prev[j]));
                    } else {
                        assert(d1[j] == c);
                        assert(has_parent_id(
                            tasks@[prev[i] as int],
                            tasks@[p as int].id@,
                        ));
                        let w = choose|w: int| 0 <= w < k && #[trigger] kids@[w] == prev[i];
                        assert(!key_lt(tasks@, IndexKey::Siblings, kids@[k as int], kids@[w]));
                        assert(kids@[w] != kids@[k as int]);
                        assert(sib_lt(tasks@, kids@[w], kids@[k as int]));
                    }
                }
            }
            assert(descends_within(tasks@, c as int, tasks@[p as int].id@, 1nat));
            assert forall|q: int| oL <= q < d1.len() implies is_descendant(
                tasks@,
                (#[trigger] d1[q]) as int,
                tasks@[p as int].id@,
            ) by {
                if q < prev.len() {
                    assert(d1[q] == prev[q]);
                } else {
                    assert(d1[q] == c);
                    assert(is_descendant(tasks@, c as int, tasks@[p as int].id@)) by {
                        assert(descends_within(tasks@, c as int, tasks@[p as int].id@, 1nat));
                    }
                }
            }
            assert(no_interleaving(tasks@, d1)) by {
                assert forall|a: int, b: int, k2: int|
                    0 <= a < b < k2 < d1.len() && has_parent_id(
                        tasks@[#[trigger] d1[k2] as int],
                        tasks@[#[trigger] d1[a] as int].id@,
                    ) implies is_descendant(
                    tasks@,
                    (#[trigger] d1[b]) as int,
                    tasks@[d1[a] as int].id@,
                ) by {
                    if k2 < d1.len() - 1 {
                        assert(d1[a] == prev[a] && d1[b] == prev[b] && d1[k2] == prev[k2]);
                        assert(has_parent_id(
                            tasks@[prev[k2] as int],
                            tasks@[prev[a] as int].id@,
                        ));
                    } else {
                        assert(d1[k2] == c);
                        assert(tasks@[d1[a] as int].id@ == tasks@[p as int].id@);
                        lemma_same_id(tasks@, d1[a] as int, p as int);
                        assert(d1[a] == d1[oL - 1]);
                        assert(a == oL - 1);
                        assert(d1[b] == prev[b]);
                        assert(is_descendant(tasks@, prev[b] as int, tasks@[p as int].id@));
                    }
                }
            }
            assert(no_displayed_child_of(tasks@, d1, c)) by {
                assert forall|q: int| 0 <= q < d1.len() implies !has_parent_id(
                    tasks@[#[trigger] d1[q] as int],
                    tasks@[c as int].id@,
                ) by {
                    if has_parent_id(tasks@[d1[q] as int], tasks@[c as int].id@) {
                        if q == d1.len() - 1 {
                            assert(tasks@[c as int].parent_id->0@ == tasks@[p as int].id@);
                            lemma_same_id(tasks@, p as int, c as int);
                            assert(prev.contains(c));
                            assert(false);
                        } else {
                            assert(d1[q] == prev[q]);
                            assert(!task_is_root(tasks@[prev[q] as int]));
                            let j = choose|j: int|
                                0 <= j < q && #[trigger] parent_link(tasks@, prev, j, q);
                            lemma_same_id(tasks@, prev[j] as int, c as int);
                            assert(prev.contains(prev[j]));
                            assert(false);
                        }
                    }
                }
            }
            lemma_distinct_indices_bound(tasks@, d1);
        }
        d = push_descendants(tasks, c, d);
        let ghost d2 = d@;
        proof {
            assert(extends(d2, d1));
            assert(extends(d2, old_d)) by {
                assert forall|q: int| 0 <= q < old_d.len() implies old_d[q] == d2[q] by {
                    assert(d1[q] == prev[q]);
                    assert(d2[q] == d1[q]);
                }
            }
            assert(d2[oL - 1] == p) by {
                assert(d2[oL - 1] == d1[oL - 1]);
            }
            assert(d2[d1.len() - 1] == c) by {
                assert(d2[d1.len() - 1] == d1[d1.len() - 1]);
            }
            assert(segment_linked(tasks@, d2, oL)) by {
                assert forall|q: int| oL <= q < d2.len() implies (!task_is_root(
                    tasks@[#[trigger] d2[q] as int],
                ) && exists|j: int| oL - 1 <= j < q && #[trigger] parent_link(tasks@, d2, j, q)) by {
                    if q < prev.len() {
                        assert(d2[q] == prev[q]);
                        assert(!task_is_root(tasks@[prev[q] as int]));
                        let j = choose|j: int|
                            oL - 1 <= j < q && #[trigger] parent_link(tasks@, prev, j, q);
                        assert(d2[j] == prev[j]);
                        assert(parent_link(tasks@, d2, j, q));
                    } else if q == prev.len() {
                        assert(d2[q] == c);
                        assert(has_parent_id(tasks@[c as int], tasks@[p as int].id@));
                        assert(!task_is_root(tasks@[d2[q] as int]));
                        assert(parent_link(tasks@, d2, oL - 1, q));
                    } else {
                        assert(d1.len() <= q < d2.len());
                        assert(!task_is_root(tasks@[d2[q] as int]));
                        let j = choose|j: int|
                            d1.len() - 1 <= j < q && #[trigger] parent_link(tasks@, d2, j, q);
                        assert(oL - 1 <= j);
                    }
                }
            }
            assert(children_closed_from(tasks@, d2, oL)) by {
                assert forall|t: int, j: int|
                    0 <= t < tasks@.len() && oL <= j < d2.len() && #[trigger] has_parent_id(
                        tasks@[t],
                        tasks@[#[trigger] d2[j] as int].id@,
                    ) implies d2.contains(t as usize) by {
                    if j < prev.len() {
                        assert(d2[j] == prev[j]);
                        assert(prev.contains(t as usize));
                        let w = choose|w: int| 0 <= w < prev.len() && prev[w] == t as usize;
                        assert(d2[w] == t as usize);
                    }
                }
            }
            assert forall|q: int| oL <= q < d2.len() implies is_descendant(
                tasks@,
                (#[trigger] d2[q]) as int,
                tasks@[p as int].id@,
            ) by {
                if q < prev.len() {
                    assert(d2[q] == prev[q]);
                    assert(is_descendant(tasks@, prev[q] as int, tasks@[p as int].id@));
                } else if q == prev.len() {
                    assert(d2[q] == c);
                    assert(descends_within(tasks@, c as int, tasks@[p as int].id@, 1nat));
                } else {
                    assert(is_descendant(tasks@, d2[q] as int, tasks@[c as int].id@));
                    let fuel = choose|fuel: nat|
                        descends_within(tasks@, d2[q] as int, tasks@[c as int].id@, fuel);
                    lemma_descends_trans(
                        tasks@,
                        d2[q] as int,
                        c as int,
                        tasks@[p as int].id@,
                        fuel,
                        1nat,
                    );
                }
            }
            assert forall|j: int| 0 <= j < k + 1 implies d2.contains(#[trigger] kids@[j]) by {
                if j < k {
                    assert(prev.contains(kids@[j]));
                    let w = choose|w: int| 0 <= w < prev.len() && prev[w] == kids@[j];
                    assert(d2[w] == kids@[j]);
                } else {
                    assert(d2[d1.len() - 1] == c);
                }
            }
            assert forall|q: int|
                0 <= q < d2.len() && has_parent_id(
                    tasks@[#[trigger] d2[q] as int],
                    tasks@[p as int].id@,
                ) implies exists|j: int| 0 <= j < k + 1 && #[trigger] kids@[j] == d2[q] by {
                if q < prev.len() {
                    assert(d2[q] == prev[q]);
                    let j = choose|j: int| 0 <= j < k && #[trigger] kids@[j] == prev[q];
                    assert(kids@[j] == d2[q]);
                } else if q == prev.len() {
                    assert(d2[q] == c);
                    assert(kids@[k as int] == d2[q]);
                } else {
                    assert(d1.len() <= q < d2.len());
                    assert(!task_is_root(tasks@[d2[q] as int]));
                    let j0 = choose|j0: int|
                        d1.len() - 1 <= j0 < q && #[trigger] parent_link(tasks@, d2, j0, q);
                    lemma_same_id(tasks@, d2[j0] as int, p as int);
                    assert(d2[j0] == d2[oL - 1]);
                    assert(j0 == oL - 1);
                    assert(false);
                }
            }
        }
        k = k + 1;
    }
    proof {
        assert(children_closed_from(tasks@, d@, oL - 1)) by {
            assert forall|t: int, j: int|
                0 <= t < tasks@.len() && oL - 1 <= j < d@.len() && #[trigger] has_parent_id(
                    tasks@[t],
                    tasks@[#[trigger] d@[j] as int].id@,
                ) implies d@.contains(t as usize) by {
                if j == oL - 1 {
                    assert(d@[j] == old_d[j]);
                    assert(d@[j] == p);
                    assert(kids@.contains(t as usize));
                    let w = choose|w: int| 0 <= w < kids@.len() && kids@[w] == t as usize;
                    assert(d@.contains(kids@[w]));
                }
            }
        }
    }
    d
}

/// The position of the first display entry that carries `id`, if any.
#[verifier::loop_isolation(false)]
pub fn find_id_position(tasks: &Vec<Task>, d: &Vec<usize>, id: &String) -> (r: Option<usize>)
    requires
        entries_valid(tasks@, d@),
    ensures
        match r {
            Some(q) => (q as int) < d@.len() && tasks@[d@[q as int] as int].id@ == id@ && forall|
                p: int,
            | 0 <= p < q ==> tasks@[(#[trigger] d@[p]) as int].id@ != id@,
            None => forall|p: int|
                0 <= p < d@.len() ==> tasks@[(#[trigger] d@[p]) as int].id@ != id@,
        },
{
    let len = d.len();
    let mut q: usize = 0;
    while q < len
        invariant
            q <= len,
            forall|p: int| 0 <= p < q ==> tasks@[(#[trigger] d@[p]) as int].id@ != id@,
        decreases len - q,
    {
        if tasks[d[q]].id == *id {
            return Some(q);
        }
        q = q + 1;
    }
    None
}

// ---------------------------------------------------------------------------
// The rebuild itself
// ---------------------------------------------------------------------------

/// Build the display list afresh from the store: the roots that pass the
/// filter, in the criterion's order, each immediately followed by its whole
/// subtree, depth-first, siblings ascending by their `order` field.
#[verifier::loop_isolation(false)]
pub fn rebuild_display(tasks: &Vec<Task>, f: &Filter, c: SortCriterion, today: Date) -> (d: Vec<
    usize,
>)
    requires
        ids_distinct(tasks@),
    ensures
        display_ok(tasks@, d@, *f, c, today),
{
    let n_tasks = tasks.len();
    let mut roots = collect_roots(tasks, f, &today);
    let ghost roots0 = roots@;
    proof {
        assert forall|i: int, j: int| 0 <= i < j < roots0.len() implies roots0[i] != roots0[j] by {
            assert(roots0[i] < roots0[j]);
        }
        assert(roots0.no_duplicates());
    }
    sort_indices(tasks, &mut roots, IndexKey::Roots(c));
    proof {
        lemma_multiset_same_values(roots0, roots@);
        assert(roots@.no_duplicates());
        assert forall|i: int| 0 <= i < roots@.len() implies (#[trigger] roots@[i]) < tasks@.len()
            && task_is_root(tasks@[roots@[i] as int]) && root_matches(
            tasks@[roots@[i] as int],
            *f,
            today,
        ) by {
            assert(roots0.contains(roots@[i]));
            let w = choose|w: int| 0 <= w < roots0.len() && roots0[w] == roots@[i];
        }
        assert forall|t: int|
            0 <= t < tasks@.len() && task_is_root(#[trigger] tasks@[t]) && root_matches(
                tasks@[t],
                *f,
                today,
            ) implies roots@.contains(t as usize) by {
            assert(roots0.contains(t as usize));
        }
    }
    let nr = roots.len();
    let mut d: Vec<usize> = Vec::new();
    let mut r: usize = 0;
    while r < nr
        invariant
            r <= nr,
            nr == roots@.len(),
            entries_valid(tasks@, d@),
            d@.no_duplicates(),
            parents_before(tasks@, d@),
            siblings_ordered(tasks@, d@),
            no_interleaving(tasks@, d@),
            children_closed_from(tasks@, d@, 0),
            roots_ordered(tasks@, d@, c),
            forall|j: int| 0 <= j < r ==> d@.contains(#[trigger] roots@[j]),
            forall|q: int|
                0 <= q < d@.len() && task_is_root(tasks@[#[trigger] d@[q] as int]) ==> exists|
                    j: int,
                |
                    0 <= j < r && #[trigger] roots@[j] == d@[q],
        decreases nr - r,
    {
        let root = roots[r];
        let ghost prev = d@;
        proof {
            assert(task_is_root(tasks@[root as int]));
            assert(!prev.contains(root)) by {
                if prev.contains(root) {
                    let q = choose|q: int| 0 <= q < prev.len() && prev[q] == root;
                    assert(task_is_root(tasks@[prev[q] as int]));
                    let j = choose|j: int| 0 <= j < r && #[trigger] roots@[j] == prev[q];
                    assert(roots@[j] == roots@[r as int]);
                    assert(false);
                }
            }
        }
        d.push(root);
        let ghost d1 = d@;
        proof {
            assert(d1.len() == prev.len() + 1);
            assert(d1[d1.len() - 1] == root);
            assert(forall|q: int| 0 <= q < prev.len() ==> d1[q] == prev[q]);
            assert(d1.no_duplicates()) by {
                assert forall|i: int, j: int| 0 <= i < j < d1.len() implies d1[i] != d1[j] by {
                    if j == d1.len() - 1 {
                        assert(!prev.contains(root));
                        assert(prev[i] != root);
                    }
                }
            }
            assert(parents_before(tasks@, d1)) by {
                assert forall|q: int|
                    0 <= q < d1.len() && !task_is_root(tasks@[d1[q] as int]) implies exists|j: int|
                    0 <= j < q && #[trigger] parent_link(tasks@, d1, j, q) by {
                    assert(q < d1.len() - 1);
                    assert(d1[q] == prev[q]);
                    let j = choose|j: int| 0 <= j < q && #[trigger] parent_link(tasks@, prev, j, q);
                    assert(parent_link(tasks@, d1, j, q));
                }
            }
            assert(siblings_ordered(tasks@, d1)) by {
                assert forall|i: int, j: int|
                    0 <= i < j < d1.len() && #[trigger] same_parent(tasks@, d1[i], d1[j]) implies
                    sib_lt(tasks@, d1[i], d1[j]) by {
                    assert(j < d1.len() - 1);
                    assert(same_parent(tasks@, prev[i], prev[j]));
                }
            }
            assert(roots_ordered(tasks@, d1, c)) by {
                assert forall|i: int, j: int|
                    0 <= i < j < d1.len() && task_is_root(tasks@[#[trigger] d1[i] as int])
                        && task_is_root(tasks@[#[trigger] d1[j] as int]) implies root_lt(
                    tasks@,
                    c,
                    d1[i],
                    d1[j],
                ) by {
                    if j == d1.len() - 1 {
                        assert(task_is_root(tasks@[prev[i] as int]));
                        let w = choose|w: int| 0 <= w < r && #[trigger] roots@[w] == prev[i];
                        assert(!key_lt(tasks@, IndexKey::Roots(c), roots@[r as int], roots@[w]));
                        assert(roots@[w] != roots@[r as int]);
                        assert(root_lt(tasks@, c, roots@[w], roots@[r as int]));
                    } else {
                        assert(root_lt(tasks@, c, prev[i], prev[j]));
                    }
                }
            }
            assert(no_interleaving(tasks@, d1)) by {
                assert forall|a: int, b: int, k2: int|
                    0 <= a < b < k2 < d1.len() && has_parent_id(
                        tasks@[#[trigger] d1[k2] as int],
                        tasks@[#[trigger] d1[a] as int].id@,
                    ) implies is_descendant(
                    tasks@,
                    (#[trigger] d1[b]) as int,
                    tasks@[d1[a] as int].id@,
                ) by {
                    if k2 == d1.len() - 1 {
                        assert(d1[k2] == root);
                        assert(task_is_root(tasks@[root as int]));
                        assert(false);
                    } else {
                        assert(d1[a] == prev[a] && d1[b] == prev[b] && d1[k2] == prev[k2]);
                        assert(has_parent_id(
                            tasks@[prev[k2] as int],
                            tasks@[prev[a] as int].id@,
                        ));
                    }
                }
            }
            assert(no_displayed_child_of(tasks@, d1, root)) by {
                assert forall|q: int| 0 <= q < d1.len() implies !has_parent_id(
                    tasks@[#[trigger] d1[q] as int],
                    tasks@[root as int].id@,
                ) by {
                    if has_parent_id(tasks@[d1[q] as int], tasks@[root as int].id@) {
                        if q == d1.len() - 1 {
                            assert(false);
                        } else {
                            assert(d1[q] == prev[q]);
                            assert(!task_is_root(tasks@[prev[q] as int]));
                            let j = choose|j: int|
                                0 <= j < q && #[trigger] parent_link(tasks@, prev, j, q);
                            lemma_same_id(tasks@, prev[j] as int, root as int);
                            assert(prev.contains(prev[j]));
                            assert(false);
                        }
                    }
                }
            }
            lemma_distinct_indices_bound(tasks@, d1);
        }
        d = push_descendants(tasks, root, d);
        let ghost d2 = d@;
        proof {
            assert(extends(d2, d1));
            assert(d2[d1.len() - 1] == root) by {
                assert(d2[d1.len() - 1] == d1[d1.len() - 1]);
            }
            assert(children_closed_from(tasks@, d2, 0)) by {
                assert forall|t: int, j: int|
                    0 <= t < tasks@.len() && 0 <= j < d2.len() && #[trigger] has_parent_id(
                        tasks@[t],
                        tasks@[#[trigger] d2[j] as int].id@,
                    ) implies d2.contains(t as usize) by {
                    if j < prev.len() {
                        assert(d2[j] == d1[j]);
                        assert(d1[j] == prev[j]);
                        assert(prev.contains(t as usize));
                        let w = choose|w: int| 0 <= w < prev.len() && prev[w] == t as usize;
                        assert(d2[w] == t as usize);
                    }
                }
            }
            assert(roots_ordered(tasks@, d2, c)) by {
                assert forall|i: int, j: int|
                    0 <= i < j < d2.len() && task_is_root(tasks@[#[trigger] d2[i] as int])
                        && task_is_root(tasks@[#[trigger] d2[j] as int]) implies root_lt(
                    tasks@,
                    c,
                    d2[i],
                    d2[j],
                ) by {
                    assert(j < d1.len());
                    assert(d2[i] == d1[i] && d2[j] == d1[j]);
                    assert(root_lt(tasks@, c, d1[i], d1[j]));
                }
            }
            assert forall|j: int| 0 <= j < r + 1 implies d2.contains(#[trigger] roots@[j]) by {
                if j < r {
                    assert(prev.contains(roots@[j]));
                    let w = choose|w: int| 0 <= w < prev.len() && prev[w] == roots@[j];
                    assert(d2[w] == roots@[j]);
                } else {
                    assert(d2[d1.len() - 1] == roots@[j]);
                }
            }
            assert forall|q: int|
                0 <= q < d2.len() && task_is_root(tasks@[#[trigger] d2[q] as int]) implies exists|
                    j: int,
                |
                    0 <= j < r + 1 && #[trigger] roots@[j] == d2[q] by {
                if q < prev.len() {
                    assert(d2[q] == prev[q]);
                    let j = choose|j: int| 0 <= j < r && #[trigger] roots@[j] == prev[q];
                    assert(roots@[j] == d2[q]);
                } else if q == prev.len() {
                    assert(roots@[r as int] == d2[q]);
                } else {
                    assert(d1.len() <= q < d2.len());
                    assert(!task_is_root(tasks@[d2[q] as int]));
                    assert(false);
                }
            }
        }
        r = r + 1;
    }
    proof {
        assert(roots_exact(tasks@, d@, *f, today)) by {
            assert forall|t: int|
                0 <= t < tasks@.len() && task_is_root(#[trigger] tasks@[t]) implies (d@.contains(
                t as usize,
            ) <==> root_matches(tasks@[t], *f, today)) by {
                assert(t < n_tasks as int);
                assert((t as usize) as int == t);
                if root_matches(tasks@[t], *f, today) {
                    assert(roots@.contains(t as usize));
                    let j = choose|j: int| 0 <= j < roots@.len() && roots@[j] == t as usize;
                    assert(d@.contains(roots@[j]));
                }
                if d@.contains(t as usize) {
                    let q = choose|q: int| 0 <= q < d@.len() && d@[q] == t as usize;
                    assert(d@[q] as int == t);
                    assert(task_is_root(tasks@[d@[q] as int]));
                    let j = choose|j: int| 0 <= j < nr && #[trigger] roots@[j] == d@[q];
                    assert(root_matches(tasks@[roots@[j] as int], *f, today));
                }
            }
        }
    }
    d
}

} // verus!

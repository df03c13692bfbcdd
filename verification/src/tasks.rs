use vstd::prelude::*;
use crate::clock::today_local;
use crate::display::{display_ok, rebuild_display, find_id_position};
use crate::selection::SelectionState;

verus! {

/// A calendar date, counted in whole days from the start of the common era.
/// Two dates compare exactly as their day counts do.
#[derive(Clone, Copy, Debug, PartialEq, Eq, Structural)]
pub struct Date {
    pub days: i32,
}

impl Date {
    /// `self` falls strictly before `other`.
    pub open spec fn spec_before(self, other: Date) -> bool {
        self.days < other.days
    }

    /// `self` falls strictly before `other` on the calendar.
    pub fn before(&self, other: &Date) -> (r: bool)
        ensures
            r == self.spec_before(*other),
    {
        self.days < other.days
    }
}

/// An expected amount of work, an opaque payload attribute.
#[derive(Debug, Clone)]
pub struct Duration {
    pub amount: u32,
    pub unit: String,
}

/// When a task is due: a calendar date plus opaque presentation attributes.
#[derive(Debug, Clone)]
pub struct Due {
    pub string: String,
    pub date: Date,
    pub is_recurring: bool,
    pub datetime: Option<String>,
    pub timezone: Option<String>,
}

/// A node of the task forest. `parent_id` refers to another task by
/// identity; `None` marks a root. `order` fixes the display order among
/// siblings; `priority` runs from 1 (highest) to 4.
#[derive(Debug, Clone)]
pub struct Task {
    pub id: String,
    pub project_id: String,
    pub section_id: Option<String>,
    pub content: String,
    pub description: String,
    pub is_completed: bool,
    pub labels: Vec<String>,
    pub parent_id: Option<String>,
    pub order: i32,
    pub priority: u8,
    pub due: Option<Due>,
    pub url: String,
    pub comment_count: u16,
    pub created_at: String,
    pub creator_id: String,
    pub assignee_id: Option<String>,
    pub assigner_id: Option<String>,
    pub duration: Option<Duration>,
}

/// How the roots of the display list are ordered.
#[derive(Debug, Clone, Copy)]
pub enum SortCriterion {
    Priority,
    Date,
}

/// The membership test applied to root tasks when the display list is
/// rebuilt. A root's whole subtree is shown or hidden as a unit.
#[derive(Debug, Clone)]
pub enum Filter {
    All,
    Today,
    Overdue,
    ProjectId(String),
}

impl Default for Filter {
    /// Every root is shown until a narrower filter is chosen.
    fn default() -> (f: Filter)
        ensures
            f is All,
    {
        Filter::All
    }
}

/// The task has no parent reference.
pub open spec fn task_is_root(t: Task) -> bool {
    t.parent_id is None
}

/// Whether a root task passes the filter, judged on the root's own
/// attributes alone, with `today` supplied by the caller's clock.
pub open spec fn root_matches(t: Task, f: Filter, today: Date) -> bool {
    match f {
        Filter::All => true,
        Filter::Today => t.due is Some && t.due->0.date.days == today.days,
        Filter::Overdue => t.due is Some && t.due->0.date.days < today.days,
        Filter::ProjectId(pid) => t.project_id@ == pid@,
    }
}

/// Every task carries its own identity: no two tasks share one.
pub open spec fn ids_distinct(tasks: Seq<Task>) -> bool {
    forall|i: int, j: int| 0 <= i < j < tasks.len() ==> tasks[i].id@ != tasks[j].id@
}

/// `t` names `pid` as its parent.
pub open spec fn has_parent_id(t: Task, pid: Seq<char>) -> bool {
    t.parent_id is Some && t.parent_id->0@ == pid
}

/// Exec mirror of `has_parent_id`.
pub fn parent_is(t: &Task, id: &String) -> (r: bool)
    ensures
        r == has_parent_id(*t, id@),
{
    match &t.parent_id {
        Some(p) => *p == *id,
        None => false,
    }
}

/// Exec mirror of `root_matches`.
pub fn root_matches_exec(t: &Task, f: &Filter, today: &Date) -> (r: bool)
    ensures
        r == root_matches(*t, *f, *today),
{
    match f {
        Filter::All => true,
        Filter::Today => match &t.due {
            Some(d) => d.date.days == today.days,
            None => false,
        },
        Filter::Overdue => match &t.due {
            Some(d) => d.date.days < today.days,
            None => false,
        },
        Filter::ProjectId(pid) => t.project_id == *pid,
    }
}

// ---------------------------------------------------------------------------
// The descendant relation
// ---------------------------------------------------------------------------

/// `tasks[i]` lies strictly below the task with identity `anc`, reached by
/// at most `fuel` upward steps along parent references.
pub open spec fn descends_within(tasks: Seq<Task>, i: int, anc: Seq<char>, fuel: nat) -> bool
    decreases fuel,
{
    &&& fuel > 0
    &&& 0 <= i < tasks.len()
    &&& tasks[i].parent_id is Some
    &&& {
        ||| tasks[i].parent_id->0@ == anc
        ||| exists|j: int|
            0 <= j < tasks.len() && (#[trigger] tasks[j]).id@ == tasks[i].parent_id->0@
                && descends_within(tasks, j, anc, (fuel - 1) as nat)
    }
}

/// `tasks[i]` is a strict descendant of the task with identity `anc`:
/// its chain of parent references reaches `anc` in some number of steps.
pub open spec fn is_descendant(tasks: Seq<Task>, i: int, anc: Seq<char>) -> bool {
    exists|fuel: nat| descends_within(tasks, i, anc, fuel)
}

/// More fuel never hurts: a chain that fits in `f` steps fits in `g >= f`.
pub proof fn lemma_descends_mono(tasks: Seq<Task>, i: int, anc: Seq<char>, f: nat, g: nat)
    requires
        descends_within(tasks, i, anc, f),
        f <= g,
    ensures
        descends_within(tasks, i, anc, g),
    decreases f,
{
    if tasks[i].parent_id->0@ == anc {
    } else {
        let j = choose|j: int|
            0 <= j < tasks.len() && (#[trigger] tasks[j]).id@ == tasks[i].parent_id->0@
                && descends_within(tasks, j, anc, (f - 1) as nat);
        lemma_descends_mono(tasks, j, anc, (f - 1) as nat, (g - 1) as nat);
    }
}

/// Chains compose: below `tasks[mid]` and `tasks[mid]` below `anc` puts a
/// task below `anc`.
pub proof fn lemma_descends_trans(
    tasks: Seq<Task>,
    x: int,
    mid: int,
    anc: Seq<char>,
    f: nat,
    g: nat,
)
    requires
        0 <= mid < tasks.len(),
        descends_within(tasks, x, tasks[mid].id@, f),
        descends_within(tasks, mid, anc, g),
    ensures
        descends_within(tasks, x, anc, f + g),
    decreases f,
{
    if tasks[x].parent_id->0@ == tasks[mid].id@ {
        lemma_descends_mono(tasks, mid, anc, g, (f + g - 1) as nat);
    } else {
        let j = choose|j: int|
            0 <= j < tasks.len() && (#[trigger] tasks[j]).id@ == tasks[x].parent_id->0@
                && descends_within(tasks, j, tasks[mid].id@, (f - 1) as nat);
        lemma_descends_trans(tasks, j, mid, anc, (f - 1) as nat, g);
    }
}

// ---------------------------------------------------------------------------
// Child tallies
// ---------------------------------------------------------------------------

/// A recorded tally: how many tasks name `parent_id` as their parent.
#[derive(Debug, Clone)]
pub struct ChildCount {
    pub parent_id: String,
    pub count: u16,
}

/// How many tasks of the store name `pid` as their parent.
pub open spec fn child_count(tasks: Seq<Task>, pid: Seq<char>) -> int
    decreases tasks.len(),
{
    if tasks.len() == 0 {
        0int
    } else {
        child_count(tasks.drop_last(), pid) + if has_parent_id(tasks.last(), pid) {
            1int
        } else {
            0int
        }
    }
}

/// Some recorded tally is keyed by `pid`.
pub open spec fn has_count_entry(twc: Seq<ChildCount>, pid: Seq<char>) -> bool {
    exists|e: int| 0 <= e < twc.len() && (#[trigger] twc[e]).parent_id@ == pid
}

/// The tally table is right and complete: one entry for each referenced
/// parent identity, keys never repeated, each carrying the exact number of
/// direct children.
pub open spec fn counts_ok(tasks: Seq<Task>, twc: Seq<ChildCount>) -> bool {
    &&& forall|e: int|
        0 <= e < twc.len() ==> (#[trigger] twc[e]).count as int == child_count(
            tasks,
            twc[e].parent_id@,
        ) && twc[e].count > 0
    &&& forall|e1: int, e2: int|
        0 <= e1 < e2 < twc.len() ==> (#[trigger] twc[e1]).parent_id@ != (
        #[trigger] twc[e2]).parent_id@
    &&& forall|i: int|
        0 <= i < tasks.len() && (#[trigger] tasks[i]).parent_id is Some ==> has_count_entry(
            twc,
            tasks[i].parent_id->0@,
        )
}

/// A task that names `pid` as parent makes the tally positive.
proof fn lemma_child_count_positive(tasks: Seq<Task>, pid: Seq<char>, i: int)
    requires
        0 <= i < tasks.len(),
        has_parent_id(tasks[i], pid),
    ensures
        child_count(tasks, pid) >= 1,
    decreases tasks.len(),
{
    lemma_child_count_bound(tasks.drop_last(), pid);
    if i == tasks.len() - 1 {
        assert(tasks.last() == tasks[i]);
    } else {
        assert(tasks.drop_last()[i] == tasks[i]);
        lemma_child_count_positive(tasks.drop_last(), pid, i);
    }
}

/// The tally never exceeds the store size.
proof fn lemma_child_count_bound(tasks: Seq<Task>, pid: Seq<char>)
    ensures
        0 <= child_count(tasks, pid) <= tasks.len(),
    decreases tasks.len(),
{
    if tasks.len() > 0 {
        lemma_child_count_bound(tasks.drop_last(), pid);
    }
}

/// Count the direct children of the task with identity `id`.
#[verifier::loop_isolation(false)]
fn count_children_of(tasks: &Vec<Task>, id: &String) -> (c: u16)
    requires
        tasks@.len() <= u16::MAX,
    ensures
        c as int == child_count(tasks@, id@),
{
    let mut c: u16 = 0;
    let n = tasks.len();
    let mut idx: usize = 0;
    while idx < n
        invariant
            idx <= n,
            c as int == child_count(tasks@.subrange(0, idx as int), id@),
            c <= idx,
        decreases n - idx,
    {
        let hit = parent_is(&tasks[idx], id);
        proof {
            let pre = tasks@.subrange(0, idx as int);
            let post = tasks@.subrange(0, idx + 1);
            assert(post.drop_last() =~= pre);
            assert(post.last() == tasks@[idx as int]);
        }
        if hit {
            c = c + 1;
        }
        idx = idx + 1;
    }
    proof {
        assert(tasks@.subrange(0, n as int) =~= tasks@);
    }
    c
}

/// Whether the tally table already has an entry keyed by `pid`.
#[verifier::loop_isolation(false)]
fn has_count_entry_exec(twc: &Vec<ChildCount>, pid: &String) -> (r: bool)
    ensures
        r == has_count_entry(twc@, pid@),
{
    let len = twc.len();
    let mut e: usize = 0;
    while e < len
        invariant
            e <= len,
            forall|w: int| 0 <= w < e ==> (#[trigger] twc@[w]).parent_id@ != pid@,
        decreases len - e,
    {
        if twc[e].parent_id == *pid {
            return true;
        }
        e = e + 1;
    }
    false
}

// ---------------------------------------------------------------------------
// The task list and its cursor
// ---------------------------------------------------------------------------

/// The store index under the cursor, bounds-checked: a stale or
/// out-of-range selection reads as nothing selected.
pub open spec fn spec_selected_index(t: Tasks) -> Option<usize> {
    match t.state.selected {
        Some(i) => if (i as int) < t.display_tasks@.len() && (t.display_tasks@[i as int] as int)
            < t.tasks@.len() {
            Some(t.display_tasks@[i as int])
        } else {
            None
        },
        None => None,
    }
}

/// The identity under the selection, when the position is in range and its
/// entry indexes into the store; re-anchoring goes by this identity.
pub open spec fn anchor_id(tasks: Seq<Task>, d: Seq<usize>, sel: Option<usize>) -> Option<
    Seq<char>,
> {
    match sel {
        Some(i) => if (i as int) < d.len() && (d[i as int] as int) < tasks.len() {
            Some(tasks[d[i as int] as int].id@)
        } else {
            None
        },
        None => None,
    }
}

/// Position `q` of `d` carries the identity `id`.
pub open spec fn display_has_id(tasks: Seq<Task>, d: Seq<usize>, id: Seq<char>, q: int) -> bool {
    0 <= q < d.len() && tasks[d[q] as int].id@ == id
}

/// Where a rebuild leaves the cursor: the anchored identity's new position
/// where it survived, the top of a non-empty list where it did not, and no
/// selection where no identity was anchored — an absent selection stays
/// absent, and a stale out-of-range position reads as no selection rather
/// than surviving the rebuild. The scroll offset is kept throughout.
pub open spec fn reanchored(pre: Tasks, post: Tasks) -> bool {
    match anchor_id(pre.tasks@, pre.display_tasks@, pre.state.selected) {
        None => post.state.selected is None && post.state.offset == pre.state.offset,
        Some(aid) => {
            &&& post.state.offset == pre.state.offset
            &&& forall|q: int|
                display_has_id(post.tasks@, post.display_tasks@, aid, q)
                    ==> post.state.selected == Some(q as usize)
            &&& !(exists|q: int| display_has_id(post.tasks@, post.display_tasks@, aid, q))
                ==> post.state.selected == (if post.display_tasks@.len() > 0 {
                Some(0usize)
            } else {
                None::<usize>
            })
        },
    }
}

/// Where the cursor lands after one step forward: wraps past the end.
pub open spec fn next_position(sel: Option<usize>, len: int) -> int {
    match sel {
        Some(i) => if i as int >= len - 1 {
            0int
        } else {
            i as int + 1
        },
        None => 0int,
    }
}

/// Where the cursor lands after one step back: wraps before the start; a
/// stale out-of-range position reads as no selection and lands on the top.
pub open spec fn prev_position(sel: Option<usize>, len: int) -> int {
    match sel {
        Some(i) => if i as int >= len {
            0int
        } else if i as int == 0 {
            len - 1
        } else {
            i as int - 1
        },
        None => 0int,
    }
}

/// The flat task store together with the structures presented to the user:
/// the active filter, the flattened display list, the cursor into it, and
/// the child tallies.
#[derive(Debug)]
pub struct Tasks {
    pub tasks: Vec<Task>,
    pub filter: Filter,
    pub state: SelectionState,
    pub tasks_with_children: Vec<ChildCount>,
    pub display_tasks: Vec<usize>,
}

impl Tasks {
    /// A fresh list over the given store: everything shown, nothing
    /// selected, no display list built yet.
    pub fn new(items: Vec<Task>) -> (t: Tasks)
        ensures
            t.tasks@ == items@,
            t.filter is All,
            t.state.selected is None,
            t.state.offset == 0,
            t.tasks_with_children@.len() == 0,
            t.display_tasks@.len() == 0,
    {
        Tasks {
            tasks: items,
            filter: Filter::All,
            state: SelectionState { selected: None, offset: 0 },
            tasks_with_children: Vec::new(),
            display_tasks: Vec::new(),
        }
    }

    /// Tally the direct children of every referenced parent identity.
    #[verifier::loop_isolation(false)]
    pub fn find_tasks_with_children(&mut self)
        requires
            old(self).tasks@.len() <= u16::MAX,
        ensures
            final(self).tasks == old(self).tasks,
            final(self).filter == old(self).filter,
            final(self).state == old(self).state,
            final(self).display_tasks == old(self).display_tasks,
            counts_ok(final(self).tasks@, final(self).tasks_with_children@),
    {
        let mut twc: Vec<ChildCount> = Vec::new();
        let n = self.tasks.len();
        let mut i: usize = 0;
        while i < n
            invariant
                i <= n,
                self.tasks == old(self).tasks,
                forall|e: int|
                    0 <= e < twc@.len() ==> (#[trigger] twc@[e]).count as int == child_count(
                        self.tasks@,
                        twc@[e].parent_id@,
                    ) && twc@[e].count > 0,
                forall|e1: int, e2: int|
                    0 <= e1 < e2 < twc@.len() ==> (#[trigger] twc@[e1]).parent_id@ != (
                    #[trigger] twc@[e2]).parent_id@,
                forall|t: int|
                    0 <= t < i && (#[trigger] self.tasks@[t]).parent_id is Some ==> has_count_entry(
                        twc@,
                        self.tasks@[t].parent_id->0@,
                    ),
            decreases n - i,
        {
            let listed = match &self.tasks[i].parent_id {
                Some(pid) => has_count_entry_exec(&twc, pid),
                None => true,
            };
            if !listed {
                let ghost pre = twc@;
                let pid = match &self.tasks[i].parent_id {
                    Some(pid) => pid.clone(),
                    None => String::new(),
                };
                let c = count_children_of(&self.tasks, &pid);
                proof {
                    lemma_child_count_positive(self.tasks@, pid@, i as int);
                }
                twc.push(ChildCount { parent_id: pid, count: c });
                proof {
                    assert(forall|e: int| 0 <= e < pre.len() ==> twc@[e] == pre[e]);
                    assert(twc@[twc@.len() - 1].parent_id@ == self.tasks@[i as int].parent_id->0@);
                    assert forall|t: int|
                        0 <= t < i + 1 && (#[trigger] self.tasks@[t]).parent_id is Some implies
                        has_count_entry(twc@, self.tasks@[t].parent_id->0@) by {
                        if t < i && has_count_entry(pre, self.tasks@[t].parent_id->0@) {
                            let e = choose|e: int|
                                0 <= e < pre.len() && (#[trigger] pre[e]).parent_id@
                                    == self.tasks@[t].parent_id->0@;
                            assert(twc@[e].parent_id@ == self.tasks@[t].parent_id->0@);
                        }
                    }
                }
            } else {
                proof {
                    assert forall|t: int|
                        0 <= t < i + 1 && (#[trigger] self.tasks@[t]).parent_id is Some implies
                        has_count_entry(twc@, self.tasks@[t].parent_id->0@) by {}
                }
            }
            i = i + 1;
        }
        self.tasks_with_children = twc;
    }

    /// Rebuild the display list for the active filter, roots ordered by
    /// priority, and place the cursor at the top when asked to.
    #[verifier::loop_isolation(false)]
    pub fn filter_task_list_on(&mut self, auto_select: bool, today: Date)
        requires
            ids_distinct(old(self).tasks@),
        ensures
            final(self).tasks == old(self).tasks,
            final(self).filter == old(self).filter,
            final(self).tasks_with_children == old(self).tasks_with_children,
            display_ok(
                final(self).tasks@,
                final(self).display_tasks@,
                final(self).filter,
                SortCriterion::Priority,
                today,
            ),
            final(self).state.offset == 0,
            final(self).state.selected == (if auto_select && final(self).display_tasks@.len() > 0 {
                Some(0usize)
            } else {
                None::<usize>
            }),
    {
        self.state = SelectionState { selected: None, offset: 0 };
        let d = rebuild_display(&self.tasks, &self.filter, SortCriterion::Priority, today);
        self.display_tasks = d;
        if auto_select && self.display_tasks.len() > 0 {
            self.state.select(Some(0));
        }
    }

    /// As `filter_task_list_on`, with "today" read fresh from the local
    /// clock for the date filters.
    pub fn filter_task_list(&mut self, auto_select: bool)
        requires
            ids_distinct(old(self).tasks@),
        ensures
            final(self).tasks == old(self).tasks,
            final(self).filter == old(self).filter,
            final(self).tasks_with_children == old(self).tasks_with_children,
            exists|today: Date|
                #[trigger] display_ok(
                    final(self).tasks@,
                    final(self).display_tasks@,
                    final(self).filter,
                    SortCriterion::Priority,
                    today,
                ),
            final(self).state.offset == 0,
            final(self).state.selected == (if auto_select && final(self).display_tasks@.len() > 0 {
                Some(0usize)
            } else {
                None::<usize>
            }),
    {
        let today = today_local();
        self.filter_task_list_on(auto_select, today);
    }

    /// Rebuild the display list with roots ordered by the criterion, and
    /// re-anchor the cursor on the identity it was resting on.
    pub fn sort_tasks_on(&mut self, criterion: SortCriterion, today: Date)
        requires
            ids_distinct(old(self).tasks@),
        ensures
            final(self).tasks == old(self).tasks,
            final(self).filter == old(self).filter,
            final(self).tasks_with_children == old(self).tasks_with_children,
            display_ok(
                final(self).tasks@,
                final(self).display_tasks@,
                final(self).filter,
                criterion,
                today,
            ),
            reanchored(*old(self), *final(self)),
    {
        let ghost pre = *self;
        let anchor: Option<String> = match self.state.selected() {
            Some(i) => {
                if i < self.display_tasks.len() {
                    let idx = self.display_tasks[i];
                    if idx < self.tasks.len() {
                        Some(self.tasks[idx].id.clone())
                    } else {
                        None
                    }
                } else {
                    None
                }
            },
            None => None,
        };
        proof {
            assert(match anchor {
                Some(a) => anchor_id(pre.tasks@, pre.display_tasks@, pre.state.selected) == Some(
                    a@,
                ),
                None => anchor_id(pre.tasks@, pre.display_tasks@, pre.state.selected) is None,
            });
        }
        let d = rebuild_display(&self.tasks, &self.filter, criterion, today);
        self.display_tasks = d;
        let ghost aid_g = anchor_id(pre.tasks@, pre.display_tasks@, pre.state.selected)->0;
        match &anchor {
            Some(aid) => {
                proof {
                    assert(aid_g == aid@);
                }
                match find_id_position(&self.tasks, &self.display_tasks, aid) {
                    Some(q) => {
                        self.state.select(Some(q));
                        proof {
                            assert(reanchored(pre, *self)) by {
                                assert(display_has_id(
                                    self.tasks@,
                                    self.display_tasks@,
                                    aid_g,
                                    q as int,
                                ));
                                assert forall|q2: int|
                                    display_has_id(
                                        self.tasks@,
                                        self.display_tasks@,
                                        aid_g,
                                        q2,
                                    ) implies self.state.selected == Some(q2 as usize) by {
                                    crate::display::lemma_display_id_unique(
                                        self.tasks@,
                                        self.display_tasks@,
                                        q as int,
                                        q2,
                                    );
                                }
                            }
                        }
                    },
                    None => {
                        if self.display_tasks.len() > 0 {
                            self.state.select(Some(0));
                        } else {
                            self.state.select(None);
                        }
                        proof {
                            assert(reanchored(pre, *self)) by {
                                assert(!(exists|q2: int|
                                    display_has_id(self.tasks@, self.display_tasks@, aid_g, q2)))
                                    by {
                                    if exists|q2: int|
                                        display_has_id(
                                            self.tasks@,
                                            self.display_tasks@,
                                            aid_g,
                                            q2,
                                        ) {
                                        let q2 = choose|q2: int|
                                            display_has_id(
                                                self.tasks@,
                                                self.display_tasks@,
                                                aid_g,
                                                q2,
                                            );
                                        assert(self.tasks@[(
                                        #[trigger] self.display_tasks@[q2]) as int].id@ != aid@);
                                        assert(false);
                                    }
                                }
                            }
                        }
                    },
                }
            },
            None => {
                self.state.select(None);
                proof {
                    assert(reanchored(pre, *self));
                }
            },
        }
    }

    /// As `sort_tasks_on`, with "today" read fresh from the local clock.
    pub fn sort_tasks(&mut self, criterion: SortCriterion)
        requires
            ids_distinct(old(self).tasks@),
        ensures
            final(self).tasks == old(self).tasks,
            final(self).filter == old(self).filter,
            final(self).tasks_with_children == old(self).tasks_with_children,
            exists|today: Date|
                #[trigger] display_ok(
                    final(self).tasks@,
                    final(self).display_tasks@,
                    final(self).filter,
                    criterion,
                    today,
                ),
            reanchored(*old(self), *final(self)),
    {
        let today = today_local();
        self.sort_tasks_on(criterion, today);
    }

    /// Step the cursor forward, wrapping past the end; an empty display
    /// list always leaves it on nothing.
    pub fn next(&mut self)
        ensures
            final(self).tasks == old(self).tasks,
            final(self).filter == old(self).filter,
            final(self).tasks_with_children == old(self).tasks_with_children,
            final(self).display_tasks == old(self).display_tasks,
            final(self).state.offset == old(self).state.offset,
            old(self).display_tasks@.len() == 0 ==> final(self).state.selected is None,
            old(self).display_tasks@.len() > 0 ==> final(self).state.selected == Some(
                next_position(
                    old(self).state.selected,
                    old(self).display_tasks@.len() as int,
                ) as usize,
            ),
    {
        if self.display_tasks.len() == 0 {
            self.state.select(None);
            return ;
        }
        let i: usize = match self.state.selected() {
            Some(i) => {
                if i >= self.display_tasks.len() - 1 {
                    0
                } else {
                    i + 1
                }
            },
            None => 0,
        };
        self.state.select(Some(i));
    }

    /// Step the cursor back, wrapping before the start; an empty display
    /// list always leaves it on nothing, and a stale out-of-range position
    /// reads as no selection, so the step lands on the top.
    pub fn previous(&mut self)
        ensures
            final(self).tasks == old(self).tasks,
            final(self).filter == old(self).filter,
            final(self).tasks_with_children == old(self).tasks_with_children,
            final(self).display_tasks == old(self).display_tasks,
            final(self).state.offset == old(self).state.offset,
            old(self).display_tasks@.len() == 0 ==> final(self).state.selected is None,
            old(self).display_tasks@.len() > 0 ==> final(self).state.selected == Some(
                prev_position(
                    old(self).state.selected,
                    old(self).display_tasks@.len() as int,
                ) as usize,
            ),
    {
        if self.display_tasks.len() == 0 {
            self.state.select(None);
            return ;
        }
        let i: usize = match self.state.selected() {
            Some(i) => {
                if i >= self.display_tasks.len() {
                    0
                } else if i == 0 {
                    self.display_tasks.len() - 1
                } else {
                    i - 1
                }
            },
            None => 0,
        };
        self.state.select(Some(i));
    }

    /// Drop the highlight but keep the scroll position.
    pub fn unselect(&mut self)
        ensures
            final(self).tasks == old(self).tasks,
            final(self).filter == old(self).filter,
            final(self).tasks_with_children == old(self).tasks_with_children,
            final(self).display_tasks == old(self).display_tasks,
            final(self).state.selected is None,
            final(self).state.offset == old(self).state.offset,
    {
        let offset = self.state.offset();
        self.state.select(None);
        self.state.set_offset(offset);
    }

    /// The store index under the cursor, bounds-checked as
    /// `spec_selected_index` says: never a position that could fault.
    pub fn selected_task_index(&self) -> (r: Option<usize>)
        ensures
            r == spec_selected_index(*self),
    {
        match self.state.selected() {
            Some(i) => {
                if i < self.display_tasks.len() {
                    let idx = self.display_tasks[i];
                    if idx < self.tasks.len() {
                        Some(idx)
                    } else {
                        None
                    }
                } else {
                    None
                }
            },
            None => None,
        }
    }

    /// Give the task under the cursor a new priority; with nothing validly
    /// selected the store is left alone.
    pub fn set_selected_priority(&mut self, priority: u8)
        ensures
            final(self).filter == old(self).filter,
            final(self).state == old(self).state,
            final(self).tasks_with_children == old(self).tasks_with_children,
            final(self).display_tasks == old(self).display_tasks,
            match spec_selected_index(*old(self)) {
                Some(idx) => final(self).tasks@ == old(self).tasks@.update(
                    idx as int,
                    Task { priority, ..old(self).tasks@[idx as int] },
                ),
                None => final(self).tasks == old(self).tasks,
            },
    {
        match self.selected_task_index() {
            Some(idx) => {
                self.tasks[idx].priority = priority;
            },
            None => {},
        }
    }
}

impl Default for Tasks {
    /// An empty store showing everything.
    fn default() -> (t: Tasks)
        ensures
            t.tasks@.len() == 0,
            t.filter is All,
            t.state.selected is None,
            t.state.offset == 0,
            t.tasks_with_children@.len() == 0,
            t.display_tasks@.len() == 0,
    {
        Tasks {
            tasks: Vec::new(),
            filter: Filter::All,
            state: SelectionState { selected: None, offset: 0 },
            tasks_with_children: Vec::new(),
            display_tasks: Vec::new(),
        }
    }
}

} // verus!

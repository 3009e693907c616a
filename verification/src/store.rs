use crate::tags::{
    is_substring, lower_seq, lower_vec, spec_parse, contains_sub, parse_task_description, lex_le,
};
use crate::task::{DateTime, Date, Priority, Task, TaskStatus, TaskView, spec_next_status, next_status};
use vstd::prelude::*;
use vstd::set_lib::{set_int_range, lemma_int_range, lemma_len_subset};

verus! {

// ---------------------------------------------------------------------------
// Filter state
// ---------------------------------------------------------------------------

/// What can go wrong around persistence: the file cannot be opened, its
/// text fits neither schema, or it cannot be written. Reading and writing
/// the file itself is the caller's side; the store reports corruption.
#[derive(Debug, Clone, Copy, PartialEq, Eq, Structural)]
pub enum StoreError {
    StorageUnreadable,
    StorageCorrupt,
    StorageUnwritable,
}

/// The due-date filter is three-valued: no constraint, a specific calendar
/// date, or "only tasks without a due time".
#[derive(Debug, Clone, Copy, PartialEq, Eq, Structural)]
pub enum DueFilter {
    Unset,
    OnDate(Date),
    NoDue,
}

/// Transient query parameters; never persisted.
pub struct FilterState {
    pub category_filter: Option<Vec<char>>,
    pub due_date_filter: DueFilter,
}

pub ghost struct FilterStateView {
    pub category_filter: Option<Seq<char>>,
    pub due_date_filter: DueFilter,
}

impl View for FilterState {
    type V = FilterStateView;

    open spec fn view(&self) -> FilterStateView {
        FilterStateView {
            category_filter: match self.category_filter {
                Some(c) => Some(c@),
                None => None,
            },
            due_date_filter: self.due_date_filter,
        }
    }
}

/// Whether a task satisfies the filter: if a category substring is set the
/// task must have a category containing it, case-insensitively; the due-date
/// filter constrains the date component of the due time, or its absence.
pub open spec fn task_matches(t: TaskView, f: FilterStateView) -> bool {
    (match f.category_filter {
        None => true,
        Some(fc) => match t.category {
            None => false,
            Some(c) => is_substring(lower_seq(fc), lower_seq(c)),
        },
    }) && (match f.due_date_filter {
        DueFilter::Unset => true,
        DueFilter::NoDue => t.due_time is None,
        DueFilter::OnDate(d) => match t.due_time {
            None => false,
            Some(dt) => dt.date() == d,
        },
    })
}

// ---------------------------------------------------------------------------
// The store
// ---------------------------------------------------------------------------

/// The collection a `query` returns under a filter: the matching tasks, in
/// collection order.
pub open spec fn spec_query(s: Seq<TaskView>, f: FilterStateView) -> Seq<TaskView> {
    s.filter(|t: TaskView| task_matches(t, f))
}

/// The collection after deleting an id: every task with that id removed, the
/// rest in their order.
pub open spec fn spec_remove_id(s: Seq<TaskView>, id: u128) -> Seq<TaskView> {
    s.filter(|t: TaskView| t.id != id)
}

/// Model of a task vector: the sequence of task views.
pub open spec fn views(ts: Seq<Task>) -> Seq<TaskView> {
    ts.map_values(|t: Task| t@)
}

/// Whether some task in the collection has the given id.
pub open spec fn id_present(s: Seq<TaskView>, id: u128) -> bool {
    exists|k: int| 0 <= k < s.len() && #[trigger] s[k].id == id
}

/// Index of the first task with the given id, if any.
pub open spec fn find_task(s: Seq<TaskView>, id: u128) -> Option<int>
    decreases s.len(),
{
    if s.len() == 0 {
        None
    } else if s[0].id == id {
        Some(0)
    } else {
        match find_task(s.skip(1), id) {
            Some(k) => Some(k + 1),
            None => None,
        }
    }
}

pub proof fn lemma_find_task(s: Seq<TaskView>, id: u128)
    ensures
        match find_task(s, id) {
            None => forall|k: int| 0 <= k < s.len() ==> s[k].id != id,
            Some(k) => 0 <= k < s.len() && s[k].id == id && (forall|m: int|
                0 <= m < k ==> s[m].id != id),
        },
    decreases s.len(),
{
    if s.len() > 0 && s[0].id != id {
        lemma_find_task(s.skip(1), id);
        match find_task(s.skip(1), id) {
            Some(k) => {
                assert(s.skip(1)[k] == s[k + 1]);
                assert forall|m: int| 0 <= m < k + 1 implies s[m].id != id by {
                    if m >= 1 {
                        assert(s.skip(1)[m - 1].id != id);
                        assert(s.skip(1)[m - 1] == s[m]);
                    }
                }
            },
            None => {
                assert forall|m: int| 0 <= m < s.len() implies s[m].id != id by {
                    if m >= 1 {
                        assert(s.skip(1)[m - 1].id != id);
                        assert(s.skip(1)[m - 1] == s[m]);
                    }
                }
            },
        }
    }
}

proof fn lemma_filter_push(s: Seq<TaskView>, pred: spec_fn(TaskView) -> bool, x: TaskView)
    ensures
        s.push(x).filter(pred) == if pred(x) {
            s.filter(pred).push(x)
        } else {
            s.filter(pred)
        },
{
    reveal_with_fuel(Seq::<TaskView>::filter, 2);
    assert(s.push(x).drop_last() =~= s);
    assert(s.push(x).last() == x);
}

/// Whether one of the character vectors holds exactly this text.
pub open spec fn vmem(c: Seq<char>, v: Seq<Vec<char>>) -> bool {
    exists|k: int| 0 <= k < v.len() && #[trigger] v[k]@ == c
}

/// Whether some task carries this category.
pub open spec fn has_category(ts: Seq<TaskView>, c: Seq<char>) -> bool {
    exists|k: int| 0 <= k < ts.len() && ts[k].category == Some(c)
}

/// Sorts pairwise-distinct character vectors into strictly increasing
/// lexicographic order, keeping exactly the same contents.
fn sort_uniq(input: Vec<Vec<char>>) -> (r: Vec<Vec<char>>)
    requires
        forall|k: int, m: int|
            0 <= k < m < input@.len() ==> (#[trigger] input@[k]@) != (#[trigger] input@[m]@),
    ensures
        r@.len() == input@.len(),
        forall|k: int| 0 <= k < r@.len() ==> vmem(#[trigger] r@[k]@, input@),
        forall|m: int| 0 <= m < input@.len() ==> vmem(#[trigger] input@[m]@, r@),
        forall|k: int, m: int|
            0 <= k < m < r@.len() ==> lex_le(#[trigger] r@[k]@, #[trigger] r@[m]@) && r@[k]@
                != r@[m]@,
{
    let mut src = input;
    let mut out: Vec<Vec<char>> = Vec::new();
    proof {
        assert forall|k: int| 0 <= k < src@.len() implies vmem(#[trigger] src@[k]@, input@) by {
            assert(input@[k]@ == src@[k]@);
        }
        assert forall|m: int| 0 <= m < input@.len() implies vmem(
            #[trigger] input@[m]@,
            src@,
        ) by {
            assert(src@[m]@ == input@[m]@);
        }
    }
    while src.len() > 0
        invariant
            out@.len() + src@.len() == input@.len(),
            forall|k: int, m: int|
                0 <= k < m < out@.len() ==> (#[trigger] out@[k]@) != (#[trigger] out@[m]@),
            forall|k: int, m: int|
                0 <= k < m < src@.len() ==> (#[trigger] src@[k]@) != (#[trigger] src@[m]@),
            forall|k: int, m: int|
                0 <= k < out@.len() && 0 <= m < src@.len() ==> (#[trigger] out@[k]@) != (
                #[trigger] src@[m]@),
            forall|k: int| 0 <= k < out@.len() ==> vmem(#[trigger] out@[k]@, input@),
            forall|k: int| 0 <= k < src@.len() ==> vmem(#[trigger] src@[k]@, input@),
            forall|m: int|
                0 <= m < input@.len() ==> vmem(#[trigger] input@[m]@, out@) || vmem(
                    input@[m]@,
                    src@,
                ),
            forall|k: int, m: int|
                0 <= k < m < out@.len() ==> lex_le(#[trigger] out@[k]@, #[trigger] out@[m]@),
            forall|k: int, m: int|
                0 <= k < out@.len() && 0 <= m < src@.len() ==> lex_le(
                    #[trigger] out@[k]@,
                    #[trigger] src@[m]@,
                ),
        decreases src.len(),
    {
        let mut best: usize = 0;
        let mut j: usize = 1;
        proof {
            crate::tags::lemma_lex_total(src@[0]@, src@[0]@);
        }
        while j < src.len()
            invariant
                best < j,
                j <= src@.len(),
                src@.len() > 0,
                forall|m: int| 0 <= m < j ==> lex_le(src@[best as int]@, #[trigger] src@[m]@),
            decreases src.len() - j,
        {
            if !crate::tags::lex_le_exec(&src[best], &src[j]) {
                proof {
                    crate::tags::lemma_lex_total(src@[best as int]@, src@[j as int]@);
                    assert forall|m: int| 0 <= m < j + 1 implies lex_le(
                        src@[j as int]@,
                        #[trigger] src@[m]@,
                    ) by {
                        if m < j {
                            crate::tags::lemma_lex_trans(
                                src@[j as int]@,
                                src@[best as int]@,
                                src@[m]@,
                            );
                        } else {
                            crate::tags::lemma_lex_total(src@[j as int]@, src@[j as int]@);
                        }
                    }
                }
                best = j;
            }
            j += 1;
        }
        proof {
            crate::tags::lemma_lex_total(src@[best as int]@, src@[best as int]@);
        }
        let ghost src0 = src@;
        let ghost picked = src@[best as int]@;
        let x = src.remove(best);
        let ghost out0 = out@;
        out.push(x);
        proof {
            assert(out@ =~= out0.push(x));
            assert(src@ == src0.remove(best as int));
            assert forall|m: int| 0 <= m < src@.len() implies #[trigger] src@[m] == if m < best {
                src0[m]
            } else {
                src0[m + 1]
            } by {
                if m < best {
                    assert(src@[m] == src0.subrange(0, best as int)[m]);
                } else {
                    assert(src@[m] == src0.subrange(best as int + 1, src0.len() as int)[m - best]);
                }
            }
            assert forall|k: int| 0 <= k < out@.len() implies vmem(
                #[trigger] out@[k]@,
                input@,
            ) by {
                if k < out0.len() {
                    assert(out@[k]@ == out0[k]@);
                } else {
                    assert(out@[k]@ == src0[best as int]@);
                }
            }
            assert forall|m: int| 0 <= m < input@.len() implies vmem(
                #[trigger] input@[m]@,
                out@,
            ) || vmem(input@[m]@, src@) by {
                if vmem(input@[m]@, src0) {
                    let k = choose|k: int| 0 <= k < src0.len() && #[trigger] src0[k]@ == input@[m]@;
                    if k == best {
                        assert(out@[out@.len() - 1]@ == input@[m]@);
                        assert(vmem(input@[m]@, out@));
                    } else if k < best {
                        assert(src@[k]@ == input@[m]@);
                        assert(vmem(input@[m]@, src@));
                    } else {
                        assert(src@[k - 1]@ == input@[m]@);
                        assert(vmem(input@[m]@, src@));
                    }
                } else if vmem(input@[m]@, out0) {
                    let k = choose|k: int| 0 <= k < out0.len() && #[trigger] out0[k]@ == input@[m]@;
                    assert(out@[k]@ == input@[m]@);
                    assert(vmem(input@[m]@, out@));
                }
            }
        }
    }
    out
}

/// The in-memory task collection. The collection order is insertion order and
/// is the only order; the store owns it exclusively.
pub struct TaskStore {
    pub tasks: Vec<Task>,
}

impl View for TaskStore {
    type V = Seq<TaskView>;

    open spec fn view(&self) -> Seq<TaskView> {
        views(self.tasks@)
    }
}

/// Relies on uuid's `Uuid::new_v4`: a fresh random (version 4) identifier,
/// taken as its 128-bit value. Nothing is promised of the value — it is
/// random — so a caller must itself handle a collision with an existing id.
#[verifier::external_body]
fn random_id() -> u128 {
    uuid::Uuid::new_v4().as_u128()
}

/// The task a single add constructs from a raw description: a given id,
/// status Todo, the parsed fields, and priority Medium where the text names
/// none.
pub open spec fn spec_new_task(raw: Seq<char>, id: u128) -> TaskView {
    let p = spec_parse(raw);
    TaskView {
        id: id,
        description: p.clean,
        status: TaskStatus::Todo,
        category: p.category,
        due_time: p.due_time,
        priority: match p.priority {
            Some(pr) => pr,
            None => Priority::Medium,
        },
    }
}

impl TaskStore {
    /// An empty collection.
    pub fn new() -> (r: TaskStore)
        ensures
            r@ == Seq::<TaskView>::empty(),
    {
        let r = TaskStore { tasks: Vec::new() };
        assert(r@ =~= Seq::<TaskView>::empty());
        r
    }

    fn contains_id(&self, id: u128) -> (r: bool)
        ensures
            r == exists|k: int| 0 <= k < self@.len() && self@[k].id == id,
    {
        let mut i: usize = 0;
        while i < self.tasks.len()
            invariant
                i <= self@.len(),
                self@.len() == self.tasks@.len(),
                forall|k: int| 0 <= k < i ==> self@[k].id != id,
            decreases self.tasks.len() - i,
        {
            if self.tasks[i].id == id {
                assert(self@[i as int].id == id);
                return true;
            }
            i += 1;
        }
        false
    }

    /// An id no current task has. A randomly drawn candidate is used when it
    /// is free; otherwise one of the first `len + 1` small numbers must be
    /// free, and the least free one is taken.
    fn fresh_id(&self) -> (id: u128)
        ensures
            forall|k: int| 0 <= k < self@.len() ==> self@[k].id != id,
    {
        let cand = random_id();
        if !self.contains_id(cand) {
            return cand;
        }
        let n = self.tasks.len();
        let mut c: u128 = 0;
        while c <= n as u128
            invariant
                c <= n as u128 + 1,
                n == self@.len(),
                forall|v: u128| v < c ==> #[trigger] id_present(self@, v),
            decreases n as u128 + 1 - c,
        {
            if !self.contains_id(c) {
                return c;
            }
            c += 1;
        }
        proof {
            // every value in 0 ..= n is some task's id, yet there are only n
            // tasks: impossible by counting
            let ids = Seq::new(self@.len(), |k: int| self@[k].id as int);
            ids.lemma_cardinality_of_set();
            let range = set_int_range(0, n as int + 1);
            lemma_int_range(0, n as int + 1);
            assert forall|v: int| range.contains(v) implies ids.to_set().contains(v) by {
                assert(id_present(self@, v as u128));
                let k = choose|k: int|
                    0 <= k < self@.len() && #[trigger] self@[k].id == (v as u128);
                assert(ids[k] == v);
                assert(ids.to_set().contains(ids[k]));
            }
            lemma_len_subset(range, ids.to_set());
            assert(false);
        }
        0
    }

    /// Parses the raw description and appends a new task: a fresh id no
    /// existing task has, status Todo, the extracted fields, and priority
    /// Medium where the text names none. The collection grows by exactly one
    /// and no other task changes. Returns the new id.
    pub fn add_task(&mut self, raw: &Vec<char>) -> (id: u128)
        ensures
            final(self)@ == old(self)@.push(spec_new_task(raw@, id)),
            forall|k: int| 0 <= k < old(self)@.len() ==> old(self)@[k].id != id,
    {
        let id = self.fresh_id();
        let p = parse_task_description(raw);
        let task = Task {
            id: id,
            description: p.clean,
            status: TaskStatus::Todo,
            category: p.category,
            due_time: p.due_time,
            priority: match p.priority {
                Some(pr) => pr,
                None => Priority::Medium,
            },
        };
        assert(task@ == spec_new_task(raw@, id));
        self.tasks.push(task);
        assert(final(self)@ =~= old(self)@.push(spec_new_task(raw@, id)));
        id
    }

    fn find_index(&self, id: u128) -> (r: Option<usize>)
        ensures
            match r {
                None => find_task(self@, id) is None,
                Some(i) => find_task(self@, id) == Some(i as int),
            },
    {
        proof {
            lemma_find_task(self@, id);
        }
        let mut i: usize = 0;
        while i < self.tasks.len()
            invariant
                i <= self@.len(),
                self@.len() == self.tasks@.len(),
                forall|k: int| 0 <= k < i ==> self@[k].id != id,
                match find_task(self@, id) {
                    None => forall|k: int| 0 <= k < self@.len() ==> self@[k].id != id,
                    Some(k) => 0 <= k < self@.len() && self@[k].id == id && (forall|m: int|
                        0 <= m < k ==> self@[m].id != id),
                },
            decreases self.tasks.len() - i,
        {
            if self.tasks[i].id == id {
                assert(self@[i as int].id == id);
                return Some(i);
            }
            i += 1;
        }
        None
    }

    /// Replaces the task at index `i` with one whose fields may differ but
    /// whose id is unchanged.
    fn replace_at(&mut self, i: usize, t: Task)
        requires
            i < old(self)@.len(),
        ensures
            final(self)@ == old(self)@.update(i as int, t@),
    {
        self.tasks.remove(i);
        self.tasks.insert(i, t);
        assert(final(self)@ =~= old(self)@.update(i as int, t@));
    }

    /// Sets the status of the first task with the given id; a no-op, not an
    /// error, when no task has it. Nothing else about any task changes.
    pub fn update_task_status(&mut self, id: u128, new_status: TaskStatus)
        ensures
            match find_task(old(self)@, id) {
                None => final(self)@ == old(self)@,
                Some(k) => final(self)@ == old(self)@.update(
                    k,
                    TaskView { status: new_status, ..old(self)@[k] },
                ),
            },
    {
        match self.find_index(id) {
            None => (),
            Some(i) => {
                proof {
                    lemma_find_task(self@, id);
                }
                let old_t = &self.tasks[i];
                let t = Task {
                    id: old_t.id,
                    description: crate::task::copy_chars(&old_t.description),
                    status: new_status,
                    category: match &old_t.category {
                        Some(c) => Some(crate::task::copy_chars(c)),
                        None => None,
                    },
                    due_time: old_t.due_time,
                    priority: old_t.priority,
                };
                assert(t@ == TaskView { status: new_status, ..old(self)@[i as int] });
                self.replace_at(i, t);
            },
        }
    }

    /// Advances the status of the first task with the given id one step along
    /// the cycle Todo -> Doing -> Done -> Todo; a no-op when no task has it.
    pub fn advance_task_status(&mut self, id: u128)
        ensures
            match find_task(old(self)@, id) {
                None => final(self)@ == old(self)@,
                Some(k) => final(self)@ == old(self)@.update(
                    k,
                    TaskView { status: spec_next_status(old(self)@[k].status), ..old(self)@[k] },
                ),
            },
    {
        match self.find_index(id) {
            None => (),
            Some(i) => {
                proof {
                    lemma_find_task(self@, id);
                }
                let st = next_status(self.tasks[i].status);
                self.update_task_status(id, st);
            },
        }
    }

    /// Re-parses a raw description for the first task with the given id:
    /// description, category and due time are replaced by the parse result
    /// unconditionally; the priority is replaced only where the new text
    /// names one explicitly, and is preserved otherwise. The id and the
    /// status are untouched; a no-op when no task has the id.
    pub fn update_task_description(&mut self, id: u128, raw: &Vec<char>)
        ensures
            match find_task(old(self)@, id) {
                None => final(self)@ == old(self)@,
                Some(k) => ({
                    let p = spec_parse(raw@);
                    final(self)@ == old(self)@.update(
                        k,
                        TaskView {
                            id: old(self)@[k].id,
                            description: p.clean,
                            status: old(self)@[k].status,
                            category: p.category,
                            due_time: p.due_time,
                            priority: match p.priority {
                                Some(pr) => pr,
                                None => old(self)@[k].priority,
                            },
                        },
                    )
                }),
            },
    {
        match self.find_index(id) {
            None => (),
            Some(i) => {
                proof {
                    lemma_find_task(self@, id);
                }
                let p = parse_task_description(raw);
                let old_t = &self.tasks[i];
                let t = Task {
                    id: old_t.id,
                    description: p.clean,
                    status: old_t.status,
                    category: p.category,
                    due_time: p.due_time,
                    priority: match p.priority {
                        Some(pr) => pr,
                        None => old_t.priority,
                    },
                };
                self.replace_at(i, t);
            },
        }
    }

    /// Removes every task with the given id, keeping the rest in order; a
    /// no-op when no task has it.
    pub fn delete_task(&mut self, id: u128)
        ensures
            final(self)@ == spec_remove_id(old(self)@, id),
    {
        let ghost pred = |t: TaskView| t.id != id;
        let mut kept: Vec<Task> = Vec::new();
        let mut i: usize = 0;
        while i < self.tasks.len()
            invariant
                i <= self.tasks@.len(),
                pred == (|t: TaskView| t.id != id),
                views(kept@) == views(self.tasks@.subrange(0, i as int)).filter(pred),
            decreases self.tasks.len() - i,
        {
            let ghost prefix = views(self.tasks@.subrange(0, i as int));
            let ghost next_prefix = views(self.tasks@.subrange(0, i as int + 1));
            let ghost elem = self.tasks@[i as int]@;
            let ghost kept0 = kept@;
            if self.tasks[i].id != id {
                kept.push(self.tasks[i].duplicate());
            }
            i += 1;
            proof {
                assert(next_prefix =~= prefix.push(elem));
                lemma_filter_push(prefix, pred, elem);
                if elem.id != id {
                    assert(views(kept@) =~= views(kept0).push(elem));
                } else {
                    assert(views(kept@) =~= views(kept0));
                }
                assert(views(kept@) =~= next_prefix.filter(pred));
            }
        }
        assert(self.tasks@.subrange(0, self.tasks@.len() as int) =~= self.tasks@);
        self.tasks = kept;
        assert(final(self)@ =~= spec_remove_id(old(self)@, id));
    }

    /// The distinct categories present across all tasks, case as stored,
    /// in strictly increasing lexicographic order.
    pub fn get_unique_categories(&self) -> (r: Vec<Vec<char>>)
        ensures
            forall|k: int| 0 <= k < r@.len() ==> has_category(self@, #[trigger] r@[k]@),
            forall|c: Seq<char>|
                #[trigger] has_category(self@, c) ==> exists|k: int|
                    0 <= k < r@.len() && #[trigger] r@[k]@ == c,
            forall|k: int, m: int|
                0 <= k < m < r@.len() ==> lex_le(#[trigger] r@[k]@, #[trigger] r@[m]@) && r@[k]@
                    != r@[m]@,
    {
        let mut found: Vec<Vec<char>> = Vec::new();
        let mut i: usize = 0;
        while i < self.tasks.len()
            invariant
                i <= self.tasks@.len(),
                self@.len() == self.tasks@.len(),
                forall|k: int|
                    0 <= k < found@.len() ==> has_category(self@, #[trigger] found@[k]@),
                forall|j: int|
                    0 <= j < i ==> match (#[trigger] self@[j]).category {
                        Some(c) => exists|k: int|
                            0 <= k < found@.len() && #[trigger] found@[k]@ == c,
                        None => true,
                    },
                forall|k: int, m: int|
                    0 <= k < m < found@.len() ==> #[trigger] found@[k]@ != #[trigger] found@[m]@,
            decreases self.tasks.len() - i,
        {
            let ghost found0 = found@;
            match &self.tasks[i].category {
                None => {
                    assert(self@[i as int].category is None);
                },
                Some(c) => {
                    assert(self@[i as int].category == Some(c@));
                    let mut present = false;
                    let mut k: usize = 0;
                    while k < found.len()
                        invariant
                            k <= found@.len(),
                            present == exists|m: int|
                                0 <= m < k && #[trigger] found@[m]@ == c@,
                        decreases found.len() - k,
                    {
                        if crate::tags::chars_eq(&found[k], c) {
                            present = true;
                        }
                        k += 1;
                    }
                    if !present {
                        found.push(crate::task::copy_chars(c));
                        assert(found@[found@.len() - 1]@ == c@);
                        assert(has_category(self@, c@));
                    }
                    assert(exists|m: int|
                        0 <= m < found@.len() && #[trigger] found@[m]@ == c@);
                },
            }
            proof {
                assert forall|j: int| 0 <= j < i + 1 implies match (#[trigger] self@[j]).category {
                    Some(c2) => exists|k: int|
                        0 <= k < found@.len() && #[trigger] found@[k]@ == c2,
                    None => true,
                } by {
                    if j < i {
                        match self@[j].category {
                            Some(c2) => {
                                let k = choose|k: int|
                                    0 <= k < found0.len() && #[trigger] found0[k]@ == c2;
                                assert(found@[k]@ == c2);
                            },
                            None => {},
                        }
                    }
                }
            }
            i += 1;
        }
        sort_uniq(found)
    }

    fn task_matches_exec(t: &Task, f: &FilterState) -> (r: bool)
        ensures
            r == task_matches(t@, f@),
    {
        let cat_ok = match &f.category_filter {
            None => true,
            Some(fc) => match &t.category {
                None => false,
                Some(c) => {
                    let lf = lower_vec(fc);
                    let lc = lower_vec(c);
                    contains_sub(&lf, &lc)
                },
            },
        };
        let due_ok = match f.due_date_filter {
            DueFilter::Unset => true,
            DueFilter::NoDue => t.due_time.is_none(),
            DueFilter::OnDate(d) => match &t.due_time {
                None => false,
                Some(dt) => {
                    let td = dt.date_of();
                    td == d
                },
            },
        };
        cat_ok && due_ok
    }

    /// The tasks satisfying the filter, in collection order; the store itself
    /// is unchanged, and the result holds copies.
    pub fn query(&self, f: &FilterState) -> (r: Vec<Task>)
        ensures
            views(r@) == spec_query(self@, f@),
    {
        let ghost pred = |t: TaskView| task_matches(t, f@);
        let mut out: Vec<Task> = Vec::new();
        let mut i: usize = 0;
        while i < self.tasks.len()
            invariant
                i <= self.tasks@.len(),
                pred == (|t: TaskView| task_matches(t, f@)),
                views(out@) == views(self.tasks@.subrange(0, i as int)).filter(pred),
            decreases self.tasks.len() - i,
        {
            let ghost prefix = views(self.tasks@.subrange(0, i as int));
            let ghost next_prefix = views(self.tasks@.subrange(0, i as int + 1));
            let ghost elem = self.tasks@[i as int]@;
            let ghost out0 = out@;
            if Self::task_matches_exec(&self.tasks[i], f) {
                out.push(self.tasks[i].duplicate());
            }
            i += 1;
            proof {
                assert(next_prefix =~= prefix.push(elem));
                lemma_filter_push(prefix, pred, elem);
                if task_matches(elem, f@) {
                    assert(views(out@) =~= views(out0).push(elem));
                } else {
                    assert(views(out@) =~= views(out0));
                }
                assert(views(out@) =~= next_prefix.filter(pred));
            }
        }
        assert(self.tasks@.subrange(0, self.tasks@.len() as int) =~= self.tasks@);
        assert(views(out@) =~= spec_query(self@, f@));
        out
    }
}

} // verus!

//! Task records: `<flags>(<day>[,<accum>[,<context>]]) <name>[ (<field>; ...)]`.

use vstd::prelude::*;
use vstd::pervasive::VecAdditionalExecFns;
use crate::date::{date_of, Date, DateFault, DateParseError};
use crate::integer::{i32_from_str_radix, radix_parse};
use crate::stat::{stat_in, stat_of, Stat, StatParseError};
use crate::text::{
    chars_of, find, find_char, next_piece, range_eq, split, string_of, string_range, trim,
    trim_range,
};
use crate::utils::occurs;

verus! {

/// `t` without parentheses and semicolons.
pub open spec fn strip_parens(t: Seq<char>) -> Seq<char>
    decreases t.len(),
{
    if t.len() == 0 {
        t
    } else if t.last() == '(' || t.last() == ')' || t.last() == ';' {
        strip_parens(t.drop_last())
    } else {
        strip_parens(t.drop_last()).push(t.last())
    }
}

/// The text of one field of a parenthesised tuple.
pub open spec fn field_text(t: Seq<char>) -> Seq<char> {
    trim(strip_parens(t))
}

/// The field texts of the pieces `p`.
pub open spec fn field_texts(p: Seq<Seq<char>>) -> Seq<Seq<char>> {
    p.map_values(|x: Seq<char>| field_text(x))
}

/// A tuple `(A; B; ...)` is well formed where its first piece starts with
/// `(` and only its last piece holds `)`.
pub open spec fn tuple_parens_ok(p: Seq<Seq<char>>) -> bool {
    &&& p.len() > 0
    &&& p[0].len() > 0 && p[0][0] == '('
    &&& occurs(p.last(), ')')
    &&& forall|i: int| 0 <= i < p.len() - 1 ==> !occurs(#[trigger] p[i], ')')
}

/// The field text of `v[a..b]`, as a string.
fn field_in(v: &Vec<char>, a: usize, b: usize) -> (r: String)
    requires
        a <= b <= v.len(),
    ensures
        r@ == field_text(v@.subrange(a as int, b as int)),
{
    let mut w: Vec<char> = Vec::new();
    let mut i = a;
    while i < b
        invariant
            a <= i <= b <= v.len(),
            w@ == strip_parens(v@.subrange(a as int, i as int)),
        decreases b - i,
    {
        assert(v@.subrange(a as int, i + 1).drop_last() =~= v@.subrange(a as int, i as int));
        let c = v[i];
        if c != '(' && c != ')' && c != ';' {
            w.push(c);
        }
        i += 1;
    }
    let (x, y) = trim_range(&w, 0, w.len());
    assert(w@.subrange(0, w.len() as int) =~= w@);
    string_range(&w, x, y)
}

fn has_char(v: &Vec<char>, a: usize, b: usize, c: char) -> (r: bool)
    requires
        a <= b <= v.len(),
    ensures
        r == occurs(v@.subrange(a as int, b as int), c),
{
    let mut i = a;
    while i < b
        invariant
            a <= i <= b <= v.len(),
            forall|j: int| a <= j < i ==> v@[j] != c,
        decreases b - i,
    {
        if v[i] == c {
            assert(v@.subrange(a as int, b as int)[i - a] == c);
            return true;
        }
        i += 1;
    }
    assert forall|j: int| 0 <= j < b - a implies v@.subrange(a as int, b as int)[j] != c by {
        assert(v@.subrange(a as int, b as int)[j] == v@[a + j]);
    }
    false
}

/// Splits `(A; B; C)` into the fields `[A, B, C]`, each without parentheses
/// and trimmed; empty fields are kept.
pub fn parse_tuple_arguments(tup: &str) -> (r: Result<Vec<String>, &'static str>)
    ensures
        ({
            let p = split(tup@, ';');
            match r {
                Ok(fs) => tuple_parens_ok(p) && fs@.len() == p.len() && forall|i: int|
                    0 <= i < p.len() ==> (#[trigger] fs@[i])@ == field_text(p[i]),
                Err(_) => !tuple_parens_ok(p),
            }
        }),
{
    let v = chars_of(tup);
    let ghost p = split(v@, ';');
    assert(v@.skip(0) =~= v@);
    let mut out: Vec<String> = Vec::new();
    let mut a: usize = 0;
    let mut closed = false;
    let mut stray = false;
    loop
        invariant
            a <= v.len(),
            v@ == tup@,
            p == split(v@, ';'),
            out@.len() < p.len(),
            out@.len() == 0 ==> a == 0,
            split(v@.skip(a as int), ';') == p.skip(out@.len() as int),
            forall|i: int| 0 <= i < out@.len() ==> (#[trigger] out@[i])@ == field_text(p[i]),
            out@.len() > 0 ==> p[0].len() > 0 && p[0][0] == '(',
            closed == (out@.len() > 0 && occurs(p[out@.len() - 1], ')')),
            stray == exists|j: int| 0 <= j < out@.len() - 1 && occurs(#[trigger] p[j], ')'),
        decreases v.len() - a,
    {
        let (b, next) = next_piece(&v, a, ';');
        let ghost i = out@.len() as int;
        assert(p[i] == p.skip(i)[0]);
        if out.len() == 0 {
            if !(b > a && v[a] == '(') {
                assert(p[0] == v@.subrange(0, b as int));
                return Err("no open parenthesis found");
            }
            assert(p[0][0] == v@[0]);
        }
        let was_closed = closed;
        closed = has_char(&v, a, b, ')');
        stray = stray || was_closed;
        out.push(field_in(&v, a, b));
        assert(stray == exists|j: int| 0 <= j < out@.len() - 1 && occurs(#[trigger] p[j], ')')) by {
            if was_closed {
                assert(occurs(p[i - 1], ')'));
            }
        }
        match next {
            None => {
                assert(p.skip(i).len() == 1);
                assert(out@.len() == p.len());
                if !closed || stray {
                    return Err("no close parenthesis found");
                }
                return Ok(out);
            },
            Some(n) => {
                assert(p.skip(i + 1) =~= p.skip(i).drop_first());
                a = n;
            },
        }
    }
}

/// Why a tuple of counters did not parse.
#[derive(Debug, PartialEq, Clone)]
pub enum StatTupleError {
    /// A fourth counter was given.
    TooManyStats,
    /// A counter did not parse.
    InvalidStat(StatParseError),
}

/// The counter text in slot `i` of the comma-separated pieces `p`.
pub open spec fn slot_text(p: Seq<Seq<char>>, i: int) -> Seq<char> {
    trim(p[i])
}

/// Slot `i` cannot be kept: it is past the third, even empty, or it is
/// given and does not parse.
pub open spec fn slot_bad(p: Seq<Seq<char>>, i: int) -> bool {
    i > 2 || (slot_text(p, i).len() > 0 && stat_of(slot_text(p, i)) is None)
}

/// The first bad slot at or after `i`.
pub open spec fn first_bad_slot(p: Seq<Seq<char>>, i: int) -> Option<int>
    decreases p.len() - i,
{
    if i < 0 || i >= p.len() {
        None
    } else if slot_bad(p, i) {
        Some(i)
    } else {
        first_bad_slot(p, i + 1)
    }
}

/// The counter in slot `k`; an empty or missing slot holds none.
pub open spec fn slot_stat(p: Seq<Seq<char>>, k: int) -> Option<Stat> {
    if k < p.len() && slot_text(p, k).len() > 0 {
        stat_of(slot_text(p, k))
    } else {
        None
    }
}

/// A tuple error as plain values.
pub enum TupleFault {
    TooManyStats,
    InvalidStat(Seq<char>),
}

impl View for StatTupleError {
    type V = TupleFault;

    open spec fn view(&self) -> TupleFault {
        match self {
            StatTupleError::TooManyStats => TupleFault::TooManyStats,
            StatTupleError::InvalidStat(e) => TupleFault::InvalidStat(e@),
        }
    }
}

/// The three counters that `s` writes, comma-separated; the first piece
/// that is past the third slot or does not parse decides the error.
pub open spec fn stat_tuple_of(s: Seq<char>) -> Result<(Option<Stat>, Option<Stat>, Option<Stat>), TupleFault> {
    let p = split(s, ',');
    match first_bad_slot(p, 0) {
        None => Ok((slot_stat(p, 0), slot_stat(p, 1), slot_stat(p, 2))),
        Some(i) => if i > 2 {
            Err(TupleFault::TooManyStats)
        } else {
            Err(TupleFault::InvalidStat(slot_text(p, i)))
        },
    }
}

/// Whether `r` is what parsing `s` as a tuple of up to three counters gives.
pub open spec fn stat_tuple_result(s: Seq<char>, r: Result<[Option<Stat>; 3], StatTupleError>) -> bool {
    match (stat_tuple_of(s), r) {
        (Ok(t), Ok(a)) => a[0] == t.0 && a[1] == t.1 && a[2] == t.2,
        (Err(f), Err(e)) => e@ == f,
        _ => false,
    }
}

/// Parses `[Stat][,Stat][,Stat]` into three slots; an empty piece leaves its
/// slot empty, and a fourth slot is refused, even an empty one.
pub fn parse_stat_tuple(s: &str) -> (r: Result<[Option<Stat>; 3], StatTupleError>)
    ensures
        stat_tuple_result(s@, r),
{
    let v = chars_of(s);
    let ghost p = split(v@, ',');
    assert(v@.skip(0) =~= v@);
    let mut slots: [Option<Stat>; 3] = [None, None, None];
    let mut a: usize = 0;
    let mut i: usize = 0;
    loop
        invariant
            a <= v.len(),
            v@ == s@,
            p == split(v@, ','),
            i < p.len(),
            i <= a,
            split(v@.skip(a as int), ',') == p.skip(i as int),
            first_bad_slot(p, 0) == first_bad_slot(p, i as int),
            forall|k: int| 0 <= k < 3 ==> slots[k] == (if k < i { slot_stat(p, k) } else { None }),
        decreases v.len() - a,
    {
        let (b, next) = next_piece(&v, a, ',');
        assert(p[i as int] == p.skip(i as int)[0]);
        let (x, y) = trim_range(&v, a, b);
        let ghost t = slot_text(p, i as int);
        assert(t == v@.subrange(x as int, y as int));
        if i > 2 {
            return Err(StatTupleError::TooManyStats);
        }
        if y > x {
            match stat_in(&v, x, y) {
                Some(st) => {
                    slots[i] = Some(st);
                },
                None => {
                    return Err(
                        StatTupleError::InvalidStat(
                            StatParseError::NoStatVariant(string_range(&v, x, y)),
                        ),
                    );
                },
            }
        }
        match next {
            None => {
                assert(p.skip(i as int).len() == 1);
                assert(first_bad_slot(p, i + 1) is None);
                return Ok(slots);
            },
            Some(n) => {
                assert(p.skip(i + 1) =~= p.skip(i as int).drop_first());
                a = n;
                i += 1;
            },
        }
    }
}

/// A state that a task can be in.
#[derive(Debug, PartialEq, Eq, Clone, Copy, Structural)]
pub enum TaskFlag {
    Blocked,
    Current,
    Late,
    Done,
}

/// A set of task flags.
#[derive(Debug, PartialEq, Eq, Clone, Copy, Structural)]
pub struct TaskFlags {
    pub blocked: bool,
    pub current: bool,
    pub late: bool,
    pub done: bool,
}

impl TaskFlags {
    /// Whether `f` is in the set.
    pub open spec fn has(self, f: TaskFlag) -> bool {
        match f {
            TaskFlag::Blocked => self.blocked,
            TaskFlag::Current => self.current,
            TaskFlag::Late => self.late,
            TaskFlag::Done => self.done,
        }
    }

    /// The empty set.
    pub fn empty() -> (r: TaskFlags)
        ensures
            forall|f: TaskFlag| !r.has(f),
            r == (TaskFlags { blocked: false, current: false, late: false, done: false }),
    {
        TaskFlags { blocked: false, current: false, late: false, done: false }
    }

    /// The set holding `f` alone.
    pub fn of(f: TaskFlag) -> (r: TaskFlags)
        ensures
            forall|g: TaskFlag| r.has(g) == (g == f),
    {
        let mut r = TaskFlags::empty();
        r.insert(f);
        r
    }

    /// The flags of either set.
    pub fn union(self, other: TaskFlags) -> (r: TaskFlags)
        ensures
            forall|g: TaskFlag| r.has(g) == (self.has(g) || other.has(g)),
    {
        TaskFlags {
            blocked: self.blocked || other.blocked,
            current: self.current || other.current,
            late: self.late || other.late,
            done: self.done || other.done,
        }
    }

    pub fn contains(&self, f: TaskFlag) -> (r: bool)
        ensures
            r == self.has(f),
    {
        match f {
            TaskFlag::Blocked => self.blocked,
            TaskFlag::Current => self.current,
            TaskFlag::Late => self.late,
            TaskFlag::Done => self.done,
        }
    }

    pub fn insert(&mut self, f: TaskFlag)
        ensures
            forall|g: TaskFlag| final(self).has(g) == (old(self).has(g) || g == f),
    {
        match f {
            TaskFlag::Blocked => self.blocked = true,
            TaskFlag::Current => self.current = true,
            TaskFlag::Late => self.late = true,
            TaskFlag::Done => self.done = true,
        }
    }

    /// Parses flag characters, trimmed first: `B` blocked, `>` current,
    /// `L` late, `~` done, each any number of times.
    pub fn parse(s: &str) -> (r: Result<TaskFlags, TaskParseError>)
        ensures
            match flags_of(s@) {
                Ok(f) => r == Ok::<TaskFlags, TaskParseError>(f),
                Err(t) => r matches Err(TaskParseError::InvalidTaskFlags(x)) && x@ == t,
            },
    {
        let v = chars_of(s);
        assert(v@.subrange(0, v.len() as int) =~= v@);
        flags_in(&v, 0, v.len())
    }
}

impl std::str::FromStr for TaskFlags {
    type Err = TaskParseError;

    fn from_str(s: &str) -> (r: Result<TaskFlags, TaskParseError>)
        ensures
            match flags_of(s@) {
                Ok(f) => r == Ok::<TaskFlags, TaskParseError>(f),
                Err(t) => r matches Err(TaskParseError::InvalidTaskFlags(x)) && x@ == t,
            },
    {
        TaskFlags::parse(s)
    }
}

/// The flag that a character marks.
pub open spec fn flag_char(c: char) -> Option<TaskFlag> {
    if c == 'B' {
        Some(TaskFlag::Blocked)
    } else if c == '>' {
        Some(TaskFlag::Current)
    } else if c == 'L' {
        Some(TaskFlag::Late)
    } else if c == '~' {
        Some(TaskFlag::Done)
    } else {
        None
    }
}

/// The flags that `s` writes, once trimmed; the trimmed text where a
/// character marks no flag.
pub open spec fn flags_of(s: Seq<char>) -> Result<TaskFlags, Seq<char>> {
    let t = trim(s);
    if forall|i: int| 0 <= i < t.len() ==> (#[trigger] flag_char(t[i])) is Some {
        Ok(
            TaskFlags {
                blocked: occurs(t, 'B'),
                current: occurs(t, '>'),
                late: occurs(t, 'L'),
                done: occurs(t, '~'),
            },
        )
    } else {
        Err(t)
    }
}

fn flags_in(v: &Vec<char>, lo: usize, hi: usize) -> (r: Result<TaskFlags, TaskParseError>)
    requires
        lo <= hi <= v.len(),
    ensures
        match flags_of(v@.subrange(lo as int, hi as int)) {
            Ok(f) => r == Ok::<TaskFlags, TaskParseError>(f),
            Err(t) => r matches Err(TaskParseError::InvalidTaskFlags(x)) && x@ == t,
        },
{
    let (a, b) = trim_range(v, lo, hi);
    let ghost t = v@.subrange(a as int, b as int);
    let mut out = TaskFlags::empty();
    let mut i = a;
    while i < b
        invariant
            lo <= a <= i <= b <= hi <= v.len(),
            t == v@.subrange(a as int, b as int),
            t == trim(v@.subrange(lo as int, hi as int)),
            forall|j: int| 0 <= j < i - a ==> (#[trigger] flag_char(t[j])) is Some,
            out.blocked == exists|j: int| 0 <= j < i - a && t[j] == 'B',
            out.current == exists|j: int| 0 <= j < i - a && t[j] == '>',
            out.late == exists|j: int| 0 <= j < i - a && t[j] == 'L',
            out.done == exists|j: int| 0 <= j < i - a && t[j] == '~',
        decreases b - i,
    {
        let c = v[i];
        assert(t[i - a] == c);
        if c == 'B' {
            out.blocked = true;
        } else if c == '>' {
            out.current = true;
        } else if c == 'L' {
            out.late = true;
        } else if c == '~' {
            out.done = true;
        } else {
            assert(flag_char(t[i - a]) is None);
            assert(!(forall|j: int| 0 <= j < t.len() ==> (#[trigger] flag_char(t[j])) is Some));
            let x = string_range(v, a, b);
            assert(x@ == t);
            return Err(TaskParseError::InvalidTaskFlags(x));
        }
        i += 1;
    }
    Ok(out)
}

/// Why a task line did not parse.
#[derive(Debug, PartialEq, Clone)]
pub enum TaskParseError {
    /// The line holds no `(` or no `)`.
    NoTaskDescriptorsFound,
    /// The prefix descriptor is out of order (`None`) or its counters did not parse.
    InvalidPrefixDescriptor(Option<StatTupleError>),
    /// The parentheses of the suffix descriptor do not balance.
    InvalidSuffixDescriptor,
    /// A flag character is unknown; the flags text is carried.
    InvalidTaskFlags(String),
    /// The counters of a `g<goal>` field did not parse.
    InvalidGoalStats(StatTupleError),
    /// A `prior` value is no integer from 0 to 99.
    InvalidPriorityValue,
    InvalidDueDate(DateParseError),
    InvalidHardDate(DateParseError),
    UnsupportedDescriptorKey { key: String, field: String },
}

/// A task record.
#[derive(Debug, PartialEq, Clone)]
pub struct Task {
    /// the state of the task
    pub flags: TaskFlags,
    /// units of time done today
    pub day_stat: Option<Stat>,
    /// units of time done in all
    pub accum_stat: Option<Stat>,
    /// units of time spent on the task together with its subtasks
    pub context_stat: Option<Stat>,
    pub name: String,
    /// a pattern that leads to a note
    pub note_link: String,
    /// 0 is most urgent; 99 means none
    pub priority: usize,
    pub due_date: Option<Date>,
    pub hard_date: Option<Date>,
    /// counters per goal, one entry per goal, in the order goals first came
    pub other_stats: Vec<(String, [Option<Stat>; 3])>,
}

/// A task as plain values.
pub struct TaskView {
    pub flags: TaskFlags,
    pub day_stat: Option<Stat>,
    pub accum_stat: Option<Stat>,
    pub context_stat: Option<Stat>,
    pub name: Seq<char>,
    pub note_link: Seq<char>,
    pub priority: nat,
    pub due_date: Option<Date>,
    pub hard_date: Option<Date>,
    pub other_stats: Seq<(Seq<char>, Seq<Option<Stat>>)>,
}

pub open spec fn goal_entry(e: (String, [Option<Stat>; 3])) -> (Seq<char>, Seq<Option<Stat>>) {
    (e.0@, e.1@)
}

impl View for Task {
    type V = TaskView;

    open spec fn view(&self) -> TaskView {
        TaskView {
            flags: self.flags,
            day_stat: self.day_stat,
            accum_stat: self.accum_stat,
            context_stat: self.context_stat,
            name: self.name@,
            note_link: self.note_link@,
            priority: self.priority as nat,
            due_date: self.due_date,
            hard_date: self.hard_date,
            other_stats: self.other_stats@.map_values(|e: (String, [Option<Stat>; 3])| goal_entry(e)),
        }
    }
}

/// The priority of a task that has none.
pub const NO_PRIORITY: usize = 99;

/// The position of goal `k` among `g`.
pub open spec fn goal_index(g: Seq<(Seq<char>, Seq<Option<Stat>>)>, k: Seq<char>) -> Option<int>
    decreases g.len(),
{
    if g.len() == 0 {
        None
    } else if g.last().0 == k {
        Some(g.len() - 1)
    } else {
        goal_index(g.drop_last(), k)
    }
}

/// `g` with goal `k` set to `v`: its entry is replaced, or a new one comes last.
pub open spec fn goal_insert(
    g: Seq<(Seq<char>, Seq<Option<Stat>>)>,
    k: Seq<char>,
    v: Seq<Option<Stat>>,
) -> Seq<(Seq<char>, Seq<Option<Stat>>)> {
    match goal_index(g, k) {
        Some(i) => g.update(i, (k, v)),
        None => g.push((k, v)),
    }
}

/// No goal has two entries.
pub open spec fn goals_unique(g: Seq<(Seq<char>, Seq<Option<Stat>>)>) -> bool {
    forall|i: int, j: int| 0 <= i < j < g.len() ==> (#[trigger] g[i]).0 != (#[trigger] g[j]).0
}

proof fn lemma_goal_index(g: Seq<(Seq<char>, Seq<Option<Stat>>)>, k: Seq<char>)
    ensures
        goal_index(g, k) matches Some(i) ==> 0 <= i < g.len() && g[i].0 == k,
        goal_index(g, k) is None ==> forall|j: int| 0 <= j < g.len() ==> (#[trigger] g[j]).0 != k,
    decreases g.len(),
{
    if g.len() > 0 {
        lemma_goal_index(g.drop_last(), k);
        assert forall|j: int| 0 <= j < g.len() - 1 implies g.drop_last()[j] == g[j] by {}
    }
}

/// Setting a goal keeps each goal to one entry.
pub proof fn lemma_goal_insert_unique(
    g: Seq<(Seq<char>, Seq<Option<Stat>>)>,
    k: Seq<char>,
    v: Seq<Option<Stat>>,
)
    requires
        goals_unique(g),
    ensures
        goals_unique(goal_insert(g, k, v)),
{
    lemma_goal_index(g, k);
    let h = goal_insert(g, k, v);
    assert forall|i: int, j: int| 0 <= i < j < h.len() implies (#[trigger] h[i]).0 != (#[trigger] h[j]).0 by {
        if goal_index(g, k) is None {
            if j == g.len() {
                assert(h[i] == g[i]);
            } else {
                assert(h[i] == g[i] && h[j] == g[j]);
            }
        } else {
            let m = goal_index(g, k).unwrap();
            assert(g[m].0 == k);
            if i != m && j != m {
                assert(h[i] == g[i] && h[j] == g[j]);
            } else if i == m {
                assert(h[j] == g[j]);
                assert(g[i].0 != g[j].0);
            } else {
                assert(h[i] == g[i]);
                assert(g[i].0 != g[j].0);
            }
        }
    }
}

proof fn lemma_apply_field_unique(t: TaskView, f: Seq<char>)
    requires
        goals_unique(t.other_stats),
    ensures
        apply_field(t, f) matches Ok(t2) ==> goals_unique(t2.other_stats),
{
    reveal(apply_field);
    if let Some(k) = find(f, ':') {
        let key = f.take(k);
        let val = f.skip(k + 1);
        if key.len() > 0 && key[0] == 'g' {
            if let Ok(st) = stat_tuple_of(trim(val)) {
                lemma_goal_insert_unique(t.other_stats, key.skip(1), seq![st.0, st.1, st.2]);
            }
        }
    }
}

proof fn lemma_apply_fields_unique(t: TaskView, fs: Seq<Seq<char>>)
    requires
        goals_unique(t.other_stats),
    ensures
        apply_fields(t, fs) matches Ok(t2) ==> goals_unique(t2.other_stats),
    decreases fs.len(),
{
    if fs.len() > 0 {
        lemma_apply_field_unique(t, fs[0]);
        if let Ok(t2) = apply_field(t, fs[0]) {
            lemma_apply_fields_unique(t2, fs.drop_first());
        }
    }
}

/// Every task that a line parses to has one entry per goal.
pub proof fn lemma_task_of_goals_unique(s: Seq<char>)
    ensures
        task_of(s) matches Ok(t) ==> goals_unique(t.other_stats),
{
    if let (Some(po), Some(pc)) = (find(s, '('), find(s, ')')) {
        let after = trim(s.skip(pc + 1));
        if suffix_parens_ok(after) && pc >= po {
            if let (Ok(flags), Ok(st)) = (flags_of(s.take(po)), stat_tuple_of(s.subrange(po + 1, pc))) {
                let base = TaskView { flags, ..task_base(task_name(after), st.0, st.1, st.2) };
                if let (Some(so), Some(sc)) = (find(after, '('), find(after, ')')) {
                    let p = split(after.subrange(so, sc + 1), ';');
                    lemma_apply_fields_unique(base, field_texts(p));
                }
            }
        }
    }
}

/// A task named `name` with the given counters and nothing else.
pub open spec fn task_base(
    name: Seq<char>,
    day: Option<Stat>,
    accum: Option<Stat>,
    context: Option<Stat>,
) -> TaskView {
    TaskView {
        flags: TaskFlags { blocked: false, current: false, late: false, done: false },
        day_stat: day,
        accum_stat: accum,
        context_stat: context,
        name,
        note_link: Seq::empty(),
        priority: 99,
        due_date: None,
        hard_date: None,
        other_stats: Seq::empty(),
    }
}

impl Task {
    /// Each goal has one entry in `other_stats`.
    pub open spec fn wf(&self) -> bool {
        goals_unique(self@.other_stats)
    }

    pub fn from_name_and_stats(name: &str, stats: (Option<Stat>, Option<Stat>, Option<Stat>)) -> (r: Self)
        ensures
            r@ == task_base(name@, stats.0, stats.1, stats.2),
            r.wf(),
    {
        let r = Task {
            flags: TaskFlags::empty(),
            day_stat: stats.0,
            accum_stat: stats.1,
            context_stat: stats.2,
            name: string_of(chars_of(name)),
            note_link: string_of(Vec::new()),
            priority: NO_PRIORITY,
            due_date: None,
            hard_date: None,
            other_stats: Vec::new(),
        };
        assert(r@.other_stats =~= Seq::<(Seq<char>, Seq<Option<Stat>>)>::empty());
        r
    }

    pub fn from_name(name: &str) -> (r: Self)
        ensures
            r@ == task_base(name@, None, None, None),
    {
        Self::from_name_and_stats(name, (None, None, None))
    }

    pub fn build(self) -> (r: Self)
        ensures
            r == self,
    {
        self
    }

    pub fn build_flags(&mut self, flags: TaskFlags) -> (r: &mut Self)
        ensures
            r@ == (TaskView { flags, ..old(self)@ }),
            *final(self) == *final(r),
    {
        self.flags = flags;
        self
    }

    pub fn build_note_link(&mut self, note_link: &str) -> (r: &mut Self)
        ensures
            r@ == (TaskView { note_link: note_link@, ..old(self)@ }),
            *final(self) == *final(r),
    {
        self.note_link = string_of(chars_of(note_link));
        self
    }

    /// Sets the priority, which may not exceed 99.
    pub fn build_priority(&mut self, priority: usize) -> (r: &mut Self)
        requires
            priority <= NO_PRIORITY,
        ensures
            r@ == (TaskView { priority: priority as nat, ..old(self)@ }),
            *final(self) == *final(r),
    {
        self.priority = priority;
        self
    }

    pub fn build_due_date(&mut self, due_date: Date) -> (r: &mut Self)
        ensures
            r@ == (TaskView { due_date: Some(due_date), ..old(self)@ }),
            *final(self) == *final(r),
    {
        self.due_date = Some(due_date);
        self
    }

    pub fn build_hard_date(&mut self, hard_date: Date) -> (r: &mut Self)
        ensures
            r@ == (TaskView { hard_date: Some(hard_date), ..old(self)@ }),
            *final(self) == *final(r),
    {
        self.hard_date = Some(hard_date);
        self
    }

    /// Sets the counters of `goal`, replacing those it had.
    pub fn build_other_stat(&mut self, goal: &str, stats: [Option<Stat>; 3]) -> (r: &mut Self)
        ensures
            r@ == (TaskView {
                other_stats: goal_insert(old(self)@.other_stats, goal@, stats@),
                ..old(self)@
            }),
            *final(self) == *final(r),
            old(self).wf() ==> r.wf(),
    {
        proof {
            if old(self).wf() {
                lemma_goal_insert_unique(old(self)@.other_stats, goal@, stats@);
            }
        }
        self.set_goal(string_of(chars_of(goal)), stats);
        self
    }

    fn set_goal(&mut self, goal: String, stats: [Option<Stat>; 3])
        ensures
            final(self)@ == (TaskView {
                other_stats: goal_insert(old(self)@.other_stats, goal@, stats@),
                ..old(self)@
            }),
    {
        let ghost g = old(self)@.other_stats;
        let mut i = self.other_stats.len();
        assert(g.take(i as int) =~= g);
        while i > 0
            invariant
                *self == *old(self),
                g == self@.other_stats,
                i <= self.other_stats@.len(),
                goal_index(g, goal@) == goal_index(g.take(i as int), goal@),
            decreases i,
        {
            assert(g.take(i as int).drop_last() =~= g.take(i - 1));
            assert(g.take(i as int).last() == goal_entry(self.other_stats@[i - 1]));
            if self.other_stats[i - 1].0 == goal {
                self.other_stats.set(i - 1, (goal, stats));
                assert(self@.other_stats =~= g.update(i - 1, (goal@, stats@)));
                return;
            }
            i -= 1;
        }
        assert(g.take(0) =~= Seq::<(Seq<char>, Seq<Option<Stat>>)>::empty());
        self.other_stats.push((goal, stats));
        assert(self@.other_stats =~= g.push((goal@, stats@)));
    }
}

/// A task error as plain values.
pub enum TaskFault {
    NoTaskDescriptorsFound,
    InvalidPrefixDescriptor(Option<TupleFault>),
    InvalidSuffixDescriptor,
    InvalidTaskFlags(Seq<char>),
    InvalidGoalStats(TupleFault),
    InvalidPriorityValue,
    InvalidDueDate(DateFault),
    InvalidHardDate(DateFault),
    UnsupportedDescriptorKey { key: Seq<char>, field: Seq<char> },
}

impl View for TaskParseError {
    type V = TaskFault;

    open spec fn view(&self) -> TaskFault {
        match self {
            TaskParseError::NoTaskDescriptorsFound => TaskFault::NoTaskDescriptorsFound,
            TaskParseError::InvalidPrefixDescriptor(e) => TaskFault::InvalidPrefixDescriptor(
                match e {
                    Some(x) => Some(x@),
                    None => None,
                },
            ),
            TaskParseError::InvalidSuffixDescriptor => TaskFault::InvalidSuffixDescriptor,
            TaskParseError::InvalidTaskFlags(t) => TaskFault::InvalidTaskFlags(t@),
            TaskParseError::InvalidGoalStats(e) => TaskFault::InvalidGoalStats(e@),
            TaskParseError::InvalidPriorityValue => TaskFault::InvalidPriorityValue,
            TaskParseError::InvalidDueDate(e) => TaskFault::InvalidDueDate(e@),
            TaskParseError::InvalidHardDate(e) => TaskFault::InvalidHardDate(e@),
            TaskParseError::UnsupportedDescriptorKey { key, field } => TaskFault::UnsupportedDescriptorKey {
                key: key@,
                field: field@,
            },
        }
    }
}

/// A `prior` value: a decimal integer from 0 to 99, once trimmed.
pub open spec fn priority_of(val: Seq<char>) -> Option<nat> {
    match radix_parse(trim(val), 10) {
        Some(x) => if 0 <= x <= 99 {
            Some(x as nat)
        } else {
            None
        },
        None => None,
    }
}

/// A `due:` (or, where `hard`, a `hard:`) field with value `val`.
pub open spec fn apply_date(t: TaskView, val: Seq<char>, hard: bool) -> Result<TaskView, TaskFault> {
    match date_of(val) {
        Some(d) => if hard {
            Ok(TaskView { hard_date: Some(d), ..t })
        } else {
            Ok(TaskView { due_date: Some(d), ..t })
        },
        None => if hard {
            Err(TaskFault::InvalidHardDate(DateFault::InvalidDateCode(val)))
        } else {
            Err(TaskFault::InvalidDueDate(DateFault::InvalidDateCode(val)))
        },
    }
}

/// A `prior:` field with value `val`.
pub open spec fn apply_priority(t: TaskView, val: Seq<char>) -> Result<TaskView, TaskFault> {
    match priority_of(val) {
        Some(p) => Ok(TaskView { priority: p, ..t }),
        None => Err(TaskFault::InvalidPriorityValue),
    }
}

/// A `g<goal>:` field with value `val`.
pub open spec fn apply_goal(t: TaskView, goal: Seq<char>, val: Seq<char>) -> Result<TaskView, TaskFault> {
    match stat_tuple_of(trim(val)) {
        Ok(st) => Ok(
            TaskView { other_stats: goal_insert(t.other_stats, goal, seq![st.0, st.1, st.2]), ..t },
        ),
        Err(e) => Err(TaskFault::InvalidGoalStats(e)),
    }
}

/// What one field of the suffix descriptor does to `t`: `*<link>` sets the
/// note link; `due:`, `hard:`, `prior:` and `g<goal>:` set their values; a
/// bare field without `*` is passed over; any other key is refused.
#[verifier::opaque]
pub open spec fn apply_field(t: TaskView, f: Seq<char>) -> Result<TaskView, TaskFault> {
    match find(f, ':') {
        None => if f.len() > 0 && f[0] == '*' {
            Ok(TaskView { note_link: f.skip(1), ..t })
        } else {
            Ok(t)
        },
        Some(k) => {
            let key = f.take(k);
            let val = f.skip(k + 1);
            if key == "due"@ {
                apply_date(t, val, false)
            } else if key == "hard"@ {
                apply_date(t, val, true)
            } else if key == "prior"@ {
                apply_priority(t, val)
            } else if key.len() > 0 && key[0] == 'g' {
                apply_goal(t, key.skip(1), val)
            } else {
                Err(TaskFault::UnsupportedDescriptorKey { key, field: f })
            }
        },
    }
}

/// The fields `fs` applied to `t` in order; the first error stops.
pub open spec fn apply_fields(t: TaskView, fs: Seq<Seq<char>>) -> Result<TaskView, TaskFault>
    decreases fs.len(),
{
    if fs.len() == 0 {
        Ok(t)
    } else {
        match apply_field(t, fs[0]) {
            Ok(t2) => apply_fields(t2, fs.drop_first()),
            Err(e) => Err(e),
        }
    }
}

fn apply_date_in(task: &mut Task, v: &Vec<char>, a: usize, hard: bool) -> (r: Result<(), TaskParseError>)
    requires
        a <= v.len(),
    ensures
        match apply_date(old(task)@, v@.skip(a as int), hard) {
            Ok(t) => r is Ok && final(task)@ == t,
            Err(e) => r matches Err(x) && x@ == e,
        },
{
    let val = string_range(v, a, v.len());
    assert(val@ =~= v@.skip(a as int));
    match Date::parse(val.as_str()) {
        Ok(d) => {
            if hard {
                task.hard_date = Some(d);
            } else {
                task.due_date = Some(d);
            }
            Ok(())
        },
        Err(e) => {
            if hard {
                Err(TaskParseError::InvalidHardDate(e))
            } else {
                Err(TaskParseError::InvalidDueDate(e))
            }
        },
    }
}

fn apply_priority_in(task: &mut Task, v: &Vec<char>, a: usize) -> (r: Result<(), TaskParseError>)
    requires
        a <= v.len(),
    ensures
        match apply_priority(old(task)@, v@.skip(a as int)) {
            Ok(t) => r is Ok && final(task)@ == t,
            Err(e) => r matches Err(x) && x@ == e,
        },
{
    assert(v@.skip(a as int) =~= v@.subrange(a as int, v.len() as int));
    let (x, y) = trim_range(v, a, v.len());
    match i32_from_str_radix(string_range(v, x, y).as_str(), 10) {
        Some(p) => {
            if 0 <= p && p <= 99 {
                task.priority = p as usize;
                Ok(())
            } else {
                Err(TaskParseError::InvalidPriorityValue)
            }
        },
        None => Err(TaskParseError::InvalidPriorityValue),
    }
}

fn apply_goal_in(task: &mut Task, v: &Vec<char>, k: usize) -> (r: Result<(), TaskParseError>)
    requires
        1 <= k < v.len(),
    ensures
        match apply_goal(old(task)@, v@.subrange(1, k as int), v@.skip(k + 1)) {
            Ok(t) => r is Ok && final(task)@ == t,
            Err(e) => r matches Err(x) && x@ == e,
        },
{
    assert(v@.skip(k + 1) =~= v@.subrange(k + 1, v.len() as int));
    let (a, b) = trim_range(v, k + 1, v.len());
    match parse_stat_tuple(string_range(v, a, b).as_str()) {
        Ok(stats) => {
            assert(stats@ =~= seq![stats[0], stats[1], stats[2]]);
            task.set_goal(string_range(v, 1, k), stats);
            Ok(())
        },
        Err(e) => Err(TaskParseError::InvalidGoalStats(e)),
    }
}

fn apply_field_in(task: &mut Task, f: &str) -> (r: Result<(), TaskParseError>)
    ensures
        match apply_field(old(task)@, f@) {
            Ok(t) => r is Ok && final(task)@ == t,
            Err(e) => r matches Err(x) && x@ == e,
        },
{
    reveal(apply_field);
    let v = chars_of(f);
    let n = v.len();
    assert(v@.subrange(0, n as int) =~= v@);
    let k = match find_char(&v, 0, n, ':') {
        None => {
            if n > 0 && v[0] == '*' {
                task.note_link = string_range(&v, 1, n);
                assert(f@.skip(1) =~= v@.subrange(1, n as int));
            }
            return Ok(());
        },
        Some(k) => k,
    };
    let ghost key = f@.take(k as int);
    assert(key =~= v@.subrange(0, k as int));
    if range_eq(&v, 0, k, "due") {
        apply_date_in(task, &v, k + 1, false)
    } else if range_eq(&v, 0, k, "hard") {
        apply_date_in(task, &v, k + 1, true)
    } else if range_eq(&v, 0, k, "prior") {
        apply_priority_in(task, &v, k + 1)
    } else if k > 0 && v[0] == 'g' {
        assert(key.skip(1) =~= v@.subrange(1, k as int));
        apply_goal_in(task, &v, k)
    } else {
        Err(TaskParseError::UnsupportedDescriptorKey { key: string_range(&v, 0, k), field: string_of(v) })
    }
}

/// The suffix descriptor's parentheses: both or neither, `(` first.
pub open spec fn suffix_parens_ok(after: Seq<char>) -> bool {
    match (find(after, '('), find(after, ')')) {
        (Some(so), Some(sc)) => so <= sc,
        (None, None) => true,
        _ => false,
    }
}

/// The name: what follows the prefix descriptor, up to the suffix descriptor, trimmed.
pub open spec fn task_name(after: Seq<char>) -> Seq<char> {
    match find(after, '(') {
        Some(k) => trim(after.take(k)),
        None => after,
    }
}

/// `base` with the fields of the suffix descriptor in `after` applied.
pub open spec fn apply_suffix(base: TaskView, after: Seq<char>) -> Result<TaskView, TaskFault> {
    match (find(after, '('), find(after, ')')) {
        (Some(so), Some(sc)) => {
            let p = split(after.subrange(so, sc + 1), ';');
            if tuple_parens_ok(p) {
                apply_fields(base, field_texts(p))
            } else {
                Err(TaskFault::InvalidSuffixDescriptor)
            }
        },
        _ => Ok(base),
    }
}

/// The task that `s` writes, given the first `(` at `po` and the first `)` at `pc`.
pub open spec fn task_parts(s: Seq<char>, po: int, pc: int) -> Result<TaskView, TaskFault> {
    let after = trim(s.skip(pc + 1));
    if !suffix_parens_ok(after) {
        Err(TaskFault::InvalidSuffixDescriptor)
    } else {
        match flags_of(s.take(po)) {
            Err(t) => Err(TaskFault::InvalidTaskFlags(t)),
            Ok(flags) => if pc < po {
                Err(TaskFault::InvalidPrefixDescriptor(None))
            } else {
                match stat_tuple_of(s.subrange(po + 1, pc)) {
                    Err(e) => Err(TaskFault::InvalidPrefixDescriptor(Some(e))),
                    Ok(st) => apply_suffix(
                        TaskView { flags, ..task_base(task_name(after), st.0, st.1, st.2) },
                        after,
                    ),
                }
            },
        }
    }
}

/// The task that the line `s` writes:
/// `<flags>(<day>[,<accum>[,<context>]]) <name>[ (<field>; ...)]`.
pub open spec fn task_of(s: Seq<char>) -> Result<TaskView, TaskFault> {
    match (find(s, '('), find(s, ')')) {
        (Some(po), Some(pc)) => task_parts(s, po, pc),
        _ => Err(TaskFault::NoTaskDescriptorsFound),
    }
}

/// Whether `r` is what parsing `s` as a task gives.
pub open spec fn task_result(s: Seq<char>, r: Result<Task, TaskParseError>) -> bool {
    match task_of(s) {
        Ok(t) => r matches Ok(x) && x@ == t,
        Err(e) => r matches Err(x) && x@ == e,
    }
}

fn apply_suffix_in(task: &mut Task, v: &Vec<char>, aa: usize, ab: usize) -> (r: Result<(), TaskParseError>)
    requires
        aa <= ab <= v.len(),
        suffix_parens_ok(v@.subrange(aa as int, ab as int)),
    ensures
        match apply_suffix(old(task)@, v@.subrange(aa as int, ab as int)) {
            Ok(t) => r is Ok && final(task)@ == t,
            Err(e) => r matches Err(x) && x@ == e,
        },
{
    let ghost after = v@.subrange(aa as int, ab as int);
    let so = find_char(v, aa, ab, '(');
    let sc = find_char(v, aa, ab, ')');
    let (so, sc) = match (so, sc) {
        (Some(x), Some(y)) => (x, y),
        _ => {
            return Ok(());
        },
    };
    if sc < so {
        return Err(TaskParseError::InvalidSuffixDescriptor);
    }
    let desc = string_range(v, so, sc + 1);
    assert(desc@ =~= after.subrange(so - aa, sc - aa + 1));
    let ghost p = split(desc@, ';');
    let ghost fsv = field_texts(p);
    let fs = match parse_tuple_arguments(desc.as_str()) {
        Ok(fs) => fs,
        Err(_) => {
            return Err(TaskParseError::InvalidSuffixDescriptor);
        },
    };
    let ghost base = task@;
    assert(fsv.skip(0) =~= fsv);
    assert(apply_suffix(old(task)@, after) == apply_fields(base, fsv));
    let mut i: usize = 0;
    while i < fs.len()
        invariant
            0 <= i <= fs.len(),
            fs@.len() == fsv.len(),
            forall|j: int| 0 <= j < fsv.len() ==> (#[trigger] fs@[j])@ == fsv[j],
            apply_fields(base, fsv) == apply_fields(task@, fsv.skip(i as int)),
            apply_suffix(old(task)@, v@.subrange(aa as int, ab as int)) == apply_fields(base, fsv),
        decreases fs.len() - i,
    {
        assert(fsv.skip(i as int)[0] == fsv[i as int]);
        assert(fsv.skip(i as int).drop_first() =~= fsv.skip(i + 1));
        let ghost before = task@;
        match apply_field_in(task, fs[i].as_str()) {
            Ok(()) => {},
            Err(e) => {
                assert(apply_field(before, fsv[i as int]) == Err::<TaskView, TaskFault>(e@));
                assert(apply_fields(before, fsv.skip(i as int)) == Err::<TaskView, TaskFault>(e@));
                return Err(e);
            },
        }
        i += 1;
    }
    assert(fsv.skip(i as int) =~= Seq::<Seq<char>>::empty());
    Ok(())
}

impl Task {
    /// Parses a task line.
    pub fn parse(s: &str) -> (r: Result<Task, TaskParseError>)
        ensures
            task_result(s@, r),
            r matches Ok(t) ==> t.wf(),
    {
        proof {
            lemma_task_of_goals_unique(s@);
        }
        let v = chars_of(s);
        let n = v.len();
        assert(v@.subrange(0, n as int) =~= v@);
        let po = match find_char(&v, 0, n, '(') {
            Some(k) => k,
            None => {
                return Err(TaskParseError::NoTaskDescriptorsFound);
            },
        };
        let pc = match find_char(&v, 0, n, ')') {
            Some(k) => k,
            None => {
                return Err(TaskParseError::NoTaskDescriptorsFound);
            },
        };
        assert(s@.skip(pc + 1) =~= v@.subrange(pc + 1, n as int));
        let (aa, ab) = trim_range(&v, pc + 1, n);
        let ghost after = v@.subrange(aa as int, ab as int);
        let so = find_char(&v, aa, ab, '(');
        let sc = find_char(&v, aa, ab, ')');
        let ok = match (so, sc) {
            (Some(x), Some(y)) => x <= y,
            (None, None) => true,
            _ => false,
        };
        if !ok {
            return Err(TaskParseError::InvalidSuffixDescriptor);
        }
        let (na, nb) = match so {
            Some(k) => {
                assert(after.take(k - aa) =~= v@.subrange(aa as int, k as int));
                trim_range(&v, aa, k)
            },
            None => (aa, ab),
        };
        assert(s@.take(po as int) =~= v@.subrange(0, po as int));
        let flags = match flags_in(&v, 0, po) {
            Ok(f) => f,
            Err(e) => {
                return Err(e);
            },
        };
        if pc < po {
            return Err(TaskParseError::InvalidPrefixDescriptor(None));
        }
        assert(s@.subrange(po + 1, pc as int) == v@.subrange(po + 1, pc as int));
        let stats = match parse_stat_tuple(string_range(&v, po + 1, pc).as_str()) {
            Ok(a) => a,
            Err(e) => {
                return Err(TaskParseError::InvalidPrefixDescriptor(Some(e)));
            },
        };
        let mut task = Task::from_name_and_stats(
            string_range(&v, na, nb).as_str(),
            (stats[0], stats[1], stats[2]),
        );
        task.flags = flags;
        match apply_suffix_in(&mut task, &v, aa, ab) {
            Ok(()) => Ok(task),
            Err(e) => Err(e),
        }
    }
}

impl std::str::FromStr for Task {
    type Err = TaskParseError;

    fn from_str(s: &str) -> (r: Result<Task, TaskParseError>)
        ensures
            task_result(s@, r),
            r matches Ok(t) ==> t.wf(),
    {
        Task::parse(s)
    }
}

} // verus!

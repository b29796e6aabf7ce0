//! The coordinator's state: the tasks and the pending save.

use vstd::prelude::*;
use vstd::string::*;
use slotmap::DefaultKey;
use crate::events::{BgEvent, Event};
use crate::model::{
    connected, contiguous, key_at, lemma_close_row, lemma_key_at_row, lemma_open_row, lemma_retext,
    lemma_row_key, pulled_up, pushed_down, texts, with_row, without,
};
use crate::slots::{
    count, empty_map, entries, live_keys, lookup, lookup_mut, peak, store, take, TaskMap,
};
use crate::text::{lemma_payload_push, lines_of, payload_of, split_lines, views};
use crate::widgets::Task;

verus! {

/// The list of tasks and the timer that stands for a save not yet made.
pub struct App {
    /// The tasks by key.
    pub tasks: TaskMap,
    /// The timer that will ask for the next save, if one runs.
    pub scheduled_write: Option<u64>,
    /// The name of the next timer: the number of timers started so far,
    /// which starts again at 0 after 2^64 of them.
    pub timers: u64,
}

impl App {
    /// The tasks by key, as a map.
    pub open spec fn entries(&self) -> Map<DefaultKey, Task> {
        entries(self.tasks)
    }

    /// The number of tasks.
    pub open spec fn len(&self) -> nat {
        self.entries().dom().len()
    }

    /// The texts of the tasks in row order.
    pub open spec fn view(&self) -> Seq<Seq<char>> {
        texts(self.entries())
    }

    /// The rows are contiguous, every task is connected under its own key,
    /// the list has never been longer than an `i32` can count, and a pending
    /// timer is the one that was started last.
    pub open spec fn wf(&self) -> bool {
        &&& contiguous(self.entries())
        &&& connected(self.entries())
        &&& self.len() <= peak(self.tasks) <= i32::MAX
        &&& self.scheduled_write is Some ==> next_timer(self.scheduled_write->0) == self.timers
    }

    /// Opens a row at `row`: every task at `row` or below moves down by one,
    /// and a new, empty, connected task takes the row. Returns its key.
    pub fn insert_row(&mut self, row: i32) -> (entity: DefaultKey)
        requires
            old(self).wf(),
            0 <= row <= old(self).len(),
            old(self).len() < i32::MAX,
        ensures
            final(self).wf(),
            !old(self).entries().dom().contains(entity),
            final(self).entries().dom() == old(self).entries().dom().insert(entity),
            final(self).entries()[entity].row == row,
            final(self).entries()[entity].text@ == Seq::<char>::empty(),
            final(self).entries()[entity].entity == Some(entity),
            final(self).entries() == with_row(old(self).entries(), entity, final(self).entries()[entity]),
            final(self).len() == old(self).len() + 1,
            final(self)@ == old(self)@.insert(row as int, Seq::<char>::empty()),
            final(self).scheduled_write == old(self).scheduled_write,
            final(self).timers == old(self).timers,
    {
        let ghost before = self.entries();
        let keys = live_keys(&self.tasks);
        let mut i: usize = 0;
        while i < keys.len()
            invariant
                i <= keys.len(),
                contiguous(before),
                connected(before),
                before.dom().len() < i32::MAX,
                keys@.no_duplicates(),
                forall|k: DefaultKey| keys@.contains(k) <==> before.dom().contains(k),
                self.entries().dom() == before.dom(),
                peak(self.tasks) == peak(old(self).tasks),
                self.scheduled_write == old(self).scheduled_write,
                self.timers == old(self).timers,
                forall|j: int| 0 <= j < i ==> self.entries()[#[trigger] keys@[j]] == pushed_down(before[keys@[j]], row as int),
                forall|j: int| i <= j < keys.len() ==> self.entries()[#[trigger] keys@[j]] == before[keys@[j]],
            decreases keys.len() - i,
        {
            let key = keys[i];
            assert(keys@.contains(key));
            let ghost mid = self.entries();
            match lookup_mut(&mut self.tasks, key) {
                Some(task) => {
                    if task.row >= row {
                        task.row = task.row + 1;
                    }
                },
                None => {},
            }
            assert(self.entries() == mid.insert(key, pushed_down(before[key], row as int)));
            assert(self.entries().dom() =~= before.dom());
            i = i + 1;
        }
        let ghost shifted = self.entries();
        assert forall|k: DefaultKey| before.dom().contains(k) implies #[trigger] shifted[k] == pushed_down(before[k], row as int) by {
            assert(keys@.contains(k));
            let j = choose|j: int| 0 <= j < keys@.len() && keys@[j] == k;
            assert(shifted[keys@[j]] == pushed_down(before[keys@[j]], row as int));
        }
        let task = Task::new(row);
        let entity = store(&mut self.tasks, task);
        match lookup_mut(&mut self.tasks, entity) {
            Some(task) => task.connect(entity),
            None => {},
        }
        proof {
            let after = self.entries();
            assert(after.dom() =~= before.dom().insert(entity));
            assert forall|k: DefaultKey| before.dom().contains(k) implies #[trigger] after[k] == pushed_down(before[k], row as int) by {
                assert(after[k] == shifted[k]);
            }
            lemma_open_row(before, after, entity, row as int);
            assert(after =~= with_row(before, entity, after[entity]));
            assert(connected(after)) by {
                assert forall|k: DefaultKey| #[trigger] after.dom().contains(k) implies after[k].entity == Some(k) by {
                    if k != entity {
                        assert(after[k] == pushed_down(before[k], row as int));
                    }
                }
            }
        }
        entity
    }

    /// Inserts a row below the task `entity`, or at the top if no such task
    /// lives.
    pub fn insert(&mut self, entity: DefaultKey) -> (created: DefaultKey)
        requires
            old(self).wf(),
            old(self).len() < i32::MAX,
        ensures
            final(self).wf(),
            !old(self).entries().dom().contains(created),
            final(self).entries().dom() == old(self).entries().dom().insert(created),
            final(self).entries()[created].row == old(self).row_below(entity),
            final(self).entries()[created].text@ == Seq::<char>::empty(),
            final(self).entries()[created].entity == Some(created),
            final(self).entries() == with_row(old(self).entries(), created, final(self).entries()[created]),
            final(self).len() == old(self).len() + 1,
            final(self)@ == old(self)@.insert(old(self).row_below(entity), Seq::<char>::empty()),
            final(self).scheduled_write == old(self).scheduled_write,
            final(self).timers == old(self).timers,
    {
        let mut insert_at: i32 = 0;
        match lookup(&self.tasks, entity) {
            Some(task) => {
                proof {
                    lemma_key_at_row(self.entries(), entity);
                }
                insert_at = task.row + 1;
            },
            None => {},
        }
        self.insert_row(insert_at)
    }

    /// The row just below the task `entity`, or 0 if no such task lives.
    pub open spec fn row_below(&self, entity: DefaultKey) -> int {
        if self.entries().dom().contains(entity) {
            self.entries()[entity].row + 1
        } else {
            0
        }
    }

    /// Removes the task `entity` and moves every task below it up by one.
    /// A key that is not live changes nothing.
    pub fn remove_(&mut self, entity: DefaultKey) -> (removed: bool)
        requires
            old(self).wf(),
        ensures
            final(self).wf(),
            removed == old(self).entries().dom().contains(entity),
            final(self).entries() == without(old(self).entries(), entity),
            final(self).entries().dom() == old(self).entries().dom().remove(entity),
            removed ==> {
                &&& final(self).len() == old(self).len() - 1
                &&& final(self)@ == old(self)@.remove(old(self).entries()[entity].row as int)
            },
            !removed ==> final(self)@ == old(self)@,
            final(self).scheduled_write == old(self).scheduled_write,
            final(self).timers == old(self).timers,
    {
        let ghost before = self.entries();
        match take(&mut self.tasks, entity) {
            None => {
                assert(self.entries() =~= before);
                false
            },
            Some(gone) => {
                let ghost taken = self.entries();
                let keys = live_keys(&self.tasks);
                let mut i: usize = 0;
                while i < keys.len()
                    invariant
                        i <= keys.len(),
                        keys@.no_duplicates(),
                        forall|k: DefaultKey| keys@.contains(k) <==> taken.dom().contains(k),
                        self.entries().dom() == taken.dom(),
                        peak(self.tasks) == peak(old(self).tasks),
                        self.scheduled_write == old(self).scheduled_write,
                        self.timers == old(self).timers,
                        forall|k: DefaultKey| taken.dom().contains(k) ==> 0 <= (#[trigger] taken[k]).row,
                        forall|j: int| 0 <= j < i ==> self.entries()[#[trigger] keys@[j]] == pulled_up(taken[keys@[j]], gone.row as int),
                        forall|j: int| i <= j < keys.len() ==> self.entries()[#[trigger] keys@[j]] == taken[keys@[j]],
                    decreases keys.len() - i,
                {
                    let key = keys[i];
                    assert(keys@.contains(key));
                    let ghost mid = self.entries();
                    match lookup_mut(&mut self.tasks, key) {
                        Some(task) => {
                            if task.row > gone.row {
                                task.row = task.row - 1;
                            }
                        },
                        None => {},
                    }
                    assert(self.entries() == mid.insert(key, pulled_up(taken[key], gone.row as int)));
                    assert(self.entries().dom() =~= taken.dom());
                    i = i + 1;
                }
                proof {
                    let after = self.entries();
                    assert forall|k: DefaultKey| after.dom().contains(k) implies #[trigger] after[k] == pulled_up(before[k], before[entity].row as int) by {
                        assert(keys@.contains(k));
                        let j = choose|j: int| 0 <= j < keys@.len() && keys@[j] == k;
                        assert(after[keys@[j]] == pulled_up(taken[keys@[j]], gone.row as int));
                    }
                    lemma_close_row(before, after, entity);
                    assert(after =~= without(before, entity));
                    assert(connected(after)) by {
                        assert forall|k: DefaultKey| #[trigger] after.dom().contains(k) implies after[k].entity == Some(k) by {
                            assert(after[k] == pulled_up(before[k], before[entity].row as int));
                            assert(before.dom().contains(k));
                        }
                    }
                }
                true
            },
        }
    }

    /// Removes the task `entity` unless it is the only one: the list of an
    /// open window keeps a row to type in. Says whether a task was removed.
    pub fn remove(&mut self, entity: DefaultKey) -> (removed: bool)
        requires
            old(self).wf(),
        ensures
            final(self).wf(),
            removed == (old(self).entries().dom().contains(entity) && old(self).len() != 1),
            removed ==> {
                &&& final(self).entries() == without(old(self).entries(), entity)
                &&& final(self).len() == old(self).len() - 1
                &&& final(self)@ == old(self)@.remove(old(self).entries()[entity].row as int)
            },
            !removed ==> final(self).entries() == old(self).entries(),
            old(self).len() >= 1 ==> final(self).len() >= 1,
            final(self).scheduled_write == old(self).scheduled_write,
            final(self).timers == old(self).timers,
    {
        if count(&self.tasks) == 1 {
            return false;
        }
        self.remove_(entity)
    }

    /// Removes every task, one at a time.
    pub fn clear(&mut self)
        requires
            old(self).wf(),
        ensures
            final(self).wf(),
            final(self).len() == 0,
            final(self)@ == Seq::<Seq<char>>::empty(),
            final(self).scheduled_write == old(self).scheduled_write,
            final(self).timers == old(self).timers,
    {
        let keys = live_keys(&self.tasks);
        let mut i: usize = 0;
        assert forall|k: DefaultKey| self.entries().dom().contains(k)
            <==> exists|j: int| 0 <= j < keys@.len() && #[trigger] keys@[j] == k by {
            if self.entries().dom().contains(k) {
                assert(keys@.contains(k));
                let j = choose|j: int| 0 <= j < keys@.len() && keys@[j] == k;
                assert(keys@[j] == k);
            }
            if exists|j: int| 0 <= j < keys@.len() && #[trigger] keys@[j] == k {
                assert(keys@.contains(k));
            }
        }
        while i < keys.len()
            invariant
                i <= keys.len(),
                self.wf(),
                keys@.no_duplicates(),
                forall|k: DefaultKey| self.entries().dom().contains(k)
                    <==> exists|j: int| i <= j < keys@.len() && #[trigger] keys@[j] == k,
                self.scheduled_write == old(self).scheduled_write,
                self.timers == old(self).timers,
            decreases keys.len() - i,
        {
            let ghost dom = self.entries().dom();
            self.remove_(keys[i]);
            assert forall|k: DefaultKey| self.entries().dom().contains(k)
                <==> exists|j: int| i + 1 <= j < keys@.len() && #[trigger] keys@[j] == k by {
                if self.entries().dom().contains(k) {
                    assert(dom.contains(k) && k != keys@[i as int]);
                    let j = choose|j: int| i <= j < keys@.len() && #[trigger] keys@[j] == k;
                    assert(i + 1 <= j);
                }
                if exists|j: int| i + 1 <= j < keys@.len() && #[trigger] keys@[j] == k {
                    let j = choose|j: int| i + 1 <= j < keys@.len() && #[trigger] keys@[j] == k;
                    assert(dom.contains(k));
                }
            }
            i = i + 1;
        }
        assert(self.entries().dom() =~= Set::<DefaultKey>::empty());
        assert(self@ =~= Seq::<Seq<char>>::empty());
    }

    /// The list as a window shows it at first: one empty row, no save pending.
    pub fn new() -> (app: App)
        ensures
            app.wf(),
            app.len() == 1,
            app@ == seq![Seq::<char>::empty()],
            app.scheduled_write is None,
            app.timers == 0,
    {
        let mut app = App { tasks: empty_map(), scheduled_write: None, timers: 0 };
        proof {
            assert(app.entries().dom() =~= Set::<DefaultKey>::empty());
            assert(app@ =~= Seq::<Seq<char>>::empty());
        }
        app.insert_row(0);
        assert(app@ =~= seq![Seq::<char>::empty()]);
        app
    }

    /// Replaces the list by one task per line of `data`, without asking for
    /// a save: no timer is started or cancelled.
    pub fn load(&mut self, data: String)
        requires
            old(self).wf(),
            lines_of(data@).len() <= i32::MAX,
        ensures
            final(self).wf(),
            final(self)@ == lines_of(data@),
            final(self).scheduled_write == old(self).scheduled_write,
            final(self).timers == old(self).timers,
    {
        self.clear();
        let lines = split_lines(data.as_str());
        let mut row: usize = 0;
        while row < lines.len()
            invariant
                self.wf(),
                row <= lines.len() <= i32::MAX,
                views(lines@) == lines_of(data@),
                self.len() == row,
                self@ == views(lines@).take(row as int),
                self.scheduled_write == old(self).scheduled_write,
                self.timers == old(self).timers,
            decreases lines.len() - row,
        {
            let entity = self.insert_row(row as i32);
            let ghost mid = self.entries();
            match lookup_mut(&mut self.tasks, entity) {
                Some(task) => task.set_text(lines[row].as_str()),
                None => {},
            }
            proof {
                let after = self.entries();
                lemma_retext(mid, entity, after[entity]);
                assert(connected(after));
                assert(self@ =~= views(lines@).take(row + 1));
            }
            row = row + 1;
        }
        assert(views(lines@).take(row as int) =~= views(lines@));
    }

    /// The keys of the tasks in row order.
    pub fn entities(&self) -> (order: Vec<DefaultKey>)
        requires
            self.wf(),
        ensures
            order@.len() == self.len(),
            forall|r: int| 0 <= r < order@.len() ==> {
                &&& #[trigger] order@[r] == key_at(self.entries(), r)
                &&& self.entries().dom().contains(order@[r])
                &&& self.entries()[order@[r]].row == r
            },
    {
        let keys = live_keys(&self.tasks);
        let n = keys.len();
        let ghost m = self.entries();
        let mut order: Vec<DefaultKey> = Vec::new();
        let mut i: usize = 0;
        while i < n
            invariant
                i <= n,
                n == keys.len(),
                order.len() == i,
            decreases n - i,
        {
            order.push(keys[0]);
            i = i + 1;
        }
        i = 0;
        while i < n
            invariant
                i <= n,
                n == keys.len(),
                n == m.dom().len(),
                order.len() == n,
                m == self.entries(),
                contiguous(m),
                forall|k: DefaultKey| keys@.contains(k) <==> m.dom().contains(k),
                forall|j: int| 0 <= j < i ==> order@[m[#[trigger] keys@[j]].row as int] == keys@[j],
            decreases n - i,
        {
            let key = keys[i];
            assert(keys@.contains(key));
            match lookup(&self.tasks, key) {
                Some(task) => {
                    order.set(task.row as usize, key);
                    assert forall|j: int| 0 <= j < i + 1 implies order@[m[#[trigger] keys@[j]].row as int] == keys@[j] by {
                        assert(keys@.contains(keys@[j]));
                        if j < i && m[keys@[j]].row == task.row {
                            assert(keys@[j] == key);
                        }
                    }
                },
                None => {},
            }
            i = i + 1;
        }
        proof {
            assert forall|r: int| 0 <= r < n implies #[trigger] order@[r] == key_at(m, r) && m.dom().contains(order@[r]) && m[order@[r]].row == r by {
                lemma_row_key(m, r);
                let k = key_at(m, r);
                assert(keys@.contains(k));
                let j = choose|j: int| 0 <= j < keys@.len() && keys@[j] == k;
                assert(order@[m[keys@[j]].row as int] == keys@[j]);
            }
        }
        order
    }

    /// The saved form of the list: each text that is not empty, followed by
    /// a newline, in row order.
    pub fn serialize(&self) -> (contents: String)
        requires
            self.wf(),
        ensures
            contents@ == payload_of(self@),
    {
        let order = self.entities();
        let n = order.len();
        let ghost m = self.entries();
        let mut contents = String::new();
        let mut r: usize = 0;
        assert(self@.take(0) =~= Seq::<Seq<char>>::empty());
        while r < n
            invariant
                r <= n,
                n == m.dom().len(),
                order.len() == n,
                m == self.entries(),
                contiguous(m),
                forall|r: int| 0 <= r < n ==> #[trigger] order@[r] == key_at(m, r),
                contents@ == payload_of(self@.take(r as int)),
            decreases n - r,
        {
            proof {
                lemma_row_key(m, r as int);
                lemma_payload_push(self@.take(r as int), self@[r as int]);
                assert(self@.take(r + 1) =~= self@.take(r as int).push(self@[r as int]));
                reveal_strlit("\n");
            }
            match lookup(&self.tasks, order[r]) {
                Some(task) => {
                    if !task.text.as_str().is_empty() {
                        contents.append(task.text.as_str());
                        contents.append("\n");
                        assert(contents@ =~= payload_of(self@.take(r as int)) + self@[r as int].push('\n'));
                    } else {
                        assert(contents@ =~= payload_of(self@.take(r as int)) + Seq::<char>::empty());
                    }
                },
                None => {},
            }
            r = r + 1;
        }
        assert(self@.take(n as int) =~= self@);
        contents
    }

    /// A text was edited: the pending timer, if any, is to be cancelled and
    /// a new one started for the quiet period. The new timer is the one that
    /// is pending afterwards, and it is not the cancelled one.
    pub fn modified(&mut self) -> (rearm: Rearm)
        requires
            old(self).wf(),
        ensures
            final(self).wf(),
            rearm.cancel == old(self).scheduled_write,
            rearm.start == old(self).timers,
            rearm.delay_ms == QUIET_PERIOD_MS,
            rearm.cancel != Some(rearm.start),
            final(self).scheduled_write == Some(rearm.start),
            final(self).timers == next_timer(old(self).timers),
            (final(self).scheduled_write, final(self).timers) == after_edits(
                old(self).scheduled_write,
                old(self).timers,
                1,
            ),
            final(self).tasks == old(self).tasks,
    {
        assert(after_edits(self.scheduled_write, self.timers, 0) == (self.scheduled_write, self.timers));
        let cancel = self.scheduled_write;
        let start = self.timers;
        self.scheduled_write = Some(start);
        self.timers = if start == u64::MAX { 0 } else { start + 1 };
        Rearm { cancel, start, delay_ms: QUIET_PERIOD_MS }
    }

    /// The timer `timer` has run out. It asks for a save only if it is the
    /// pending one: a timer that was superseded asks for nothing.
    pub fn timer_fired(&self, timer: u64) -> (event: Option<Event>)
        ensures
            self.scheduled_write == Some(timer) ==> event == Some(Event::SyncToDisk),
            self.scheduled_write != Some(timer) ==> event is None,
    {
        match self.scheduled_write {
            Some(pending) => if pending == timer { Some(Event::SyncToDisk) } else { None },
            None => None,
        }
    }

    /// Saves now: no timer is pending afterwards, and the command that comes
    /// back carries the saved form of the list for the background actor.
    pub fn sync_to_disk(&mut self) -> (command: BgEvent)
        requires
            old(self).wf(),
        ensures
            final(self).wf(),
            final(self).scheduled_write is None,
            final(self).timers == old(self).timers,
            final(self).tasks == old(self).tasks,
            is_save_of(command, old(self)@),
    {
        self.scheduled_write = None;
        let contents = self.serialize();
        let path = String::from_str("Task");
        BgEvent::Save(path, contents)
    }

    /// The window was closed: the list is saved first and the background
    /// actor is told to quit after that, in this order.
    pub fn closed(&mut self) -> (commands: Vec<BgEvent>)
        requires
            old(self).wf(),
        ensures
            final(self).wf(),
            final(self).scheduled_write is None,
            final(self).timers == old(self).timers,
            final(self).tasks == old(self).tasks,
            commands@.len() == 2,
            is_save_of(commands@[0], old(self)@),
            commands@[1] is Quit,
    {
        let save = self.sync_to_disk();
        let mut commands: Vec<BgEvent> = Vec::new();
        commands.push(save);
        commands.push(BgEvent::Quit);
        commands
    }
}

/// The quiet period after an edit before the list is saved, in milliseconds.
pub const QUIET_PERIOD_MS: u32 = 5000;

/// What is to be done with the timers after an edit.
pub struct Rearm {
    /// The timer to cancel, if one was pending.
    pub cancel: Option<u64>,
    /// The timer to start.
    pub start: u64,
    /// How long the new timer runs, in milliseconds.
    pub delay_ms: u32,
}

/// The name of the timer started after the timer `timer`.
pub open spec fn next_timer(timer: u64) -> u64 {
    if timer == u64::MAX {
        0
    } else {
        (timer + 1) as u64
    }
}

/// The command saves the given texts to the list's file.
pub open spec fn is_save_of(command: BgEvent, texts: Seq<Seq<char>>) -> bool {
    match command {
        BgEvent::Save(path, contents) => path@ == "Task"@ && contents@ == payload_of(texts),
        BgEvent::Quit => false,
    }
}

/// The pending timer and the timer count after `n` edits in a row, from a
/// state in which `pending` was pending and `timers` timers had been started.
pub open spec fn after_edits(pending: Option<u64>, timers: u64, n: nat) -> (Option<u64>, u64)
    decreases n,
{
    if n == 0 {
        (pending, timers)
    } else {
        let before = after_edits(pending, timers, (n - 1) as nat);
        (Some(before.1), next_timer(before.1))
    }
}

/// The timer that the edit number `i` of a burst starts, counted from 0.
pub open spec fn started_by(timers: u64, i: nat) -> u64 {
    after_edits(None, timers, i).1
}

/// A burst of edits leaves one timer pending: the one that the last edit
/// started. Each edit before it started a timer that the next edit cancelled,
/// and none of those is the pending one, so none of them asks for a save.
pub proof fn lemma_burst_leaves_last_timer(pending: Option<u64>, timers: u64, n: nat)
    requires
        1 <= n <= u64::MAX,
    ensures
        after_edits(pending, timers, n).0 == Some(started_by(timers, (n - 1) as nat)),
        forall|i: nat| i < n - 1 ==> after_edits(pending, timers, i + 1).0 == Some(#[trigger] started_by(timers, i)),
        forall|i: nat| i < n - 1 ==> #[trigger] started_by(timers, i) != started_by(timers, (n - 1) as nat),
{
    assert forall|i: nat| i < n implies after_edits(pending, timers, i + 1).0 == Some(#[trigger] started_by(timers, i)) by {
        lemma_timer_count(pending, timers, i);
        lemma_timer_count(None, timers, i);
    }
    lemma_timer_count(None, timers, (n - 1) as nat);
    assert forall|i: nat| i < n - 1 implies #[trigger] started_by(timers, i) != started_by(timers, (n - 1) as nat) by {
        lemma_timer_count(None, timers, i);
    }
}

/// The timer count after `n` edits is the count before plus `n`, modulo 2^64,
/// whatever was pending.
pub proof fn lemma_timer_count(pending: Option<u64>, timers: u64, n: nat)
    ensures
        after_edits(pending, timers, n).1 == (timers + n) % 0x1_0000_0000_0000_0000,
    decreases n,
{
    if n > 0 {
        lemma_timer_count(pending, timers, (n - 1) as nat);
    }
}

} // verus!

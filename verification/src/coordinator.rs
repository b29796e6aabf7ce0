//! The coordinator: what each event does to the list, and what it asks of
//! the timers, of the background actor and of the main loop.

use vstd::prelude::*;
use slotmap::DefaultKey;
use crate::app::{is_save_of, next_timer, App, Rearm, QUIET_PERIOD_MS};
use crate::events::{BgEvent, Event};
use crate::model::{connected, lemma_retext, with_row, without};
use crate::slots::{count, lookup, lookup_mut};
use crate::text::{lines_of, split_lines};
use crate::widgets::Task;
use vstd::string::*;

verus! {

/// What the caller has to do after an event was handled.
pub struct Reaction {
    /// The task that was created and whose row is to be shown and wired.
    pub created: Option<DefaultKey>,
    /// The timers to cancel and to start.
    pub rearm: Option<Rearm>,
    /// The commands for the background actor, to be sent in this order.
    pub commands: Vec<BgEvent>,
    /// The main loop is to end.
    pub quit: bool,
}

impl Reaction {
    /// Nothing is asked of timers, background actor or main loop.
    pub open spec fn is_quiet(&self) -> bool {
        &&& self.rearm is None
        &&& self.commands@.len() == 0
        &&& !self.quit
    }
}

/// The event can be handled in the state `app`: the list has room for the
/// row that an insertion adds, and for the lines of a text to load.
pub open spec fn admits(app: App, event: Event) -> bool {
    match event {
        Event::Insert(_) => app.len() < i32::MAX,
        Event::Load(data) => lines_of(data@).len() <= i32::MAX,
        _ => true,
    }
}

/// What handling `event` in the state `pre` leads to.
pub open spec fn handled(pre: App, event: Event, post: App, reaction: Reaction) -> bool {
    match event {
        Event::Insert(entity) => {
            &&& reaction.created is Some
            &&& reaction.is_quiet()
            &&& !pre.entries().dom().contains(reaction.created->0)
            &&& post.entries()[reaction.created->0].row == pre.row_below(entity)
            &&& post.entries()[reaction.created->0].text@ == Seq::<char>::empty()
            &&& post.entries()[reaction.created->0].entity == reaction.created
            &&& post.entries() == with_row(pre.entries(), reaction.created->0, post.entries()[reaction.created->0])
            &&& post@ == pre@.insert(pre.row_below(entity), Seq::<char>::empty())
            &&& post.scheduled_write == pre.scheduled_write
            &&& post.timers == pre.timers
        },
        Event::Remove(entity) => {
            &&& reaction.created is None
            &&& reaction.is_quiet()
            &&& post.entries() == if pre.len() != 1 {
                without(pre.entries(), entity)
            } else {
                pre.entries()
            }
            &&& pre.len() >= 1 ==> post.len() >= 1
            &&& post@ == if pre.len() != 1 && pre.entries().dom().contains(entity) {
                pre@.remove(pre.entries()[entity].row as int)
            } else {
                pre@
            }
            &&& post.scheduled_write == pre.scheduled_write
            &&& post.timers == pre.timers
        },
        Event::Modified => {
            &&& reaction.created is None
            &&& reaction.commands@.len() == 0
            &&& !reaction.quit
            &&& reaction.rearm == Some(
                Rearm { cancel: pre.scheduled_write, start: pre.timers, delay_ms: QUIET_PERIOD_MS },
            )
            &&& post.scheduled_write == Some(pre.timers)
            &&& post.timers == next_timer(pre.timers)
            &&& post.tasks == pre.tasks
        },
        Event::SyncToDisk => {
            &&& reaction.created is None
            &&& reaction.rearm is None
            &&& !reaction.quit
            &&& reaction.commands@.len() == 1
            &&& is_save_of(reaction.commands@[0], pre@)
            &&& post.scheduled_write is None
            &&& post.timers == pre.timers
            &&& post.tasks == pre.tasks
        },
        Event::Load(data) => {
            &&& reaction.created is None
            &&& reaction.is_quiet()
            &&& post@ == lines_of(data@)
            &&& post.scheduled_write == pre.scheduled_write
            &&& post.timers == pre.timers
        },
        Event::Closed => {
            &&& reaction.created is None
            &&& reaction.rearm is None
            &&& !reaction.quit
            &&& reaction.commands@.len() == 2
            &&& is_save_of(reaction.commands@[0], pre@)
            &&& reaction.commands@[1] is Quit
            &&& post.scheduled_write is None
            &&& post.timers == pre.timers
            &&& post.tasks == pre.tasks
        },
        Event::Quit => {
            &&& reaction.created is None
            &&& reaction.rearm is None
            &&& reaction.commands@.len() == 0
            &&& reaction.quit
            &&& post == pre
        },
    }
}

impl App {
    /// Handles one event: changes the list as the event asks and says what
    /// is to be done outside it.
    pub fn handle(&mut self, event: Event) -> (reaction: Reaction)
        requires
            old(self).wf(),
            admits(*old(self), event),
        ensures
            final(self).wf(),
            handled(*old(self), event, *final(self), reaction),
    {
        let mut reaction = Reaction { created: None, rearm: None, commands: Vec::new(), quit: false };
        match event {
            Event::Insert(entity) => {
                reaction.created = Some(self.insert(entity));
            },
            Event::Remove(entity) => {
                self.remove(entity);
            },
            Event::Modified => {
                reaction.rearm = Some(self.modified());
            },
            Event::SyncToDisk => {
                let save = self.sync_to_disk();
                reaction.commands.push(save);
            },
            Event::Load(data) => {
                self.load(data);
            },
            Event::Closed => {
                reaction.commands = self.closed();
            },
            Event::Quit => {
                reaction.quit = true;
            },
        }
        reaction
    }

    /// Whether an event can be handled now.
    pub fn can_handle(&self, event: &Event) -> (yes: bool)
        requires
            self.wf(),
        ensures
            yes == admits(*self, *event),
    {
        match event {
            Event::Insert(_) => count(&self.tasks) < 0x7fff_ffff,
            Event::Load(data) => split_lines(data.as_str()).len() <= 0x7fff_ffff,
            _ => true,
        }
    }

    /// The number of tasks.
    pub fn count(&self) -> (n: usize)
        ensures
            n == self.len(),
    {
        count(&self.tasks)
    }

    /// The row of a task, if it lives.
    pub fn row(&self, entity: DefaultKey) -> (row: Option<i32>)
        ensures
            row == if self.entries().dom().contains(entity) {
                Some(self.entries()[entity].row)
            } else {
                None
            },
    {
        match lookup(&self.tasks, entity) {
            Some(task) => Some(task.row),
            None => None,
        }
    }

    /// The task under a key, if it lives.
    pub fn task(&self, entity: DefaultKey) -> (task: Option<&Task>)
        ensures
            match task {
                Some(t) => self.entries().dom().contains(entity) && *t == self.entries()[entity],
                None => !self.entries().dom().contains(entity),
            },
    {
        lookup(&self.tasks, entity)
    }

    /// The user has edited the text of a task. A live task takes the text
    /// and reports the change; for any other key nothing happens.
    pub fn edited(&mut self, entity: DefaultKey, text: &str) -> (event: Option<Event>)
        requires
            old(self).wf(),
        ensures
            final(self).wf(),
            final(self).scheduled_write == old(self).scheduled_write,
            final(self).timers == old(self).timers,
            final(self).entries().dom() == old(self).entries().dom(),
            old(self).entries().dom().contains(entity) ==> {
                &&& event == Some(Event::Modified)
                &&& final(self)@ == old(self)@.update(old(self).entries()[entity].row as int, text@)
                &&& final(self).entries()[entity].row == old(self).entries()[entity].row
                &&& final(self).entries()[entity].text@ == text@
                &&& forall|k: DefaultKey| k != entity ==> final(self).entries()[k] == old(self).entries()[k]
            },
            !old(self).entries().dom().contains(entity) ==> {
                &&& event is None
                &&& final(self).entries() == old(self).entries()
            },
    {
        let ghost before = self.entries();
        match lookup_mut(&mut self.tasks, entity) {
            Some(task) => {
                let event = task.changed(text);
                proof {
                    let after = self.entries();
                    lemma_retext(before, entity, after[entity]);
                    assert(connected(after));
                }
                Some(event)
            },
            None => None,
        }
    }

    /// The user has pressed enter in a task's row, or its insert button: a
    /// live task with text asks for a row below it.
    pub fn activated(&self, entity: DefaultKey) -> (event: Option<Event>)
        requires
            self.wf(),
        ensures
            event == if self.entries().dom().contains(entity) && self.entries()[entity].text@.len() != 0 {
                Some(Event::Insert(entity))
            } else {
                None
            },
    {
        match lookup(&self.tasks, entity) {
            Some(task) => task.activated(),
            None => None,
        }
    }
}

} // verus!

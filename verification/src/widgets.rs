//! One row of the list: its text, its place, and the events it gives rise to.

use vstd::prelude::*;
use vstd::string::*;
use slotmap::DefaultKey;
use crate::events::Event;

verus! {

/// A task as the list sees it.
pub struct Task {
    /// What the row's text field holds.
    pub text: String,
    /// The key under which the row reports its events, once connected.
    pub entity: Option<DefaultKey>,
    /// The row's position in the list, counted from 0.
    pub row: i32,
}

impl Task {
    /// A row at `row` with no text, not yet connected.
    pub fn new(row: i32) -> (task: Task)
        ensures
            task.row == row,
            task.text@ == Seq::<char>::empty(),
            task.entity is None,
    {
        Task { text: String::new(), entity: None, row }
    }

    /// Connects the row: from now on its events name `entity`.
    pub fn connect(&mut self, entity: DefaultKey)
        ensures
            final(self).entity == Some(entity),
            final(self).text == old(self).text,
            final(self).row == old(self).row,
    {
        self.entity = Some(entity);
    }

    /// Replaces the text without reporting a change: no event comes back.
    pub fn set_text(&mut self, text: &str)
        requires
            old(self).entity is Some,
        ensures
            final(self).text@ == text@,
            final(self).entity == old(self).entity,
            final(self).row == old(self).row,
    {
        self.text = String::from_str(text);
    }

    /// The user has edited the text: the row takes it and reports
    /// `Event::Modified`.
    pub fn changed(&mut self, text: &str) -> (event: Event)
        requires
            old(self).entity is Some,
        ensures
            final(self).text@ == text@,
            final(self).entity == old(self).entity,
            final(self).row == old(self).row,
            event is Modified,
    {
        self.text = String::from_str(text);
        Event::Modified
    }

    /// The user has pressed enter in the row, or its insert button: a row
    /// with text asks for a new row below it, an empty one asks for nothing.
    pub fn activated(&self) -> (event: Option<Event>)
        requires
            self.entity is Some,
        ensures
            self.text@.len() == 0 ==> event is None,
            self.text@.len() != 0 ==> event == Some(Event::Insert(self.entity->0)),
    {
        if self.text.as_str().is_empty() {
            None
        } else {
            Some(Event::Insert(self.entity.unwrap()))
        }
    }

    /// The user has pressed the row's remove button.
    pub fn remove_clicked(&self) -> (event: Event)
        requires
            self.entity is Some,
        ensures
            event == Event::Remove(self.entity->0),
    {
        Event::Remove(self.entity.unwrap())
    }
}

} // verus!

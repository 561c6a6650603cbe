use vstd::prelude::*;
use crate::colors::Color;
use crate::map::Grid;

verus! {

/// The message log, oldest message first.
pub struct Messages {
    messages: Vec<(String, Color)>,
}

/// The text and colour of each logged message.
pub open spec fn texts_of(entries: Seq<(String, Color)>) -> Seq<(Seq<char>, Color)> {
    entries.map_values(|m: (String, Color)| (m.0@, m.1))
}

impl View for Messages {
    type V = Seq<(Seq<char>, Color)>;

    closed spec fn view(&self) -> Seq<(Seq<char>, Color)> {
        texts_of(self.messages@)
    }
}

impl Messages {
    /// An empty log.
    pub fn new() -> (m: Messages)
        ensures
            m@ == Seq::<(Seq<char>, Color)>::empty(),
    {
        let m = Messages { messages: Vec::new() };
        assert(m@ =~= Seq::<(Seq<char>, Color)>::empty());
        m
    }

    /// Appends a message to the log.
    pub fn add(&mut self, message: String, color: Color)
        ensures
            final(self)@ == old(self)@.push((message@, color)),
    {
        let ghost text = message@;
        self.messages.push((message, color));
        assert(self@ =~= old(self)@.push((text, color)));
    }

    /// The logged messages, oldest first.
    pub fn iter(&self) -> (entries: &[(String, Color)])
        ensures
            texts_of(entries@) == self@,
    {
        self.messages.as_slice()
    }
}

/// The state of a game besides its objects: the dungeon and the message log.
pub struct Game {
    pub map: Grid,
    pub messages: Messages,
}

} // verus!

use vstd::prelude::*;

verus! {

/// An event recognised in the byte stream.
#[derive(Debug, Clone, PartialEq, Eq)]
pub enum OscEvent {
    /// `133;A`: a prompt is about to be drawn.
    PromptStart,
    /// `133;C`: a command starts running.
    CommandStart,
    /// `133;D[;code]`: the command finished with this exit code.
    CommandEnd(i32),
    /// `133;VIBE;CMD;<base64>`: the text of the command.
    CommandText(String),
}

/// The mathematical value of an event.
pub enum EventView {
    PromptStart,
    CommandStart,
    CommandEnd(i32),
    CommandText(Seq<char>),
}

impl View for OscEvent {
    type V = EventView;

    open spec fn view(&self) -> EventView {
        match self {
            OscEvent::PromptStart => EventView::PromptStart,
            OscEvent::CommandStart => EventView::CommandStart,
            OscEvent::CommandEnd(c) => EventView::CommandEnd(*c),
            OscEvent::CommandText(s) => EventView::CommandText(s@),
        }
    }
}

/// The view of an optional event.
pub open spec fn opt_event_view(e: Option<OscEvent>) -> Option<EventView> {
    match e {
        Some(ev) => Some(ev@),
        None => None,
    }
}

/// The views of a sequence of events.
pub open spec fn event_views(es: Seq<OscEvent>) -> Seq<EventView> {
    es.map_values(|e: OscEvent| e@)
}

} // verus!

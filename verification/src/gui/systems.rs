//! Widget input state, and how mouse events move it.
use vstd::prelude::*;
use crate::collections::ordered_dag::NodeId;
use crate::gui::{Entity, HoveredWidget};

verus! {

/// Widget that received a pressed event, and should be the receiver of the
/// next release event.
#[derive(Debug)]
pub struct PressedWidget(Option<(Entity, NodeId)>);

impl Default for PressedWidget {
    /// No widget is pressed.
    fn default() -> (r: Self)
        ensures
            r.widget() is None,
    {
        PressedWidget(None)
    }
}

impl PressedWidget {
    /// The pressed widget, if any.
    pub closed spec fn widget(&self) -> Option<(Entity, NodeId)> {
        self.0
    }

    pub fn entity(&self) -> (r: Option<Entity>)
        ensures
            r == (match self.widget() {
                Some((e, _)) => Some(e),
                None => None,
            }),
    {
        match self.0 {
            Some((e, _)) => Some(e),
            None => None,
        }
    }

    pub fn node_id(&self) -> (r: Option<NodeId>)
        ensures
            r == (match self.widget() {
                Some((_, n)) => Some(n),
                None => None,
            }),
    {
        match self.0 {
            Some((_, n)) => Some(n),
            None => None,
        }
    }

    pub fn set(&mut self, entity: Entity, node_id: NodeId)
        ensures
            final(self).widget() == Some((entity, node_id)),
    {
        self.0 = Some((entity, node_id));
    }

    pub fn has_widget(&self) -> (r: bool)
        ensures
            r == self.widget() is Some,
    {
        self.0.is_some()
    }

    pub fn clear(&mut self) -> (r: Option<(Entity, NodeId)>)
        ensures
            r == old(self).widget(),
            final(self).widget() is None,
    {
        self.0.take()
    }
}

/// Marks a widget as interactable via user mouse input.
pub struct Clickable;

/// GUI event kind.
#[derive(Debug, Clone, Copy, PartialEq, Eq, Structural)]
pub enum WidgetEventKind {
    HoverOver,
    HoverOut,
    Pressed,
    Released,
}

/// A mouse event, as the GUI reacts to it.
#[derive(Debug, Clone, Copy, PartialEq, Eq, Structural)]
pub enum PointerEvent {
    /// The cursor moved.
    CursorMoved,
    /// A mouse button went down.
    ButtonPressed,
    /// A mouse button went up.
    ButtonReleased,
}

/// An event for a widget, caused by mouse input.
#[derive(Debug, Clone, Copy, PartialEq, Eq, Structural)]
pub struct WidgetEvent {
    pub entity: Entity,
    pub node_id: NodeId,
    pub kind: WidgetEventKind,
}

/// The event of the given kind for the widget `w`.
pub open spec fn event_for(w: (Entity, NodeId), kind: WidgetEventKind) -> Option<WidgetEvent> {
    Some(WidgetEvent { entity: w.0, node_id: w.1, kind })
}

/// `held` is a widget of entity `e`.
pub open spec fn holds_entity(held: Option<(Entity, NodeId)>, e: Entity) -> bool {
    held matches Some((h, _)) && h == e
}

/// Reacts to a mouse event, given the clickable widget under the cursor,
/// found by the caller: updates the hovered and pressed widgets and returns
/// the event to send, if any.
///
/// - A move over a widget of another entity than the hovered one hovers it
///   (`HoverOver`); a move over no widget ends the hover (`HoverOut`).
/// - A press on a widget presses it (`Pressed`).
/// - A release on a widget clears the pressed widget, and sends `Released`
///   only if that widget's entity was the pressed one.
/// - A button event over no widget changes nothing.
pub fn handle_pointer_event(
    hovered: &mut HoveredWidget,
    pressed: &mut PressedWidget,
    input: PointerEvent,
    under_cursor: Option<(Entity, NodeId)>,
) -> (r: Option<WidgetEvent>)
    ensures
        input == PointerEvent::CursorMoved ==> {
            &&& final(pressed).widget() == old(pressed).widget()
            &&& match under_cursor {
                Some(w) => if holds_entity(old(hovered).widget(), w.0) {
                    r is None && final(hovered).widget() == old(hovered).widget()
                } else {
                    r == event_for(w, WidgetEventKind::HoverOver) && final(hovered).widget() == Some(w)
                },
                None => {
                    &&& final(hovered).widget() is None
                    &&& r == match old(hovered).widget() {
                        Some(h) => event_for(h, WidgetEventKind::HoverOut),
                        None => None,
                    }
                },
            }
        },
        input != PointerEvent::CursorMoved ==> final(hovered).widget() == old(hovered).widget(),
        input != PointerEvent::CursorMoved && under_cursor is None ==> {
            &&& r is None
            &&& final(pressed).widget() == old(pressed).widget()
        },
        input == PointerEvent::ButtonPressed ==> (under_cursor matches Some(w) ==> {
            &&& r == event_for(w, WidgetEventKind::Pressed)
            &&& final(pressed).widget() == Some(w)
        }),
        input == PointerEvent::ButtonReleased ==> (under_cursor matches Some(w) ==> {
            &&& final(pressed).widget() is None
            &&& r == if holds_entity(old(pressed).widget(), w.0) {
                event_for(w, WidgetEventKind::Released)
            } else {
                None
            }
        }),
{
    match input {
        PointerEvent::CursorMoved => match under_cursor {
            Some((entity, node_id)) => {
                let same = match hovered.entity() {
                    Some(h) => h == entity,
                    None => false,
                };
                if same {
                    None
                } else {
                    hovered.set(entity, node_id);
                    Some(WidgetEvent { entity, node_id, kind: WidgetEventKind::HoverOver })
                }
            },
            None => match hovered.clear() {
                Some((entity, node_id)) => Some(
                    WidgetEvent { entity, node_id, kind: WidgetEventKind::HoverOut },
                ),
                None => None,
            },
        },
        PointerEvent::ButtonPressed => match under_cursor {
            Some((entity, node_id)) => {
                pressed.set(entity, node_id);
                Some(WidgetEvent { entity, node_id, kind: WidgetEventKind::Pressed })
            },
            None => None,
        },
        PointerEvent::ButtonReleased => match under_cursor {
            Some((entity, node_id)) => {
                let was_pressed = match pressed.entity() {
                    Some(p) => p == entity,
                    None => false,
                };
                pressed.clear();
                if was_pressed {
                    Some(WidgetEvent { entity, node_id, kind: WidgetEventKind::Released })
                } else {
                    None
                }
            },
            None => None,
        },
    }
}

} // verus!

use vtui::errors::{RuntimeError, SendError, StateError};
use vtui::events::{
    Event, KeyPress, KeyRelease, KeyRepeat, Message, MouseDown, MouseDrag, MouseEvent,
    MouseHover, MouseScroll, MouseUp, Resize, Tick,
};
use vtui::input::{
    Input, KeyCode, MediaKeyCode, ModifierKeyCode, ModifierKeyDirection, MouseButton,
    MouseScrollDirection,
};
use vtui::launch::{ChannelSender, LaunchBuilder, LaunchConfig, Scope, UpdateContext, FRAME_MILLIS};
use vtui::transport::{recv_outcome, send_outcome, MessageBus, MessageSender};

#[test]
fn send_after_the_receiver_is_gone_is_an_error() {
    let bus = MessageBus::new();
    let sender = bus.handle().clone();
    assert_eq!(sender.send(Message::Tick(Tick)), Ok(()));
    drop(bus);
    assert_eq!(sender.send(Message::Tick(Tick)), Err(SendError));
    assert_eq!(sender.clone().send(Message::Tick(Tick)), Err(SendError));
}

#[test]
fn messages_arrive_in_the_order_in_which_they_were_sent() {
    let bus = MessageBus::new();
    assert_eq!(bus.try_recv(), None);
    let sender = bus.handle().clone();
    let first = Message::KeyPress(KeyPress { key: KeyCode::Char('a') });
    let second = Message::Resize(Resize { width: 80, height: 24 });
    assert!(sender.send(first).is_ok());
    assert!(bus.handle().send(second).is_ok());
    assert_eq!(bus.try_recv(), Some(first));
    assert_eq!(bus.try_recv(), Some(second));
    assert_eq!(bus.try_recv(), None);
    assert!(bus.receiver().is_empty());
}

#[test]
fn sender_wraps_a_channel_of_the_caller() {
    let (tx, rx) = async_channel::unbounded::<Message>();
    let sender = MessageSender::from(tx);
    assert!(sender.send(Message::Tick(Tick)).is_ok());
    assert_eq!(rx.try_recv(), Ok(Message::Tick(Tick)));
    drop(rx);
    assert_eq!(sender.send(Message::Tick(Tick)), Err(SendError));
}

#[test]
fn outcome_of_a_send_keeps_success_and_failure_apart() {
    assert_eq!(send_outcome(Ok(())), Ok(()));
    let msg = Message::Tick(Tick);
    assert_eq!(send_outcome(Err(async_channel::TrySendError::Closed(msg))), Err(SendError));
    assert_eq!(send_outcome(Err(async_channel::TrySendError::Full(msg))), Err(SendError));
}

#[test]
fn input_becomes_the_event_of_its_kind() {
    let button = MouseButton::Middle;
    assert_eq!(
        Input::MouseDown { x: 1, y: 2, button }.to_message(),
        Message::MouseDown(MouseDown { x: 1, y: 2, button })
    );
    assert_eq!(
        Input::MouseUp { x: 3, y: 4, button }.to_message(),
        Message::MouseUp(MouseUp { x: 3, y: 4, button })
    );
    assert_eq!(
        Input::MouseHover { x: 5, y: 6 }.to_message(),
        Message::MouseHover(MouseHover { x: 5, y: 6 })
    );
    assert_eq!(
        Input::MouseDrag { x: 7, y: 8, button }.to_message(),
        Message::MouseDrag(MouseDrag { x: 7, y: 8, button })
    );
    let direction = MouseScrollDirection::Left;
    assert_eq!(
        Input::MouseScroll { x: 9, y: 10, direction }.to_message(),
        Message::MouseScroll(MouseScroll { x: 9, y: 10, direction })
    );
    let key = KeyCode::Modifier(ModifierKeyCode::Ctrl, ModifierKeyDirection::Right);
    assert_eq!(Input::KeyPress { key }.to_message(), Message::KeyPress(KeyPress { key }));
    let key = KeyCode::Media(MediaKeyCode::PlayPause);
    assert_eq!(Input::KeyRepeat { key }.to_message(), Message::KeyRepeat(KeyRepeat { key }));
    let key = KeyCode::F(12);
    assert_eq!(Input::KeyRelease { key }.to_message(), Message::KeyRelease(KeyRelease { key }));
    assert_eq!(
        Input::Resize { width: 11, height: 12 }.to_message(),
        Message::Resize(Resize { width: 11, height: 12 })
    );
}

#[test]
fn only_pointer_events_have_a_cell() {
    let down = MouseDown { x: 3, y: 9, button: MouseButton::Right };
    assert_eq!(down.coords(), (3, 9));
    assert_eq!(down.pointer(), Some((3, 9)));
    assert_eq!(Message::MouseDown(down).coords(), Some((3, 9)));
    assert_eq!(MouseUp { x: 1, y: 2, button: MouseButton::Left }.coords(), (1, 2));
    assert_eq!(MouseHover { x: 4, y: 5 }.coords(), (4, 5));
    assert_eq!(MouseDrag { x: 6, y: 7, button: MouseButton::Left }.coords(), (6, 7));
    let scroll = MouseScroll { x: 8, y: 0, direction: MouseScrollDirection::Down };
    assert_eq!(scroll.coords(), (8, 0));
    assert_eq!(Message::MouseScroll(scroll).coords(), Some((8, 0)));
    assert_eq!(Tick.pointer(), None);
    assert_eq!(KeyPress { key: KeyCode::Enter }.pointer(), None);
    assert_eq!(Message::Tick(Tick).coords(), None);
    assert_eq!(Message::Resize(Resize { width: 1, height: 1 }).coords(), None);
}

#[test]
fn launch_settings() {
    let builder = LaunchBuilder::new();
    assert_eq!(builder.frame_budget(), std::time::Duration::from_millis(16));
    assert_eq!(FRAME_MILLIS, 16);
    let builder = builder.frametime(std::time::Duration::from_millis(33));
    assert_eq!(builder.frame_budget(), std::time::Duration::from_millis(33));
    assert_eq!(LaunchBuilder::default().frame_budget(), std::time::Duration::from_millis(16));
    assert_eq!(LaunchConfig::default().fps, Some(60));
    let scope = Scope;
    let tick = Tick;
    let update = UpdateContext { event: &tick, scope: &scope };
    assert_eq!(*update.event, Tick);
    let _sender: ChannelSender<u8> = ChannelSender::new();
}

#[test]
fn errors_are_plain_values() {
    let e = RuntimeError::Io(String::from("terminal is gone"));
    assert_eq!(e.message(), "terminal is gone");
    assert_eq!(SendError, SendError);
    assert_eq!(StateError, StateError);
}

#[test]
fn bus_is_made_of_the_two_ends_of_a_channel() {
    let (tx, rx) = async_channel::unbounded::<Message>();
    let outside = tx.clone();
    let bus = MessageBus::from_ends(tx, rx);
    assert!(outside.try_send(Message::Tick(Tick)).is_ok());
    assert_eq!(bus.try_recv(), Some(Message::Tick(Tick)));
    assert!(bus.handle().send(Message::Resize(Resize { width: 2, height: 3 })).is_ok());
    assert_eq!(
        bus.receiver().try_recv(),
        Ok(Message::Resize(Resize { width: 2, height: 3 }))
    );
}

#[test]
fn outcome_of_a_receive_is_the_message_or_nothing() {
    let msg = Message::Tick(Tick);
    assert_eq!(recv_outcome(Ok(msg)), Some(msg));
    assert_eq!(recv_outcome(Err(async_channel::TryRecvError::Empty)), None);
    assert_eq!(recv_outcome(Err(async_channel::TryRecvError::Closed)), None);
}

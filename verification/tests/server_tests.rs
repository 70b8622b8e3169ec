use std::cell::RefCell;
use std::rc::Rc;
use xclogger::codec::MessageData;
use xclogger::server::{MessageHandler, ServerHandler};
use xclogger::store::LogStore;

struct StoreSink {
    store: Rc<RefCell<LogStore>>,
}

impl MessageHandler for StoreSink {
    fn on_message(&mut self, message: MessageData) {
        self.store
            .borrow_mut()
            .insert_message(&message)
            .expect("insert failed");
    }
}

struct CountingSink {
    count: Rc<RefCell<usize>>,
}

impl MessageHandler for CountingSink {
    fn on_message(&mut self, _message: MessageData) {
        *self.count.borrow_mut() += 1;
    }
}

fn sample() -> MessageData {
    MessageData {
        role: "producer".to_string(),
        label: "info".to_string(),
        file: "lib.rs".to_string(),
        function: "emit".to_string(),
        time: 99,
        process_id: 4,
        thread_id: 2,
        line: 7,
        level: 0,
        messages: vec!["payload".to_string()],
    }
}

#[test]
fn request_reply_scenario() {
    let store = Rc::new(RefCell::new(LogStore::new()));
    store.borrow_mut().connect("scenario.db").unwrap();
    let sink = StoreSink {
        store: store.clone(),
    };
    let mut server = ServerHandler::new("tcp://127.0.0.1:5555", sink);
    assert!(server.is_closed());
    server.open();
    assert!(!server.is_closed());

    let r1 = sample();
    let bytes = r1.encode().unwrap();
    let reply = server.handle_message(&bytes);
    assert_eq!(reply, bytes);

    assert_eq!(store.borrow().get_message_count(), Ok(1));
    let rows = store.borrow().get_messages(-1, 0, false).unwrap();
    assert_eq!(rows[0].role, r1.role);
    assert_eq!(rows[0].label, r1.label);
    assert_eq!(rows[0].messages, r1.messages);

    server.close();
    assert!(server.is_closed());
}

#[test]
fn undecodable_payload_is_still_acknowledged() {
    let count = Rc::new(RefCell::new(0usize));
    let sink = CountingSink {
        count: count.clone(),
    };
    let mut server = ServerHandler::new("tcp://127.0.0.1:5556", sink);
    server.open();
    let junk: Vec<u8> = vec![1, 2, 3];
    let reply = server.handle_message(&junk);
    assert_eq!(reply, junk);
    assert_eq!(*count.borrow(), 0);
    let good = sample().encode().unwrap();
    let reply2 = server.handle_message(&good);
    assert_eq!(reply2, good);
    assert_eq!(*count.borrow(), 1);
}

#[test]
fn address_changes_only_while_closed() {
    let count = Rc::new(RefCell::new(0usize));
    let sink = CountingSink {
        count: count.clone(),
    };
    let mut server = ServerHandler::new("tcp://127.0.0.1:5555", sink);
    assert_eq!(server.address(), "tcp://127.0.0.1:5555");
    server.open();
    assert_eq!(
        server.set_address("tcp://127.0.0.1:9999"),
        Err(xclogger::server::ServerError::InvalidState)
    );
    assert_eq!(server.address(), "tcp://127.0.0.1:5555");
    server.close();
    assert_eq!(server.set_address("tcp://127.0.0.1:9999"), Ok(()));
    assert_eq!(server.address(), "tcp://127.0.0.1:9999");
    let state = server.get_server_state();
    assert!(!state.is_running);
    assert_eq!(state.address, "tcp://127.0.0.1:9999");
}

#[test]
fn handler_can_be_replaced_while_stopped() {
    let first = Rc::new(RefCell::new(0usize));
    let second = Rc::new(RefCell::new(0usize));
    let mut server = ServerHandler::new(
        "tcp://127.0.0.1:5555",
        CountingSink {
            count: first.clone(),
        },
    );
    server.set_handler(CountingSink {
        count: second.clone(),
    });
    server.open();
    let good = sample().encode().unwrap();
    server.handle_message(&good);
    assert_eq!(*first.borrow(), 0);
    assert_eq!(*second.borrow(), 1);
}

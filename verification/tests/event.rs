use echanger::event::Event;

fn event(id: &str, repeat: u32, name: &str, device: &str) -> Event {
    Event {
        id: String::from(id),
        repeat,
        name: String::from(name),
        device: String::from(device),
    }
}

#[test]
fn from_str() {
    assert_eq!(Event::from_str(""), Err(String::from("'' is not of len 4")));
    assert_eq!(
        Event::from_str("a 9 e"),
        Err(String::from("'a 9 e' is not of len 4"))
    );
    assert_eq!(
        Event::from_str("a 9 e d"),
        Ok(Event {
            id: String::from("a"),
            repeat: 9,
            name: String::from("e"),
            device: String::from("d")
        })
    );
}

#[test]
fn from_str_hex() {
    assert_eq!(
        Event::from_str("a b e d"),
        Ok(Event {
            id: String::from("a"),
            repeat: 11,
            name: String::from("e"),
            device: String::from("d")
        })
    );
}

#[test]
fn to_hold() {
    let e = Event::from_str("a b e d").unwrap();
    assert_eq!(
        e.to_hold(),
        Event {
            id: String::from("a"),
            repeat: 0,
            name: String::from("e_HOLD"),
            device: String::from("d")
        }
    );
}

#[test]
fn to_str() {
    let e = Event {
        id: String::from("a"),
        repeat: 11,
        name: String::from("e"),
        device: String::from("d"),
    };
    assert_eq!(e.to_str(), "a b e d");
    let e = Event {
        id: String::from("a"),
        repeat: 16,
        name: String::from("e"),
        device: String::from("d"),
    };
    assert_eq!(e.to_str(), "a 10 e d");
}

#[test]
fn to_new() {
    let e = Event {
        id: String::from("a"),
        repeat: 11,
        name: String::from("e"),
        device: String::from("d"),
    };
    assert_eq!(
        e.to_new(),
        Event {
            id: String::from("a"),
            repeat: 0,
            name: String::from("e"),
            device: String::from("d")
        }
    );
}

#[test]
fn from_str_rejects_five_fields() {
    assert_eq!(
        Event::from_str("a 9 e d x"),
        Err(String::from("'a 9 e d x' is not of len 4"))
    );
}

#[test]
fn from_str_rejects_bad_digit() {
    assert_eq!(
        Event::from_str("a 1g e d"),
        Err(String::from("can't parse '1g': invalid digit found in string"))
    );
    assert_eq!(
        Event::from_str("a 0x10 e d"),
        Err(String::from("can't parse '0x10': invalid digit found in string"))
    );
}

#[test]
fn from_str_rejects_too_large() {
    assert_eq!(
        Event::from_str("a 100000000 e d"),
        Err(String::from(
            "can't parse '100000000': number too large to fit in target type"
        ))
    );
    assert_eq!(Event::from_str("a ffffffff e d"), Ok(event("a", u32::MAX, "e", "d")));
}

#[test]
fn from_str_takes_any_whitespace() {
    assert_eq!(
        Event::from_str("  a\t1F \u{a0} KEY_UP\u{3000}dev \r\n"),
        Ok(event("a", 31, "KEY_UP", "dev"))
    );
}

#[test]
fn round_trip() {
    for repeat in [0u32, 1, 9, 10, 15, 16, 255, 256, 0xdead_beef, u32::MAX] {
        let e = event("000000037ff07bdd", repeat, "KEY_VOLUMEUP", "devinput");
        assert_eq!(Event::from_str(&e.to_str()), Ok(e));
    }
}

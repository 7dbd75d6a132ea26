use std::collections::HashMap;
use tokio::sync::broadcast;
use wiki_graph::duel::{Duels, JoinError, MAX_PLAYERS, MAX_ROOMS, ROOM_TTL};

/// Rooms with a channel for each.
struct Hall {
    duels: Duels,
    channels: HashMap<String, broadcast::Sender<String>>,
}

type Joined = ((u32, u32, usize), broadcast::Sender<String>, broadcast::Receiver<String>);

impl Hall {
    fn new() -> Hall {
        Hall { duels: Duels::default(), channels: HashMap::new() }
    }

    fn create(&mut self, start: u32, goal: u32, par: usize, seed: u64) -> Option<String> {
        let code = self.duels.create(start, goal, par, seed, 0)?;
        self.channels.insert(code.clone(), broadcast::channel(64).0);
        Some(code)
    }

    fn join(&mut self, code: &str, name: &str) -> Result<Joined, JoinError> {
        let (terms, said) = self.duels.join(code, name)?;
        let tx = self.channels[code].clone();
        let _ = tx.send(said);
        let rx = tx.subscribe();
        Ok((terms, tx, rx))
    }

    fn leave(&mut self, code: &str, name: &str) {
        if let Some(said) = self.duels.leave(code, name) {
            let _ = self.channels[code].send(said);
        }
    }
}

#[test]
fn create_join_relay_leave() {
    let mut d = Hall::new();
    let code = d.create(1, 2, 3, 42).unwrap();
    assert_eq!(code.len(), 6);
    assert!(!code.contains('0') && !code.contains('O'));

    let (terms, tx, mut rx_a) = d.join(&code, "alice").unwrap();
    assert_eq!(terms, (1, 2, 3));
    let (_, _, mut rx_b) = d.join(&code, "bob").unwrap();
    // Alice hears bob join; the frame carries the roster.
    let joined = rx_a.try_recv().unwrap();
    assert!(joined.contains("bob") && joined.contains("alice"));

    // A relayed click reaches the other player. Bob subscribed after
    // his own announcement went out, so the click is his first frame —
    // nobody hears their own arrival, by construction.
    tx.send(r#"{"type":"click","name":"alice","at":"Cat"}"#.into()).unwrap();
    assert!(rx_b.try_recv().unwrap().contains("Cat"));

    assert!(matches!(d.join(&code, "alice"), Err(JoinError::NameTaken)));

    d.leave(&code, "alice");
    d.leave(&code, "bob");
    // Empty room is reaped.
    assert!(d.duels.room_terms(&code).is_none());
    assert!(matches!(d.join(&code, "carol"), Err(JoinError::NoSuchRoom)));
}

#[test]
fn room_caps_players() {
    let mut d = Hall::new();
    let code = d.create(1, 2, 3, 7).unwrap();
    for i in 0..MAX_PLAYERS {
        d.join(&code, &format!("p{i}")).unwrap();
    }
    assert!(matches!(d.join(&code, "late"), Err(JoinError::Full)));
}

#[test]
fn frames_are_json_with_the_roster() {
    let mut d = Duels::new();
    let code = d.create(1, 2, 3, 1, 0).unwrap();
    assert_eq!(
        d.join(&code, "a\"b").unwrap().1,
        r#"{"name":"a\"b","players":["a\"b"],"type":"joined"}"#
    );
    let said = d.join(&code, "é\n").unwrap().1;
    assert_eq!(said, r#"{"name":"é\n","players":["a\"b","é\n"],"type":"joined"}"#);
    let v: serde_json::Value = serde_json::from_str(&said).unwrap();
    assert_eq!(v["players"][1], "é\n");
    assert_eq!(
        d.leave(&code, "a\"b").unwrap(),
        r#"{"name":"a\"b","players":["é\n"],"type":"left"}"#
    );
    // Who was not in changes nothing but is announced all the same.
    assert_eq!(
        d.leave(&code, "nobody").unwrap(),
        r#"{"name":"nobody","players":["é\n"],"type":"left"}"#
    );
    assert_eq!(d.leave("ZZZZZZ", "nobody"), None);
    assert_eq!(d.room_terms(&code), Some((1, 2, 3)));
}

#[test]
fn codes_are_drawn_from_the_seed() {
    let mut one = Duels::new();
    let mut two = Duels::new();
    let a = one.create(1, 2, 3, 42, 0).unwrap();
    assert_eq!(two.create(4, 5, 6, 42, 0).unwrap(), a);
    assert!(a.chars().all(|c| "ABCDEFGHJKLMNPQRSTUVWXYZ23456789".contains(c)));
    // The same seed again: the code is taken, and the next one is drawn.
    let b = one.create(1, 2, 3, 42, 0).unwrap();
    assert_ne!(a, b);
    // The first letter, worked out by hand.
    let mut s: u64 = 42 | 1;
    s ^= s >> 12;
    s ^= s << 25;
    s ^= s >> 27;
    let i = (s.wrapping_mul(0x2545_F491_4F6C_DD1D) >> 59) as usize % 32;
    assert_eq!(a.as_bytes()[0], b"ABCDEFGHJKLMNPQRSTUVWXYZ23456789"[i]);
}

#[test]
fn rooms_go_with_age_and_are_limited() {
    let mut d = Duels::new();
    let first = d.create(1, 2, 3, 0, 0).unwrap();
    for seed in 1..MAX_ROOMS as u64 {
        assert!(d.create(1, 2, 3, seed, 5).is_some());
    }
    assert_eq!(d.create(1, 2, 3, 9, ROOM_TTL - 1), None, "the hall is full");
    assert_eq!(d.room_terms(&first), Some((1, 2, 3)));
    // The first room is too old now, and there is room for one.
    assert!(d.create(1, 2, 3, 9, ROOM_TTL).is_some());
    assert_eq!(d.room_terms(&first), None);
}

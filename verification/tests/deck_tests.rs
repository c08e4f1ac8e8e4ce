use flashcards::deck::{extension_check, file_to_card, Card, Deck, DeckError};

fn deck_of(ids: &[&str]) -> Deck {
    let mut cards = Vec::new();
    for id in ids {
        cards.push(Card { id: id.to_string(), content: format!("content-{}", id) });
    }
    Deck { cards }
}

fn ids(deck: &Deck) -> Vec<String> {
    let mut out = Vec::new();
    for c in &deck.cards {
        out.push(c.id.clone());
    }
    out
}

#[test]
fn new_deck_is_empty() {
    let d = Deck::new();
    assert_eq!(d.cards.len(), 0);
}

#[test]
fn extension_check_accepts_md() {
    assert!(extension_check("a.md", "md"));
    assert!(extension_check("dir/x.md", "md"));
    assert!(extension_check("x.tar.md", "md"));
    assert!(extension_check("a.", ""));
}

#[test]
fn extension_check_rejects_others() {
    assert!(!extension_check("notes.txt", "md"));
    assert!(!extension_check(".md", "md"));
    assert!(!extension_check("a.MD", "md"));
    assert!(!extension_check("md", "md"));
    assert!(!extension_check("dir.md/file", "md"));
    assert!(!extension_check("dir/.md", "md"));
    assert!(!extension_check("", "md"));
}

#[test]
fn file_to_card_strips_extension() {
    let card = file_to_card("dir/note.md", "the text".to_string()).unwrap();
    assert_eq!(card.id, "dir/note");
    assert_eq!(card.content, "the text");
}

#[test]
fn file_to_card_keeps_inner_dots() {
    let card = file_to_card("x.tar.md", "t".to_string()).unwrap();
    assert_eq!(card.id, "x.tar");
}

#[test]
fn file_to_card_skips_non_notes() {
    assert!(file_to_card("readme.txt", "t".to_string()).is_none());
    assert!(file_to_card(".md", "t".to_string()).is_none());
    assert!(file_to_card("plain", "t".to_string()).is_none());
}

#[test]
fn from_entries_builds_cards_in_scan_order() {
    let entries = vec![
        ("b/second.md".to_string(), "two".to_string()),
        ("skip.txt".to_string(), "no".to_string()),
        ("first.md".to_string(), "one".to_string()),
    ];
    let deck = Deck::from_entries(entries).unwrap();
    assert_eq!(ids(&deck), vec!["b/second".to_string(), "first".to_string()]);
    assert_eq!(deck.cards[0].content, "two");
    assert_eq!(deck.cards[1].content, "one");
}

#[test]
fn scan_with_no_notes_is_empty_deck() {
    let entries = vec![("notes.txt".to_string(), "irrelevant".to_string())];
    match Deck::from_entries(entries) {
        Err(DeckError::EmptyDeck) => {}
        _ => panic!("expected EmptyDeck"),
    }
}

#[test]
fn empty_scan_is_empty_deck() {
    match Deck::from_entries(Vec::new()) {
        Err(DeckError::EmptyDeck) => {}
        _ => panic!("expected EmptyDeck"),
    }
}

#[test]
fn errors_describe_themselves() {
    assert_eq!(DeckError::EmptyDeck.describe(), "no md files found");
    assert_eq!(DeckError::IoFailure.describe(), "could not read the scan root");
}

#[test]
fn seeded_shuffle_is_deterministic() {
    let names = ["a", "b", "c", "d", "e", "f"];
    let mut d1 = deck_of(&names);
    let mut d2 = deck_of(&names);
    d1.shuffle_seeded(42);
    d2.shuffle_seeded(42);
    assert_eq!(ids(&d1), ids(&d2));
}

#[test]
fn seeded_shuffle_depends_on_seed_not_on_luck() {
    // A shuffle that handed the deck back unchanged for every seed would
    // fail here: some seed below 30 must move at least one card.
    let names = ["a", "b", "c", "d", "e", "f"];
    let before = ids(&deck_of(&names));
    let mut some_seed_moves = false;
    for seed in 0..30u64 {
        let mut d = deck_of(&names);
        d.shuffle_seeded(seed);
        if ids(&d) != before {
            some_seed_moves = true;
        }
    }
    assert!(some_seed_moves);
}

#[test]
fn seeded_shuffle_is_a_permutation() {
    let names = ["delta", "alpha", "echo", "bravo", "charlie"];
    let mut d = deck_of(&names);
    d.shuffle_seeded(7);
    let mut got = ids(&d);
    got.sort();
    let mut expected = ids(&deck_of(&names));
    expected.sort();
    assert_eq!(got, expected);
}

#[test]
fn unseeded_shuffle_is_a_permutation() {
    let names = ["one", "two", "three", "four"];
    let mut d = deck_of(&names);
    d.shuffle();
    let mut got = ids(&d);
    got.sort();
    let mut expected = ids(&deck_of(&names));
    expected.sort();
    assert_eq!(got, expected);
}

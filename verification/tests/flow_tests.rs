//! One pass through the whole pipeline: scanned entries to final summary.

use flashcards::deck::Deck;
use flashcards::session::{Action, Phase, ReviewSession};
use flashcards::viewmodel::{view_model, ViewModel};

#[test]
fn entries_to_summary() {
    let entries = vec![
        ("math/sums.md".to_string(), "a plus b".to_string()),
        ("math/notes.txt".to_string(), "not a card".to_string()),
        ("words.md".to_string(), "some vocabulary".to_string()),
        ("trivia/capitals.md".to_string(), "paris, rome".to_string()),
    ];
    let mut deck = Deck::from_entries(entries).unwrap();
    assert_eq!(deck.len(), 3);
    deck.shuffle_seeded(11);

    let mut session = ReviewSession::new(deck);
    let mut seen: Vec<String> = Vec::new();
    while session.phase() == Phase::Active {
        let (card_id, shown) = match view_model(&session) {
            Some(ViewModel::Active { card_id, displayed_text, .. }) => (card_id, displayed_text),
            _ => panic!("expected an active view"),
        };
        // the prompt face shows the id itself
        assert_eq!(card_id, shown);
        seen.push(card_id);
        session.apply(Action::Reveal);
        session.apply(Action::MarkCorrect);
    }
    assert_eq!(session.phase(), Phase::Finished);

    let mut seen_sorted = seen.clone();
    seen_sorted.sort();
    let expected =
        vec!["math/sums".to_string(), "trivia/capitals".to_string(), "words".to_string()];
    assert_eq!(seen_sorted, expected);

    match view_model(&session) {
        Some(ViewModel::Finished { score, missed }) => {
            assert_eq!(score, 3);
            assert!(missed.is_empty());
        }
        _ => panic!("expected the finished summary"),
    }
}

#[test]
fn revealed_content_is_the_file_text() {
    let entries = vec![("only.md".to_string(), "the whole file text".to_string())];
    let deck = Deck::from_entries(entries).unwrap();
    let mut session = ReviewSession::new(deck);
    session.apply(Action::Reveal);
    match view_model(&session) {
        Some(ViewModel::Active { displayed_text, .. }) => {
            assert_eq!(displayed_text, "the whole file text");
        }
        _ => panic!("expected an active view"),
    }
}

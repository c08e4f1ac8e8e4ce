use flashcards::deck::{Card, Deck};
use flashcards::session::{Action, ReviewSession};
use flashcards::viewmodel::{calc_percentage, view_model, ViewModel};

fn session() -> ReviewSession {
    let deck = Deck {
        cards: vec![
            Card { id: "alpha".to_string(), content: "first body".to_string() },
            Card { id: "beta".to_string(), content: "second body".to_string() },
        ],
    };
    ReviewSession::new(deck)
}

#[test]
fn active_prompt_shows_the_id() {
    let s = session();
    match view_model(&s) {
        Some(ViewModel::Active { card_id, displayed_text, position, total, running_score }) => {
            assert_eq!(card_id, "alpha");
            assert_eq!(displayed_text, "alpha");
            assert_eq!(position, 1);
            assert_eq!(total, 2);
            assert_eq!(running_score, 0);
        }
        _ => panic!("expected an active view"),
    }
}

#[test]
fn active_content_shows_the_body() {
    let mut s = session();
    s.apply(Action::Reveal);
    match view_model(&s) {
        Some(ViewModel::Active { card_id, displayed_text, .. }) => {
            assert_eq!(card_id, "alpha");
            assert_eq!(displayed_text, "first body");
        }
        _ => panic!("expected an active view"),
    }
}

#[test]
fn progress_and_score_follow_the_pass() {
    let mut s = session();
    s.apply(Action::Reveal);
    s.apply(Action::MarkCorrect);
    match view_model(&s) {
        Some(ViewModel::Active { position, total, running_score, .. }) => {
            assert_eq!(position, 2);
            assert_eq!(total, 2);
            assert_eq!(running_score, 1);
        }
        _ => panic!("expected an active view"),
    }
}

#[test]
fn calc_percentage_divides_before_scaling() {
    assert_eq!(calc_percentage(&7, &2), 300);
    assert_eq!(calc_percentage(&10, &3), 300);
    assert_eq!(calc_percentage(&3, &4), 0);
    assert_eq!(calc_percentage(&4, &4), 100);
}

#[test]
fn calc_percentage_is_zero_without_a_total() {
    assert_eq!(calc_percentage(&5, &0), 0);
    assert_eq!(calc_percentage(&5, &-2), 0);
}

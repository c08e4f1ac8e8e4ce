//! Cards and decks: one card per note file, identified by its path.
//!
//! A deck is built from the scanned note files: every file whose name ends
//! in the recognized `.md` suffix becomes one card, whose id is the file's
//! path relative to the scan root with the extension stripped.  Shuffling
//! goes through the `rand` crate and keeps the multiset of cards.

use vstd::prelude::*;

verus! {

/// One question/answer unit. `id` doubles as the prompt shown on the
/// card's front; `content` is the full text shown on the back.
pub struct Card {
    pub id: String,
    pub content: String,
}

/// Mathematical image of a [`Card`]: both fields as character sequences.
pub ghost struct CardView {
    pub id: Seq<char>,
    pub content: Seq<char>,
}

impl View for Card {
    type V = CardView;

    open spec fn view(&self) -> CardView {
        CardView { id: self.id@, content: self.content@ }
    }
}

/// The ordered collection of cards for one session.
pub struct Deck {
    pub cards: Vec<Card>,
}

impl View for Deck {
    type V = Seq<CardView>;

    open spec fn view(&self) -> Seq<CardView> {
        self.cards@.map_values(|c: Card| c@)
    }
}

/// Why deck construction failed.
#[derive(Clone, Copy, Debug, PartialEq, Eq, Structural)]
pub enum DeckError {
    /// The scan produced no cards at all.
    EmptyDeck,
    /// The scan root itself could not be enumerated.
    IoFailure,
}

impl DeckError {
    /// A short human-readable account of the failure, for the error stream.
    pub fn describe(&self) -> (r: String)
        ensures
            r@ == if *self == DeckError::EmptyDeck {
                "no md files found"@
            } else {
                "could not read the scan root"@
            },
    {
        match self {
            DeckError::EmptyDeck => "no md files found".to_owned(),
            DeckError::IoFailure => "could not read the scan root".to_owned(),
        }
    }
}

/// Index right after the last `/` of `p`; `0` when `p` has no separator.
/// Everything from here on is the final path component.
pub open spec fn file_name_start(p: Seq<char>) -> int
    decreases p.len(),
{
    if p.len() == 0 {
        0
    } else if p[p.len() as int - 1] == '/' {
        p.len() as int
    } else {
        file_name_start(p.drop_last())
    }
}

/// Index of the `.` that begins the extension candidate: the last `.` of the
/// final path component, or `-1` when that component has none.
pub open spec fn ext_dot(p: Seq<char>) -> int
    decreases p.len(),
{
    if p.len() == 0 {
        -1
    } else if p[p.len() as int - 1] == '/' {
        -1
    } else if p[p.len() as int - 1] == '.' {
        p.len() as int - 1
    } else {
        ext_dot(p.drop_last())
    }
}

/// The extension of the final path component: what follows its last `.`,
/// provided the part before that `.` is non-empty (so `.md` alone has none).
pub open spec fn path_extension(p: Seq<char>) -> Option<Seq<char>> {
    if ext_dot(p) > file_name_start(p) {
        Some(p.subrange(ext_dot(p) + 1, p.len() as int))
    } else {
        None
    }
}

/// The recognized note-file suffix, as a character sequence.
pub open spec fn md_suffix() -> Seq<char> {
    seq!['m', 'd']
}

/// Whether a scanned path names a note file that becomes a card.
pub open spec fn is_note_file(p: Seq<char>) -> bool {
    path_extension(p) == Some(md_suffix())
}

/// The card a note file turns into: the id is the path with the extension
/// stripped, the content is the file's full text.
pub open spec fn note_card(p: Seq<char>, content: Seq<char>) -> CardView {
    CardView { id: p.subrange(0, ext_dot(p)), content: content }
}

/// A scanned directory tree as plain values: each entry is a root-relative
/// `/`-separated path together with the file's text.
pub open spec fn entry_views(entries: Seq<(String, String)>) -> Seq<(Seq<char>, Seq<char>)> {
    entries.map_values(|e: (String, String)| (e.0@, e.1@))
}

/// The deck that a sequence of scanned entries yields: one card per note
/// file, in scan order; everything else is skipped.
pub open spec fn deck_of_entries(entries: Seq<(Seq<char>, Seq<char>)>) -> Seq<CardView>
    decreases entries.len(),
{
    if entries.len() == 0 {
        Seq::empty()
    } else {
        let prefix = deck_of_entries(entries.drop_last());
        let e = entries.last();
        if is_note_file(e.0) {
            prefix.push(note_card(e.0, e.1))
        } else {
            prefix
        }
    }
}

proof fn lemma_file_name_start_props(p: Seq<char>)
    ensures
        0 <= file_name_start(p) <= p.len(),
        forall|k: int| file_name_start(p) <= k < p.len() ==> p[k] != '/',
        file_name_start(p) > 0 ==> p[file_name_start(p) - 1] == '/',
    decreases p.len(),
{
    if p.len() == 0 {
    } else if p[p.len() as int - 1] == '/' {
    } else {
        lemma_file_name_start_props(p.drop_last());
        assert(forall|k: int| file_name_start(p) <= k < p.len() - 1 ==> p[k] == p.drop_last()[k]);
    }
}

/// Locate the final path component: returns `file_name_start(path@)`.
fn locate_file_name(path: &str) -> (r: usize)
    ensures
        r == file_name_start(path@),
{
    let n = path.unicode_len();
    let mut j = n;
    proof {
        assert(path@.take(n as int) =~= path@);
    }
    while j > 0
        invariant
            j <= n,
            n == path@.len(),
            file_name_start(path@) == file_name_start(path@.take(j as int)),
        decreases j,
    {
        let c = path.get_char(j - 1);
        proof {
            assert(path@.take(j as int).drop_last() =~= path@.take(j as int - 1));
        }
        if c == '/' {
            return j;
        }
        j = j - 1;
    }
    proof {
        assert(path@.take(0) =~= Seq::<char>::empty());
    }
    0
}

/// Locate the `.` that begins the extension: `Some(d)` exactly when
/// `path@` has an extension, with `d == ext_dot(path@)`.
fn locate_extension_dot(path: &str) -> (r: Option<usize>)
    ensures
        match r {
            Some(d) => ext_dot(path@) == d && file_name_start(path@) < d < path@.len(),
            None => !(ext_dot(path@) > file_name_start(path@)),
        },
{
    let start = locate_file_name(path);
    let n = path.unicode_len();
    let mut j = n;
    proof {
        lemma_file_name_start_props(path@);
        assert(path@.take(n as int) =~= path@);
    }
    while j > start
        invariant
            start <= j <= n,
            n == path@.len(),
            start == file_name_start(path@),
            forall|k: int| start <= k < n ==> path@[k] != '/',
            start > 0 ==> path@[start - 1] == '/',
            ext_dot(path@) == ext_dot(path@.take(j as int)),
        decreases j,
    {
        let c = path.get_char(j - 1);
        proof {
            assert(path@.take(j as int).drop_last() =~= path@.take(j as int - 1));
        }
        if c == '.' {
            if j - 1 > start {
                return Some(j - 1);
            } else {
                return None;
            }
        }
        j = j - 1;
    }
    proof {
        if start == 0 {
            assert(path@.take(0) =~= Seq::<char>::empty());
        } else {
            assert(path@.take(start as int).last() == path@[start - 1]);
        }
    }
    None
}

/// Whether `path@` from `start` to its end reads exactly as `pattern@`.
fn region_matches(path: &str, start: usize, pattern: &str) -> (r: bool)
    requires
        start <= path@.len(),
    ensures
        r == (path@.subrange(start as int, path@.len() as int) == pattern@),
{
    let n = path.unicode_len();
    let m = pattern.unicode_len();
    if n - start != m {
        return false;
    }
    let mut i: usize = 0;
    while i < m
        invariant
            i <= m,
            n == path@.len(),
            m == pattern@.len(),
            start + m == n,
            forall|k: int| 0 <= k < i ==> path@[start + k] == pattern@[k],
        decreases m - i,
    {
        let a = path.get_char(start + i);
        let b = pattern.get_char(i);
        if a != b {
            proof {
                assert(path@.subrange(start as int, n as int)[i as int] == path@[start + i]);
            }
            return false;
        }
        i = i + 1;
    }
    proof {
        assert(path@.subrange(start as int, n as int) =~= pattern@);
    }
    true
}

/// Whether the final component of `path` carries exactly the extension
/// `pattern` (case-sensitive, as the scan demands).
pub fn extension_check(path: &str, pattern: &str) -> (r: bool)
    ensures
        r == (path_extension(path@) == Some(pattern@)),
{
    // pins the path's character count into usize range for `d + 1`
    let _n = path.unicode_len();
    match locate_extension_dot(path) {
        Some(d) => region_matches(path, d + 1, pattern),
        None => false,
    }
}

/// Turn one scanned entry into a card: `Some` exactly for note files, whose
/// id is the path with the `.md` suffix stripped.
pub fn file_to_card(path: &str, content: String) -> (r: Option<Card>)
    ensures
        match r {
            Some(card) => is_note_file(path@) && card@ == note_card(path@, content@),
            None => !is_note_file(path@),
        },
{
    proof {
        reveal_strlit("md");
        assert("md"@ =~= md_suffix());
    }
    // pins the path's character count into usize range for `d + 1`
    let _n = path.unicode_len();
    match locate_extension_dot(path) {
        Some(d) => {
            if region_matches(path, d + 1, "md") {
                let id = path.substring_char(0, d).to_owned();
                Some(Card { id, content })
            } else {
                None
            }
        },
        None => None,
    }
}

/// What an unseeded shuffle draws its seed from.
/// Relies on rand::random: a fresh value from the thread-local generator;
/// nothing is promised of it.
pub assume_specification<T>[ rand::random::<T> ]() -> (r: T)
    where
        rand::distributions::Standard: rand::distributions::Distribution<T>,
;

/// The order that the seeded shuffle leaves a card sequence in: a function
/// of the cards and the seed alone.
pub uninterp spec fn shuffled_order(cards: Seq<Card>, seed: u64) -> Seq<Card>;

/// Relies on rand's `SliceRandom::shuffle`, driven by `StdRng` seeded with
/// `seed_from_u64`: an in-place Fisher-Yates that only swaps elements of the
/// slice, so the multiset and length of the cards are kept; the generator is
/// deterministic for a fixed seed, so the outcome is a function of the cards
/// and the seed alone.
#[verifier::external_body]
fn shuffle_cards(cards: &mut Vec<Card>, seed: u64)
    ensures
        final(cards)@.to_multiset() == old(cards)@.to_multiset(),
        final(cards)@.len() == old(cards)@.len(),
        final(cards)@ == shuffled_order(old(cards)@, seed),
{
    let mut rng = <rand::rngs::StdRng as rand::SeedableRng>::seed_from_u64(seed);
    rand::seq::SliceRandom::shuffle(cards.as_mut_slice(), &mut rng);
}

impl Deck {
    /// An empty deck, to be filled from scanned note files.
    pub fn new() -> (d: Deck)
        ensures
            d@ == Seq::<CardView>::empty(),
    {
        let d = Deck { cards: Vec::new() };
        proof {
            assert(d@ =~= Seq::<CardView>::empty());
        }
        d
    }

    /// Build the deck from the scanned entries: one card per note file, in
    /// scan order.  Fails with [`DeckError::EmptyDeck`] exactly when no entry
    /// is a note file.
    pub fn from_entries(entries: Vec<(String, String)>) -> (r: Result<Deck, DeckError>)
        ensures
            match r {
                Ok(d) => d@ == deck_of_entries(entry_views(entries@)) && d@.len() >= 1,
                Err(e) => e == DeckError::EmptyDeck && deck_of_entries(
                    entry_views(entries@),
                ).len() == 0,
            },
    {
        let ghost all = entry_views(entries@);
        let mut cards: Vec<Card> = Vec::new();
        let mut i: usize = 0;
        proof {
            assert(all.take(0) =~= Seq::<(Seq<char>, Seq<char>)>::empty());
            assert(cards@.map_values(|c: Card| c@) =~= Seq::<CardView>::empty());
        }
        while i < entries.len()
            invariant
                i <= entries.len(),
                all == entry_views(entries@),
                cards@.map_values(|c: Card| c@) == deck_of_entries(all.take(i as int)),
            decreases entries.len() - i,
        {
            let entry = &entries[i];
            let ghost prev = cards@;
            let card = file_to_card(entry.0.as_str(), entry.1.clone());
            proof {
                assert(all.take(i as int + 1).drop_last() =~= all.take(i as int));
                let ghost e = entries@[i as int];
                assert(all.take(i as int + 1).last() == (e.0@, e.1@));
            }
            match card {
                Some(c) => {
                    cards.push(c);
                    proof {
                        assert(cards@.map_values(|c: Card| c@) =~= prev.map_values(
                            |c: Card| c@,
                        ).push(cards@.last()@));
                    }
                },
                None => {},
            }
            i = i + 1;
        }
        proof {
            assert(all.take(entries@.len() as int) =~= all);
        }
        if cards.len() == 0 {
            proof {
                assert(cards@.map_values(|c: Card| c@).len() == 0);
            }
            Err(DeckError::EmptyDeck)
        } else {
            Ok(Deck { cards })
        }
    }

    /// Shuffle into an unpredictable order: a permutation of the cards,
    /// drawn from the process's random source.
    pub fn shuffle(&mut self)
        ensures
            final(self).cards@.to_multiset() == old(self).cards@.to_multiset(),
            final(self)@.len() == old(self)@.len(),
    {
        let seed: u64 = rand::random::<u64>();
        self.shuffle_seeded(seed);
    }

    /// Shuffle reproducibly: the same seed over the same cards yields the
    /// same order, and the result is a permutation of the cards.
    pub fn shuffle_seeded(&mut self, seed: u64)
        ensures
            final(self).cards@ == shuffled_order(old(self).cards@, seed),
            final(self).cards@.to_multiset() == old(self).cards@.to_multiset(),
            final(self)@.len() == old(self)@.len(),
    {
        shuffle_cards(&mut self.cards, seed);
    }

    /// How many cards the deck holds.
    pub fn len(&self) -> (n: usize)
        ensures
            n == self@.len(),
    {
        self.cards.len()
    }
}

/// The ids of a card sequence, in order.
pub open spec fn ids_of(cards: Seq<Card>) -> Seq<Seq<char>> {
    cards.map_values(|c: Card| c.id@)
}

proof fn lemma_map_values_preserves_multiset<A, B>(a: Seq<A>, b: Seq<A>, f: spec_fn(A) -> B)
    requires
        a.to_multiset() == b.to_multiset(),
    ensures
        a.map_values(f).to_multiset() == b.map_values(f).to_multiset(),
    decreases a.len(),
{
    broadcast use vstd::seq_lib::group_to_multiset_ensures;

    broadcast use vstd::multiset::group_multiset_axioms;

    if a.len() == 0 {
        assert(a.to_multiset().len() == a.len());
        assert(b.to_multiset().len() == b.len());
        assert(b.len() == 0);
        assert(a.map_values(f) =~= Seq::<B>::empty());
        assert(b.map_values(f) =~= Seq::<B>::empty());
    } else {
        let n = a.len() as int;
        let x = a[n - 1];
        assert(a.contains(x));
        assert(b.to_multiset().count(x) > 0);
        assert(b.contains(x));
        let j = choose|j: int| 0 <= j < b.len() && b[j] == x;
        let a0 = a.remove(n - 1);
        let b0 = b.remove(j);
        assert(a0.to_multiset() == a.to_multiset().remove(x));
        assert(b0.to_multiset() == b.to_multiset().remove(x));
        lemma_map_values_preserves_multiset(a0, b0, f);
        assert(a0.map_values(f) =~= a.map_values(f).remove(n - 1));
        assert(b0.map_values(f) =~= b.map_values(f).remove(j));
        assert(a.map_values(f).remove(n - 1).to_multiset() == a.map_values(f).to_multiset().remove(
            f(x),
        ));
        assert(b.map_values(f).remove(j).to_multiset() == b.map_values(f).to_multiset().remove(
            f(x),
        ));
        let ma = a.map_values(f).to_multiset();
        let mb = b.map_values(f).to_multiset();
        assert(a.map_values(f)[n - 1] == f(x));
        assert(a.map_values(f).contains(f(x)));
        assert(b.map_values(f)[j] == f(x));
        assert(b.map_values(f).contains(f(x)));
        assert(ma.count(f(x)) > 0);
        assert(mb.count(f(x)) > 0);
        assert(ma.remove(f(x)) == mb.remove(f(x)));
        assert forall|v: B| ma.count(v) == mb.count(v) by {
            if v == f(x) {
                assert(ma.remove(v).count(v) == ma.count(v) - 1);
                assert(mb.remove(v).count(v) == mb.count(v) - 1);
            } else {
                assert(ma.remove(f(x)).count(v) == ma.count(v));
                assert(mb.remove(f(x)).count(v) == mb.count(v));
            }
        }
        assert(ma =~= mb);
    }
}

/// Law: a permutation of the cards — in particular, any shuffle — leaves the
/// multiset of card ids unchanged.
pub proof fn lemma_permutation_preserves_ids(a: Seq<Card>, b: Seq<Card>)
    requires
        a.to_multiset() == b.to_multiset(),
    ensures
        ids_of(a).to_multiset() == ids_of(b).to_multiset(),
{
    lemma_map_values_preserves_multiset(a, b, |c: Card| c.id@);
}

} // verus!

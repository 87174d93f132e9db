use orgzr::filter::{card_matches_exec, entries_match_exec, select_cards};
use orgzr::text::{contains_text, name_contains_folded};
use orgzr::{BatchMode, Card, CardFilters, FilterMode, MealzPlug};

fn strings(items: &[&str]) -> Vec<String> {
    items.iter().map(|s| s.to_string()).collect()
}

fn card(id: u64, name: &str, tags: &[&str], ingredients: &[&str], batch: u8) -> Card {
    Card {
        id,
        name: name.to_string(),
        tags: strings(tags),
        ingredients: strings(ingredients),
        max_batch_size: batch,
    }
}

fn sample() -> Vec<Card> {
    vec![
        card(1, "Tacos", &["mexican", "quick"], &["beef", "tortilla"], 2),
        card(2, "Veggie Curry", &["vegan", "spicy"], &["rice", "chickpeas"], 1),
        card(3, "Mystery", &["joker"], &[], 1),
        card(4, "Beef Stew", &["slow"], &["beef", "carrot"], 3),
    ]
}

fn ids(cards: &[Card]) -> Vec<u64> {
    cards.iter().map(|c| c.id).collect()
}

fn open_filters() -> CardFilters {
    CardFilters { allow_jokers: true, ..CardFilters::default() }
}

#[test]
fn open_filters_keep_every_card() {
    let cards = sample();
    assert_eq!(ids(&select_cards(&cards, &open_filters())), vec![1, 2, 3, 4]);
    assert!(select_cards(&vec![], &open_filters()).is_empty());
}

#[test]
fn default_filters_exclude_jokers() {
    let cards = sample();
    assert_eq!(ids(&select_cards(&cards, &CardFilters::default())), vec![1, 2, 4]);
}

#[test]
fn name_match_ignores_case() {
    let cards = sample();
    let f = CardFilters { name_contains: "TACO".to_string(), ..CardFilters::default() };
    assert_eq!(ids(&select_cards(&cards, &f)), vec![1]);
    let f = CardFilters { name_contains: "beef".to_string(), ..CardFilters::default() };
    assert_eq!(ids(&select_cards(&cards, &f)), vec![4]);
    let f = CardFilters { name_contains: "xyz".to_string(), ..CardFilters::default() };
    assert!(select_cards(&cards, &f).is_empty());
    assert!(name_contains_folded(&"Veggie Curry".to_string(), &"gIE c".to_string()));
}

#[test]
fn substring_search() {
    assert!(contains_text(&"tacos".to_string(), &"aco".to_string()));
    assert!(contains_text(&"tacos".to_string(), &"".to_string()));
    assert!(!contains_text(&"tacos".to_string(), &"Aco".to_string()));
    assert!(!contains_text(&"ta".to_string(), &"tacos".to_string()));
    assert!(contains_text(&"tacos".to_string(), &"tacos".to_string()));
}

#[test]
fn tag_modes() {
    let cards = sample();
    let all = CardFilters {
        tag_filters: strings(&["mexican", "quick"]),
        tag_mode: FilterMode::All,
        ..CardFilters::default()
    };
    assert_eq!(ids(&select_cards(&cards, &all)), vec![1]);
    let all_missing = CardFilters {
        tag_filters: strings(&["mexican", "vegan"]),
        tag_mode: FilterMode::All,
        ..CardFilters::default()
    };
    assert!(select_cards(&cards, &all_missing).is_empty());
    let any = CardFilters {
        tag_filters: strings(&["mexican", "vegan"]),
        tag_mode: FilterMode::Any,
        ..CardFilters::default()
    };
    assert_eq!(ids(&select_cards(&cards, &any)), vec![1, 2]);
}

#[test]
fn ingredient_modes() {
    let cards = sample();
    let any = CardFilters { ingredient_filters: strings(&["beef"]), ..CardFilters::default() };
    assert_eq!(ids(&select_cards(&cards, &any)), vec![1, 4]);
    let all = CardFilters {
        ingredient_filters: strings(&["beef", "carrot"]),
        ingredient_mode: FilterMode::All,
        ..CardFilters::default()
    };
    assert_eq!(ids(&select_cards(&cards, &all)), vec![4]);
    assert!(entries_match_exec(&vec![], &strings(&["x"]), FilterMode::All));
    assert!(!entries_match_exec(&strings(&["y"]), &strings(&["x"]), FilterMode::Any));
}

#[test]
fn batch_modes() {
    let cards = sample();
    let only = CardFilters { batch_mode: BatchMode::Only, ..CardFilters::default() };
    assert_eq!(ids(&select_cards(&cards, &only)), vec![1, 4]);
    let prevent = CardFilters { batch_mode: BatchMode::Prevent, ..CardFilters::default() };
    assert_eq!(ids(&select_cards(&cards, &prevent)), vec![2]);
    let prevent_jokers = CardFilters { batch_mode: BatchMode::Prevent, allow_jokers: true, ..CardFilters::default() };
    assert_eq!(ids(&select_cards(&cards, &prevent_jokers)), vec![2, 3]);
}

#[test]
fn single_card_predicates() {
    let c = card(9, "Pasta", &["joker"], &["flour"], 1);
    assert!(!card_matches_exec(&c, &CardFilters::default()));
    assert!(card_matches_exec(&c, &open_filters()));
}

#[test]
fn store_candidates_follow_filters() {
    let mut store = MealzPlug::new();
    store.add_card("Tacos".to_string(), strings(&["mexican"]), vec![], None).unwrap();
    store.add_card("Joke".to_string(), strings(&["joker"]), vec![], None).unwrap();
    assert_eq!(ids(&store.find_candidates(&CardFilters::default())), vec![1]);
    assert_eq!(ids(&store.find_candidates(&open_filters())), vec![1, 2]);
}

use orgzr::schedule::{build_plan, build_raw_schedule, expand_inventory, finalize_ideas, shuffled_inventory};
use orgzr::{Card, CardFilters, FilterMode, MealzError, MealzPlug, PlanConstraints, PlanSchedule, PlanWarning};

fn strings(items: &[&str]) -> Vec<String> {
    items.iter().map(|s| s.to_string()).collect()
}

fn card(id: u64, name: &str, tags: &[&str], batch: u8) -> Card {
    Card { id, name: name.to_string(), tags: strings(tags), ingredients: vec![], max_batch_size: batch }
}

fn constraints(n: u8, no_consecutive: bool, max_repeats: u8) -> PlanConstraints {
    PlanConstraints {
        number_of_meals: n,
        filters: CardFilters::default(),
        no_consecutive,
        max_repeats_per_plan: max_repeats,
    }
}

fn idea_ids(schedule: &PlanSchedule) -> Vec<u64> {
    match schedule {
        PlanSchedule::Ideas(v) => v.iter().map(|c| c.id).collect(),
        PlanSchedule::Weekly(_) => panic!("expected an idea list"),
    }
}

#[test]
fn single_batch_card_falls_back_and_truncates() {
    let mut store = MealzPlug::new();
    store.add_card("Tacos".to_string(), vec![], vec![], Some(2)).unwrap();
    let result = store.generate_plan(&constraints(3, true, 0)).unwrap();
    assert_eq!(idea_ids(&result.plan.schedule), vec![1]);
    assert_eq!(
        result.warnings,
        vec![PlanWarning::ConstraintsRelaxed, PlanWarning::OutOfPortions(2), PlanWarning::DuplicatesRemoved]
    );
}

#[test]
fn missing_required_tag_gives_no_candidates() {
    let mut store = MealzPlug::new();
    store.add_card("Tacos".to_string(), strings(&["mexican"]), vec![], None).unwrap();
    store.add_card("Stew".to_string(), vec![], vec![], Some(2)).unwrap();
    let c = PlanConstraints {
        number_of_meals: 3,
        filters: CardFilters { tag_filters: strings(&["vegan"]), tag_mode: FilterMode::All, ..CardFilters::default() },
        no_consecutive: false,
        max_repeats_per_plan: 0,
    };
    assert_eq!(store.generate_plan(&c).unwrap_err(), MealzError::NoCandidates);
}

#[test]
fn empty_store_gives_no_candidates() {
    let store = MealzPlug::new();
    assert_eq!(store.generate_plan(&constraints(2, false, 0)).unwrap_err(), MealzError::NoCandidates);
}

#[test]
fn inventory_holds_batch_size_copies() {
    let cards = vec![card(1, "A", &[], 2), card(2, "B", &[], 1), card(3, "C", &[], 3)];
    assert_eq!(expand_inventory(&cards), vec![0, 0, 1, 2, 2, 2]);
    let mut shuffled = shuffled_inventory(&cards);
    shuffled.sort();
    assert_eq!(shuffled, vec![0, 0, 1, 2, 2, 2]);
}

#[test]
fn no_consecutive_takes_next_distinct_portion() {
    let cards = vec![card(1, "A", &[], 2), card(2, "B", &[], 1)];
    let (raw, warnings) = build_raw_schedule(&cards, vec![0, 0, 1], &constraints(3, true, 0));
    assert_eq!(raw, vec![0, 1, 0]);
    assert!(warnings.is_empty());
}

#[test]
fn consecutive_allowed_keeps_order() {
    let cards = vec![card(1, "A", &[], 2), card(2, "B", &[], 1)];
    let (raw, warnings) = build_raw_schedule(&cards, vec![0, 0, 1], &constraints(3, false, 0));
    assert_eq!(raw, vec![0, 0, 1]);
    assert!(warnings.is_empty());
}

#[test]
fn repeat_limit_relaxes_with_warning() {
    let cards = vec![card(1, "A", &[], 3), card(2, "B", &[], 1)];
    let (raw, warnings) = build_raw_schedule(&cards, vec![0, 0, 1, 0], &constraints(3, false, 1));
    assert_eq!(raw, vec![0, 1, 0]);
    assert_eq!(warnings, vec![PlanWarning::ConstraintsRelaxed]);
}

#[test]
fn repeat_limit_respected_when_possible() {
    let cards = vec![card(1, "A", &[], 3), card(2, "B", &[], 2)];
    let (raw, warnings) = build_raw_schedule(&cards, vec![0, 0, 0, 1, 1], &constraints(4, false, 2));
    assert_eq!(raw, vec![0, 0, 1, 1]);
    assert!(warnings.is_empty());
}

#[test]
fn running_out_of_portions_warns() {
    let cards = vec![card(1, "A", &[], 1), card(2, "B", &[], 1)];
    let (raw, warnings) = build_raw_schedule(&cards, vec![1, 0], &constraints(5, false, 0));
    assert_eq!(raw, vec![1, 0]);
    assert_eq!(warnings, vec![PlanWarning::OutOfPortions(2)]);
}

#[test]
fn zero_meals_gives_empty_plan() {
    let cards = vec![card(1, "A", &[], 1)];
    let (raw, warnings) = build_raw_schedule(&cards, vec![0], &constraints(0, true, 1));
    assert!(raw.is_empty());
    assert!(warnings.is_empty());
    let plan = build_plan(&cards, vec![0], &constraints(0, true, 1));
    assert_eq!(idea_ids(&plan.plan.schedule), Vec::<u64>::new());
    assert!(plan.warnings.is_empty());
}

#[test]
fn finalizer_drops_jokers_and_repeats() {
    let cards = vec![card(1, "A", &[], 2), card(2, "J", &["joker"], 1), card(3, "C", &["x"], 1)];
    assert_eq!(finalize_ideas(&cards, &vec![0, 1, 0, 2, 2]), vec![0, 2]);
    assert_eq!(finalize_ideas(&cards, &vec![2, 0]), vec![2, 0]);
    assert!(finalize_ideas(&cards, &vec![]).is_empty());
}

#[test]
fn plan_from_fixed_inventory() {
    let cards = vec![card(10, "A", &[], 2), card(20, "J", &["joker"], 1), card(30, "C", &[], 1)];
    let plan = build_plan(&cards, vec![0, 1, 0, 2], &constraints(4, true, 0));
    assert_eq!(idea_ids(&plan.plan.schedule), vec![10, 30]);
    assert_eq!(plan.warnings, vec![PlanWarning::DuplicatesRemoved]);
    let plan = build_plan(&cards, vec![2, 0], &constraints(2, true, 0));
    assert_eq!(idea_ids(&plan.plan.schedule), vec![30, 10]);
    assert!(plan.warnings.is_empty());
}

#[test]
fn generated_ideas_are_distinct_and_joker_free() {
    let mut store = MealzPlug::new();
    store.add_card("A".to_string(), vec![], vec![], Some(3)).unwrap();
    store.add_card("B".to_string(), vec![], vec![], Some(2)).unwrap();
    store.add_card("C".to_string(), strings(&["joker"]), vec![], None).unwrap();
    let mut c = constraints(5, true, 2);
    c.filters.allow_jokers = true;
    let result = store.generate_plan(&c).unwrap();
    let mut ids = idea_ids(&result.plan.schedule);
    assert!(!ids.contains(&3));
    let n = ids.len();
    ids.sort();
    ids.dedup();
    assert_eq!(ids.len(), n);
    assert!(n <= 2);
}

#[test]
fn largest_batch_size_expands_fully() {
    let cards = vec![card(1, "Rice", &[], 255)];
    let inv = expand_inventory(&cards);
    assert_eq!(inv.len(), 255);
    assert!(inv.iter().all(|p| *p == 0));
    let (raw, warnings) = build_raw_schedule(&cards, inv, &constraints(255, false, 0));
    assert_eq!(raw.len(), 255);
    assert!(warnings.is_empty());
    let plan = build_plan(&cards, vec![0; 255], &constraints(255, false, 0));
    assert_eq!(idea_ids(&plan.plan.schedule), vec![1]);
    assert_eq!(plan.warnings, vec![PlanWarning::DuplicatesRemoved]);
}

#[test]
fn repeat_limit_and_no_consecutive_together() {
    let cards = vec![card(1, "A", &[], 3), card(2, "B", &[], 3)];
    let (raw, warnings) =
        build_raw_schedule(&cards, vec![0, 0, 0, 1, 1, 1], &constraints(6, true, 2));
    assert_eq!(raw, vec![0, 1, 0, 1, 0, 1]);
    assert_eq!(warnings, vec![PlanWarning::ConstraintsRelaxed, PlanWarning::ConstraintsRelaxed]);
}

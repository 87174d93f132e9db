//! Meal cards, a card store and a randomized meal-plan generator.

pub mod model;
pub mod text;
pub mod filter;
pub mod schedule;
pub mod store;

pub use model::{
    BatchMode, Card, CardFilters, DaySlot, FilterMode, GenerationResult, MealPlan, MealzError,
    PlanConstraints, PlanSchedule, PlanWarning,
};
pub use store::MealzPlug;

use vstd::prelude::*;
use crate::model::CardView;

verus! {

/// The application core: one field per plug.
pub struct Core {
    pub mealz: MealzPlug,
}

impl Core {
    /// A core whose meal plug holds no card yet.
    pub fn new() -> (r: Self)
        ensures
            r.mealz.wf(),
            r.mealz.cards() == Seq::<CardView>::empty(),
            r.mealz.next_id() == 1,
    {
        Core { mealz: MealzPlug::new() }
    }
}

impl Default for Core {
    /// The same as `Core::new`.
    fn default() -> (r: Self)
        ensures
            r.mealz.wf(),
            r.mealz.cards() == Seq::<CardView>::empty(),
            r.mealz.next_id() == 1,
    {
        Core::new()
    }
}

} // verus!

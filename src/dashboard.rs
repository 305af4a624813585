use vstd::prelude::*;

verus! {

/// Counts shown on the home dashboard.
#[derive(Debug)]
pub struct TaskStats {
    pub total_projects: i64,
    pub active_projects: i64,
    pub tasks_today: i64,
    pub tasks_this_week: i64,
    pub completed_today: i64,
    pub completed_this_week: i64,
    pub overdue_tasks: i64,
}

/// One entry of the recent-activity feed.
#[derive(Debug)]
pub struct Activity {
    pub id: String,
    pub activity_type: String,
    pub title: String,
    pub board_name: String,
    pub board_icon: Option<String>,
    pub timestamp: String,
    pub entity_id: String,
    pub entity_type: String,
}

/// A card with a due date, as the deadline list shows it.
#[derive(Debug)]
pub struct TaskWithDeadline {
    pub id: String,
    pub title: String,
    pub deadline: String,
    pub board_name: String,
    pub board_id: String,
    pub is_overdue: bool,
    pub days_until: i64,
}

/// One hit of the global search.
#[derive(Debug)]
pub struct SearchResult {
    pub id: String,
    pub title: String,
    pub item_type: String,
    pub board_id: String,
    pub board_name: String,
    pub description: Option<String>,
}

} // verus!

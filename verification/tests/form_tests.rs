use scheduler::job::Status;
use scheduler::tui::{
    parse_task_form, selection_after_remove, AddTaskForm, FormError, InputField, InputMode,
};

fn form(time: &str, priority: &str, description: &str, function: &str) -> AddTaskForm {
    AddTaskForm {
        time: time.to_string(),
        priority: priority.to_string(),
        description: description.to_string(),
        function: function.to_string(),
    }
}

#[test]
fn relative_time_counts_from_now() {
    let now = 1_600_000_000;
    let j = parse_task_form(&form("5", "3", "backup", "backup_fn"), now, 2).unwrap();
    assert_eq!(j.execution_time, now + 5);
    assert_eq!(j.priority, 3);
    assert_eq!(j.description, "backup");
    assert_eq!(j.function, "backup_fn");
    assert_eq!(j.status, Status::Pending);
    assert_eq!(j.max_retries, 2);
    assert_eq!(j.retry_count, 0);
}

#[test]
fn absolute_time_is_taken_as_is() {
    let now = 1_600_000_000;
    let j = parse_task_form(&form("1700000000", "1", "d", "f"), now, 0).unwrap();
    assert_eq!(j.execution_time, 1_700_000_000);
}

#[test]
fn plus_prefix_and_whitespace_are_accepted() {
    let now = 1_600_000_000;
    let j = parse_task_form(&form(" +5 ", " 9 ", " spaced ", " fn "), now, 0).unwrap();
    assert_eq!(j.execution_time, now + 5);
    assert_eq!(j.priority, 9);
    assert_eq!(j.description, "spaced");
    assert_eq!(j.function, "fn");
}

#[test]
fn empty_field_is_rejected() {
    let now = 1_600_000_000;
    let r = parse_task_form(&form("5", "3", "  ", "f"), now, 0);
    assert_eq!(r.unwrap_err(), FormError::MissingField);
}

#[test]
fn unparsable_time_is_rejected() {
    let now = 1_600_000_000;
    let r = parse_task_form(&form("soon", "3", "d", "f"), now, 0);
    assert_eq!(r.unwrap_err(), FormError::InvalidTime);
}

#[test]
fn out_of_range_priority_is_rejected() {
    let now = 1_600_000_000;
    let r = parse_task_form(&form("5", "300", "d", "f"), now, 0);
    assert_eq!(r.unwrap_err(), FormError::InvalidPriority);
}

#[test]
fn past_due_time_is_rejected() {
    let now = 1_600_000_000;
    let r = parse_task_form(&form("1500000000", "3", "d", "f"), now, 0);
    assert_eq!(r.unwrap_err(), FormError::PastDue);
    let r2 = parse_task_form(&form("-5", "3", "d", "f"), now, 0);
    assert_eq!(r2.unwrap_err(), FormError::PastDue);
}

#[test]
fn zero_padded_numerals_are_accepted() {
    // Leading zeros do not limit the written length of a numeral.
    let now = 1_600_000_000;
    let j = parse_task_form(&form("00000000000000000005", "000000000000000000000255", "d", "f"), now, 0)
        .unwrap();
    assert_eq!(j.execution_time, now + 5);
    assert_eq!(j.priority, 255);
    let k = parse_task_form(&form("-000009", "1", "d", "f"), now, 0);
    assert_eq!(k.unwrap_err(), FormError::PastDue);
}

#[test]
fn oversized_numerals_are_rejected() {
    let now = 1_600_000_000;
    let r = parse_task_form(&form("99999999999999999999", "1", "d", "f"), now, 0);
    assert_eq!(r.unwrap_err(), FormError::InvalidTime);
}

#[test]
fn selection_moves_to_previous_row() {
    assert_eq!(selection_after_remove(0, 1), None);
    assert_eq!(selection_after_remove(0, 3), Some(0));
    assert_eq!(selection_after_remove(1, 3), Some(1));
    assert_eq!(selection_after_remove(2, 3), Some(0));
    assert_eq!(selection_after_remove(1, 2), Some(0));
}

#[test]
fn form_defaults_are_empty() {
    let f = AddTaskForm::default();
    assert!(f.time.is_empty());
    assert!(f.priority.is_empty());
    assert!(f.description.is_empty());
    assert!(f.function.is_empty());
    assert!(matches!(InputMode::default(), InputMode::Normal));
    assert!(matches!(InputField::default(), InputField::Time));
}

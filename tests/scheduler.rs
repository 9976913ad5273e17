use task_scheduler::scheduler::Scheduler;
use task_scheduler::task::{TaskConfig, Violation};

fn task(id: usize, kind: &str, backend: &str, cost: u64) -> TaskConfig {
    TaskConfig::new(id, kind.to_string(), backend.to_string(), cost)
}

fn create_sample_tasks() -> Vec<TaskConfig> {
    vec![
        task(0, "quantum", "cirq", 500),
        task(1, "classical", "local", 300),
        task(2, "quantum", "qiskit", 400),
    ]
}

#[test]
fn test_schedule_tasks_success() {
    let scheduler = Scheduler::new();
    let tasks = vec![task(0, "quantum", "cirq", 500), task(1, "classical", "local", 300)];

    let result = scheduler.schedule_tasks(tasks.clone(), 100_000, 1000);
    assert!(result.is_ok());
    let prioritized = result.unwrap();
    assert_eq!(prioritized.len(), 2);
    assert_eq!(prioritized[0].id, 1);
    assert_eq!(prioritized[1].id, 0);
}

#[test]
fn test_schedule_tasks_exceeds_latency() {
    let scheduler = Scheduler::new();
    let tasks = vec![task(0, "quantum", "cirq", 20_000)];

    let result = scheduler.schedule_tasks(tasks, 100_000, 100_000);
    assert!(result.is_err());
    assert!(result.unwrap_err().message().contains("exceeds max latency"));
}

#[test]
fn test_schedule_tasks_exceeds_budget() {
    let scheduler = Scheduler::new();
    let tasks = vec![task(0, "quantum", "cirq", 1500)];

    let result = scheduler.schedule_tasks(tasks, 100_000, 1000);
    assert!(result.is_err());
    assert!(result.unwrap_err().message().contains("exceeds budget"));
}

#[test]
fn test_execute_tasks() {
    let scheduler = Scheduler::new();
    let tasks = vec![task(0, "quantum", "cirq", 500), task(1, "classical", "local", 300)];

    let results = scheduler.execute_tasks(tasks);
    assert_eq!(results.len(), 2);
    assert!(results.iter().any(|(id, _)| *id == 0));
    assert!(results.iter().any(|(id, _)| *id == 1));
}

#[test]
fn test_schedule_tasks_ordered_by_cost() {
    let scheduler = Scheduler::new();
    let tasks = create_sample_tasks();
    let max_latency = 100_000;
    let max_budget = 2000;

    let result = scheduler.schedule_tasks(tasks, max_latency, max_budget);

    assert!(result.is_ok());
    let prioritized = result.unwrap();
    assert_eq!(prioritized.len(), 3);
    assert_eq!(prioritized[0].id, 1);
    assert_eq!(prioritized[1].id, 2);
    assert_eq!(prioritized[2].id, 0);
}

#[test]
fn scheduler_test_schedule_tasks_exceeds_latency() {
    let scheduler = Scheduler::new();
    let tasks = vec![task(0, "quantum", "cirq", 20_000)];
    let max_latency = 100_000;
    let max_budget = 100_000;

    let result = scheduler.schedule_tasks(tasks, max_latency, max_budget);

    assert!(result.is_err());
    let error = result.unwrap_err();
    assert!(error.message().contains("exceeds max latency"));
}

#[test]
fn scheduler_test_schedule_tasks_exceeds_budget() {
    let scheduler = Scheduler::new();
    let tasks = vec![task(0, "quantum", "cirq", 1500), task(1, "classical", "local", 600)];
    let max_latency = 100_000;
    let max_budget = 1000;

    let result = scheduler.schedule_tasks(tasks, max_latency, max_budget);

    assert!(result.is_err());
    let error = result.unwrap_err();
    assert!(error.message().contains("exceeds budget"));
}

#[test]
fn test_execute_tasks_concurrently() {
    let scheduler = Scheduler::new();
    let tasks = create_sample_tasks();

    let results = scheduler.execute_tasks(tasks);

    assert_eq!(results.len(), 3);
    let ids: Vec<usize> = results.iter().map(|(id, _)| *id).collect();
    assert!(ids.contains(&0));
    assert!(ids.contains(&1));
    assert!(ids.contains(&2));
    for (id, message) in results {
        assert!(message.contains(&format!("Executed task {}", id)));
    }
}

#[test]
fn test_execute_empty_tasks() {
    let scheduler = Scheduler::new();
    let tasks = vec![];

    let results = scheduler.execute_tasks(tasks);

    assert_eq!(results.len(), 0);
}

#[test]
fn latency_violation_carries_id_latency_and_limit() {
    let scheduler = Scheduler::new();
    let result = scheduler.schedule_tasks(vec![task(0, "quantum", "cirq", 20_000)], 100_000, 100_000);
    match result {
        Err(Violation::LatencyExceeded { id, latency, limit }) => {
            assert_eq!(id, 0);
            assert_eq!(latency, 200_000);
            assert_eq!(limit, 100_000);
        }
        _ => panic!("expected a latency violation"),
    }
}

#[test]
fn budget_violation_carries_total_and_limit() {
    let scheduler = Scheduler::new();
    let result = scheduler.schedule_tasks(vec![task(0, "quantum", "cirq", 1500)], 100_000, 1000);
    match result {
        Err(Violation::BudgetExceeded { total, limit }) => {
            assert_eq!(total, 1500);
            assert_eq!(limit, 1000);
        }
        _ => panic!("expected a budget violation"),
    }
}

#[test]
fn budget_total_is_cumulative_through_first_overrun() {
    let scheduler = Scheduler::new();
    let tasks = vec![
        task(7, "a", "x", 400),
        task(8, "b", "y", 500),
        task(9, "c", "z", 300),
        task(10, "d", "w", 900),
    ];
    match scheduler.schedule_tasks(tasks, 100_000, 1000) {
        Err(Violation::BudgetExceeded { total, limit }) => {
            assert_eq!(total, 1200);
            assert_eq!(limit, 1000);
        }
        _ => panic!("expected a budget violation"),
    }
}

#[test]
fn latency_checked_before_later_budget() {
    let scheduler = Scheduler::new();
    let tasks = vec![task(3, "a", "x", 100), task(4, "b", "y", 9000), task(5, "c", "z", 50_000)];
    match scheduler.schedule_tasks(tasks, 50_000, 1000) {
        Err(Violation::LatencyExceeded { id, latency, limit }) => {
            assert_eq!(id, 4);
            assert_eq!(latency, 90_000);
            assert_eq!(limit, 50_000);
        }
        _ => panic!("expected a latency violation"),
    }
}

#[test]
fn earlier_budget_overrun_wins_over_later_latency() {
    let scheduler = Scheduler::new();
    let tasks = vec![task(0, "a", "x", 900), task(1, "b", "y", 200), task(2, "c", "z", 20_000)];
    match scheduler.schedule_tasks(tasks, 100_000, 1000) {
        Err(Violation::BudgetExceeded { total, .. }) => assert_eq!(total, 1100),
        _ => panic!("expected a budget violation"),
    }
}

#[test]
fn ceilings_are_inclusive() {
    let scheduler = Scheduler::new();
    let tasks = vec![task(0, "a", "x", 600), task(1, "b", "y", 400)];
    let r = scheduler.schedule_tasks(tasks, 6000, 1000).unwrap();
    assert_eq!(r.len(), 2);
    assert_eq!(r[0].id, 1);
    assert_eq!(r[1].id, 0);
}

#[test]
fn empty_batch_is_admitted() {
    let scheduler = Scheduler::new();
    let r = scheduler.schedule_tasks(vec![], 0, 0).unwrap();
    assert!(r.is_empty());
}

#[test]
fn schedule_keeps_fields_and_equal_costs() {
    let scheduler = Scheduler::new();
    let tasks = vec![task(0, "q", "cirq", 5), task(1, "c", "local", 2), task(2, "q", "qiskit", 5), task(3, "c", "local", 1)];
    let r = scheduler.schedule_tasks(tasks, u64::MAX, u64::MAX).unwrap();
    let costs: Vec<u64> = r.iter().map(|t| t.estimated_cost).collect();
    assert_eq!(costs, vec![1, 2, 5, 5]);
    assert_eq!(r[0].id, 3);
    assert_eq!(r[1].id, 1);
    let mut last_two: Vec<usize> = vec![r[2].id, r[3].id];
    last_two.sort();
    assert_eq!(last_two, vec![0, 2]);
    assert_eq!(r[0].backend, "local");
    assert_eq!(r[0].kind, "c");
}

#[test]
fn repeated_schedule_gives_same_cost_order() {
    let scheduler = Scheduler::new();
    let a = scheduler.schedule_tasks(create_sample_tasks(), 100_000, 2000).unwrap();
    let b = scheduler.schedule_tasks(create_sample_tasks(), 100_000, 2000).unwrap();
    let ca: Vec<u64> = a.iter().map(|t| t.estimated_cost).collect();
    let cb: Vec<u64> = b.iter().map(|t| t.estimated_cost).collect();
    assert_eq!(ca, cb);
    assert_eq!(ca, vec![300, 400, 500]);
}

#[test]
fn huge_costs_do_not_overflow() {
    let scheduler = Scheduler::new();
    let tasks = vec![task(0, "a", "x", u64::MAX), task(1, "b", "y", u64::MAX)];
    match scheduler.schedule_tasks(tasks, u64::MAX, u64::MAX) {
        Err(Violation::LatencyExceeded { latency, .. }) => {
            assert_eq!(latency, u64::MAX as u128 * 10)
        }
        _ => panic!("expected a latency violation"),
    }
    let tasks = vec![task(0, "a", "x", u64::MAX / 10), task(1, "b", "y", u64::MAX / 10)];
    match scheduler.schedule_tasks(tasks, u64::MAX, u64::MAX / 10) {
        Err(Violation::BudgetExceeded { total, .. }) => {
            assert_eq!(total, (u64::MAX / 10) as u128 * 2)
        }
        _ => panic!("expected a budget violation"),
    }
}

#[test]
fn execute_outcomes_follow_input() {
    let scheduler = Scheduler::new();
    let results = scheduler.execute_tasks(create_sample_tasks());
    assert_eq!(results[0], (0, "Executed task 0 on cirq".to_string()));
    assert_eq!(results[1], (1, "Executed task 1 on local".to_string()));
    assert_eq!(results[2], (2, "Executed task 2 on qiskit".to_string()));
}

#[test]
fn violation_messages() {
    let m = Violation::MalformedInput { detail: "bad".to_string() };
    assert_eq!(m.message(), "malformed task batch");
    let l = Violation::LatencyExceeded { id: 1, latency: 2, limit: 1 };
    assert_eq!(l.message(), "task exceeds max latency");
    let b = Violation::BudgetExceeded { total: 2, limit: 1 };
    assert_eq!(b.message(), "total cost exceeds budget");
}

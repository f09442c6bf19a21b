use tasktree::errors::TreeError;
use tasktree::status::TaskStatus;
use tasktree::tree::TaskTree;
use tasktree::TID;

fn setup_tree() -> TaskTree {
    let mut tree = TaskTree::new();
    for k in 1..8 {
        tree.add_task(format!("Task {}", k), None);
    }
    tree.add_dependency(&1, &2).unwrap();
    tree.add_dependency(&2, &3).unwrap();
    tree.add_dependency(&2, &4).unwrap();
    tree.add_dependency(&3, &5).unwrap();
    tree.add_dependency(&4, &5).unwrap();
    tree.add_dependency(&4, &6).unwrap();
    tree.add_dependency(&1, &7).unwrap();
    tree.add_dependency(&7, &6).unwrap();
    tree
}

fn ids_of(tasks: Vec<&tasktree::task::Task>) -> Vec<TID> {
    tasks.iter().map(|t| *t.get_id()).collect()
}

#[test]
fn test_cycle_rejected_and_state_kept() {
    let mut tree = setup_tree();
    let before_children = tree.get_children(&6).unwrap();
    let before_parents = tree.get_parents(&1).unwrap();

    // 1 already reaches 6 (via 2 -> 4 -> 6 and via 7 -> 6), so making 6
    // depend on 1 would close a cycle.
    let r = tree.add_dependency(&6, &1);
    assert_eq!(r, Err(TreeError::CycleWouldForm(6, 1)));

    assert_eq!(tree.get_children(&6).unwrap(), before_children);
    assert_eq!(tree.get_parents(&1).unwrap(), before_parents);

    // A self reference is rejected too.
    assert_eq!(tree.add_dependency(&3, &3), Err(TreeError::SelfReference(3)));
    // A duplicate edge is rejected.
    assert_eq!(tree.add_dependency(&1, &2), Err(TreeError::DuplicateEdge(1, 2)));
}

#[test]
fn test_symmetry_of_adjacency() {
    let mut tree = setup_tree();
    let tid8 = tree.add_task("Task 8".to_string(), None);
    tree.add_dependency(&3, &tid8).unwrap();

    // Both views change together on every edge.
    for a in 1..9u16 {
        for b in 1..9u16 {
            let forward = tree.get_children(&a).unwrap().contains(&b);
            let backward = tree.get_parents(&b).unwrap().contains(&a);
            assert_eq!(forward, backward);
        }
    }
}

#[test]
fn test_add_then_remove_restores_lists() {
    let mut tree = setup_tree();
    let before_children = tree.get_children(&3).unwrap();
    let before_parents = tree.get_parents(&6).unwrap();

    tree.add_dependency(&3, &6).unwrap();
    tree.remove_dependency(&3, &6).unwrap();

    assert_eq!(tree.get_children(&3).unwrap(), before_children);
    assert_eq!(tree.get_parents(&6).unwrap(), before_parents);
}

#[test]
fn test_status_gate() {
    let mut tree = setup_tree();

    // Task 2 has open dependencies 3 and 4: it may not leave Open.
    assert_eq!(
        tree.set_status(&2, "closed".to_string()),
        Err(TreeError::BlockedByOpenChildren(2, TaskStatus::Closed))
    );
    assert_eq!(
        tree.set_status(&2, "in-progress".to_string()),
        Err(TreeError::BlockedByOpenChildren(2, TaskStatus::InProgress))
    );

    // Close the graph bottom-up; each move is allowed once every direct
    // dependency is closed.
    tree.set_status(&5, "closed".to_string()).unwrap();
    tree.set_status(&6, "closed".to_string()).unwrap();
    tree.set_status(&3, "closed".to_string()).unwrap();
    tree.set_status(&4, "closed".to_string()).unwrap();
    tree.set_status(&2, "closed".to_string()).unwrap();

    // Moving back to Open is never gated.
    tree.set_status(&5, "open".to_string()).unwrap();
    // Now 3 has an open dependency again and may not be re-closed.
    tree.set_status(&3, "open".to_string()).unwrap();
    assert_eq!(
        tree.set_status(&3, "closed".to_string()),
        Err(TreeError::BlockedByOpenChildren(3, TaskStatus::Closed))
    );

    // A task with no dependencies is never blocked.
    tree.set_status(&5, "in-progress".to_string()).unwrap();
    assert_eq!(tree.get_status(&5).unwrap(), TaskStatus::InProgress);

    // Unknown status text is rejected.
    assert!(matches!(
        tree.set_status(&1, "bogus".to_string()),
        Err(TreeError::InvalidStatusName(_))
    ));
    // A missing task is reported before the text is parsed.
    assert_eq!(
        tree.set_status(&99, "closed".to_string()),
        Err(TreeError::NotFound(99))
    );
}

#[test]
fn test_fixture_scenario() {
    let mut tree = setup_tree();

    // Every task matches the query "Task".
    assert_eq!(tree.search_tasks("Task", None).unwrap().len(), 7);
    // The search is case sensitive.
    assert_eq!(tree.search_tasks("task", None).unwrap().len(), 0);

    tree.set_status(&6, "closed".to_string()).unwrap();
    let hits = tree.search_tasks("Task", Some("closed".to_string())).unwrap();
    assert_eq!(hits, vec!["[C]     6: Task 6".to_string()]);

    let closed = tree.view_tasks(Some("closed".to_string())).unwrap();
    assert_eq!(ids_of(closed), vec![6]);

    // Removing task 7 strips it from both adjacency views.
    tree.remove_task(&7).unwrap();
    assert!(!tree.get_children(&1).unwrap().contains(&7));
    assert!(!tree.get_parents(&6).unwrap().contains(&7));
    assert!(tree.get_task(&7).is_err());
}

#[test]
fn test_fixture_dependency_closures() {
    let mut tree = setup_tree();

    tree.remove_dependency(&1, &7).unwrap();
    tree.remove_dependency(&7, &6).unwrap();
    tree.add_dependency(&4, &7).unwrap();
    tree.set_status(&6, "closed".to_string()).unwrap();

    let mut deps = tree.get_dependencies(&1, None).unwrap();
    deps.sort();
    assert_eq!(deps, vec![5, 7]);

    let mut deps = tree.get_dependencies(&1, Some("all".to_string())).unwrap();
    deps.sort();
    assert_eq!(deps, vec![2, 3, 4, 5, 6, 7]);

    let mut deps = tree.get_dependencies(&1, Some("closed".to_string())).unwrap();
    deps.sort();
    assert_eq!(deps, vec![6]);

    assert_eq!(
        tree.get_dependencies(&99, None),
        Err(TreeError::NotFound(99))
    );
    assert!(matches!(
        tree.get_dependencies(&1, Some("bogus".to_string())),
        Err(TreeError::InvalidStatusName(_))
    ));
}

#[test]
fn test_search_all_filter() {
    let mut tree = setup_tree();
    tree.set_status(&6, "closed".to_string()).unwrap();

    // The filter "all" searches every task, exactly like no filter.
    let all = tree.search_tasks("Task", Some("all".to_string())).unwrap();
    assert_eq!(all.len(), 7);
    assert_eq!(all, tree.search_tasks("Task", None).unwrap());

    let closed_hits = tree.search_tasks("[C]", Some("all".to_string())).unwrap();
    assert_eq!(closed_hits, vec!["[C]     6: Task 6".to_string()]);
}

#[test]
fn test_add_dep_btwn_partial_failure() {
    let mut tree = setup_tree();

    // The first step removes 1 -> 7; the second step then fails, since 1
    // already depends on 2.  The removal is not rolled back.
    let r = tree.add_dependency_btwn(&1, &2, &7);
    assert_eq!(r, Err(TreeError::DuplicateEdge(1, 2)));

    assert!(!tree.get_children(&1).unwrap().contains(&7));
    assert!(!tree.get_parents(&7).unwrap().contains(&1));
    // Nothing else moved.
    assert!(tree.get_children(&1).unwrap().contains(&2));
    assert!(tree.get_children(&7).unwrap().contains(&6));
}

#[test]
fn test_available_tasks() {
    let mut tree = setup_tree();

    // Only the structural leaves are available at first.
    assert_eq!(ids_of(tree.get_available_tasks()), vec![5, 6]);
    // view_tasks with no flag lists the same tasks.
    assert_eq!(ids_of(tree.view_tasks(None).unwrap()), vec![5, 6]);

    tree.set_status(&5, "closed".to_string()).unwrap();
    tree.set_status(&6, "closed".to_string()).unwrap();
    // 3 and 4 now have every dependency closed; 5 and 6 are closed and
    // no longer available; 7's one dependency is closed.
    assert_eq!(ids_of(tree.get_available_tasks()), vec![3, 4, 7]);
}

#[test]
fn test_summary_line_format() {
    let mut tree = TaskTree::new();
    let tid = tree.add_task("Task 1".to_string(), None);
    assert_eq!(tree.get_task_repr(&tid).unwrap(), "[O]     1: Task 1");

    tree.set_status(&tid, "in-progress".to_string()).unwrap();
    assert_eq!(tree.get_task_repr(&tid).unwrap(), "[I]     1: Task 1");

    tree.set_status(&tid, "closed".to_string()).unwrap();
    assert_eq!(tree.get_task_repr(&tid).unwrap(), "[C]     1: Task 1");

    assert_eq!(tree.get_task_repr(&99), None);
}

#[test]
fn test_view_dependencies_text() {
    let mut tree = TaskTree::new();
    let tid1 = tree.add_task("Task 1".to_string(), None);
    let tid2 = tree.add_task("Task 2".to_string(), None);
    tree.add_dependency(&tid1, &tid2).unwrap();

    let text = tree.view_dependencies(&tid1, Some("all".to_string())).unwrap();
    assert_eq!(text, "dependencies for task 1:[O]     2: Task 2\n");

    assert_eq!(
        tree.view_dependencies(&99, None),
        Err(TreeError::NotFound(99))
    );
}

#[test]
fn test_remove_dependency_errors() {
    let mut tree = setup_tree();
    assert_eq!(tree.remove_dependency(&99, &1), Err(TreeError::NotFound(99)));
    assert_eq!(tree.remove_dependency(&1, &99), Err(TreeError::NotFound(99)));
    assert_eq!(tree.remove_dependency(&1, &3), Err(TreeError::NoSuchEdge(1, 3)));
    assert_eq!(tree.remove_task(&99), Err(TreeError::NotFound(99)));
}

#[test]
fn test_task_fields() {
    let mut tree = TaskTree::new();
    let tid = tree.add_task("write report".to_string(), Some("draft first".to_string()));
    let task = tree.get_task(&tid).unwrap();
    assert_eq!(*task.get_id(), 1);
    assert_eq!(task.get_name(), "write report");
    assert_eq!(task.get_desc(), Some("draft first"));
    assert_eq!(*task.get_status(), TaskStatus::Open);
    assert!(!task.get_created_timestamp().is_empty());

    let tid2 = tree.add_task("no description".to_string(), None);
    assert_eq!(tree.get_task(&tid2).unwrap().get_desc(), None);
}

#[test]
fn test_status_names() {
    assert_eq!(TaskStatus::from_status_flag("open").unwrap(), TaskStatus::Open);
    assert_eq!(
        TaskStatus::from_status_flag("in-progress").unwrap(),
        TaskStatus::InProgress
    );
    assert_eq!(TaskStatus::from_status_flag("closed").unwrap(), TaskStatus::Closed);
    assert!(matches!(
        TaskStatus::from_status_flag("Open"),
        Err(TreeError::InvalidStatusName(_))
    ));
    assert_eq!(TaskStatus::Open.to_name(), "open");
    assert_eq!(TaskStatus::InProgress.to_name(), "in-progress");
    assert_eq!(TaskStatus::Closed.to_name(), "closed");
    assert_eq!(TaskStatus::Open.glyph(), "[O]");
    assert_eq!(TaskStatus::InProgress.glyph(), "[I]");
    assert_eq!(TaskStatus::Closed.glyph(), "[C]");
}

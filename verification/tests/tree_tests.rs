use tasktree::tree::TaskTree;
use tasktree::TID;

fn get_children_for(tree: &TaskTree, task_id: &TID) -> Vec<TID> {
    tree.get_children(task_id).unwrap()
}

fn get_parents_for(tree: &TaskTree, task_id: &TID) -> Vec<TID> {
    tree.get_parents(task_id).unwrap()
}

fn has_dependency(tree: &TaskTree, task_id: &TID, depends_on_id: &TID) -> bool {
    get_children_for(tree, task_id).contains(depends_on_id)
}

fn has_parent(tree: &TaskTree, task_id: &TID, parent_id: &TID) -> bool {
    get_parents_for(tree, task_id).contains(parent_id)
}

fn get_task_reprs(tree: &TaskTree) -> Vec<String> {
    let mut reprs = Vec::new();
    for task in tree.view_tasks(Some("all".to_string())).unwrap() {
        reprs.push(task.get_repr().clone());
    }
    reprs
}

pub fn setup_tree() -> TaskTree {
    let mut tree = TaskTree::new();
    let tid1 = tree.add_task("Task 1".to_string(), None);
    let tid2 = tree.add_task("Task 2".to_string(), None);
    let tid3 = tree.add_task("Task 3".to_string(), None);
    let tid4 = tree.add_task("Task 4".to_string(), None);
    let tid5 = tree.add_task("Task 5".to_string(), None);
    let tid6 = tree.add_task("Task 6".to_string(), None);
    let tid7 = tree.add_task("Task 7".to_string(), None);

    // (1)-------
    //  |       |
    //  |       |
    //  |       |
    // (2)      |
    //  | \     |
    //  |  \    |
    // (3) (4) (7)
    //  |  /|   |
    //  | / |   |
    // (5) (6)---

    tree.add_dependency(&tid1, &tid2).unwrap();
    tree.add_dependency(&tid2, &tid3).unwrap();
    tree.add_dependency(&tid2, &tid4).unwrap();
    tree.add_dependency(&tid3, &tid5).unwrap();
    tree.add_dependency(&tid4, &tid5).unwrap();
    tree.add_dependency(&tid4, &tid6).unwrap();
    tree.add_dependency(&tid1, &tid7).unwrap();
    tree.add_dependency(&tid7, &tid6).unwrap();

    tree
}

#[test]
fn test_add_task_and_get_desc() {
    let mut tree = setup_tree();

    let name = "Task 8";
    let task_id = tree.add_task(name.to_string(), None);

    let task_name = tree.get_task(&task_id).unwrap().get_name().to_string();
    assert!(task_name == name);
}

#[test]
fn test_remove_task() {
    let mut tree = setup_tree();

    let tid7: TID = 7;
    assert!(tree.get_task(&tid7).is_ok());

    let tid1: TID = 1;
    let tid6: TID = 6;

    let tid1_children = get_children_for(&tree, &tid1);
    let tid6_parents = get_parents_for(&tree, &tid6);

    assert!(tid1_children.contains(&tid7));
    assert!(tid6_parents.contains(&tid7));

    tree.remove_task(&tid7).unwrap();

    let tid1_children = get_children_for(&tree, &tid1);
    let tid6_parents = get_parents_for(&tree, &tid6);

    assert!(!tid1_children.contains(&tid7));
    assert!(!tid6_parents.contains(&tid7));

    assert!(tree.get_task(&tid7).is_err());
}

#[test]
fn test_get_task_description() {
    let tree = setup_tree();
    let tid6: TID = 6;
    assert!(tree.get_task(&tid6).unwrap().get_name() == "Task 6");
}

#[test]
fn test_get_tasks() {
    let mut tree = setup_tree();
    let tid6: TID = 6;
    tree.set_status(&tid6, "closed".to_string()).unwrap();

    let expect_tasks = vec![
        "[O]     1: Task 1",
        "[O]     2: Task 2",
        "[O]     3: Task 3",
        "[O]     4: Task 4",
        "[O]     5: Task 5",
        "[C]     6: Task 6",
        "[O]     7: Task 7",
    ];

    let tasks = get_task_reprs(&tree);

    assert!(expect_tasks.len() == tasks.len());
    for task in tasks {
        assert!(expect_tasks.contains(&&task[..]));
    }
}

#[test]
fn test_search_tasks() {
    let mut tree = setup_tree();
    let tid6: TID = 6;
    tree.set_status(&tid6, "closed".to_string()).unwrap();

    let expect_matches = vec!["[C]     6: Task 6"];
    let matches = tree.search_tasks("[C]", None).unwrap();
    for _match in &matches {
        assert!(expect_matches.contains(&&_match[..]));
    }
    assert!(expect_matches.len() == matches.len());

    let expect_matches = vec![
        "[O]     1: Task 1",
        "[O]     2: Task 2",
        "[O]     3: Task 3",
        "[O]     4: Task 4",
        "[O]     5: Task 5",
        "[C]     6: Task 6",
        "[O]     7: Task 7",
    ];
    let matches = tree.search_tasks("Task", None).unwrap();
    for _match in &matches {
        assert!(expect_matches.contains(&&_match[..]));
    }
    assert!(expect_matches.len() == matches.len());
}

#[test]
fn test_add_dependency_success() {
    let mut tree = setup_tree();
    let tid8 = tree.add_task(String::from("Task 8"), None);
    let tid1: TID = 1;
    tree.add_dependency(&tid1, &tid8).unwrap();

    let tid1_children = get_children_for(&tree, &tid1);
    let tid8_parents = get_parents_for(&tree, &tid8);

    assert!(tid1_children.contains(&tid8));
    assert!(tid8_parents.contains(&tid1));
}

#[test]
#[should_panic]
fn test_add_dependency_panic() {
    let mut tree = setup_tree();
    let tid6: TID = 6;
    let tid1: TID = 1;
    tree.add_dependency(&tid6, &tid1).unwrap();
}

#[test]
fn test_add_dependency_btwn_success() {
    let mut tree = setup_tree();
    let tid8 = tree.add_task(String::from("Task 8"), None);
    let tid1: TID = 1;
    let tid2: TID = 2;
    tree.add_dependency_btwn(&tid1, &tid8, &tid2).unwrap();

    let tid1_children = get_children_for(&tree, &tid1);
    let tid2_parents = get_parents_for(&tree, &tid2);
    let tid8_children = get_children_for(&tree, &tid8);
    let tid8_parents = get_parents_for(&tree, &tid8);

    assert!(!tid1_children.contains(&tid2));
    assert!(tid1_children.contains(&tid8));

    assert!(!tid2_parents.contains(&tid1));
    assert!(tid2_parents.contains(&tid8));

    assert!(tid8_children.contains(&tid2));
    assert!(tid8_parents.contains(&tid1));
}

#[test]
#[should_panic]
fn test_add_dependency_btwn_panic() {
    let mut tree = setup_tree();
    let tid1: TID = 1;
    let tid6: TID = 6;
    let tid8 = tree.add_task(String::from("Task 8"), None);
    tree.add_dependency_btwn(&tid1, &tid6, &tid8).unwrap();
}

#[test]
fn test_remove_dependency() {
    let mut tree = setup_tree();
    let tid1: TID = 1;
    let tid7: TID = 7;

    let tid1_children = get_children_for(&tree, &tid1);
    assert!(tid1_children.contains(&tid7));

    let tid7_parents = get_parents_for(&tree, &tid7);
    assert!(tid7_parents.contains(&tid1));

    tree.remove_dependency(&tid1, &tid7).unwrap();

    let tid1_children = get_children_for(&tree, &tid1);
    assert!(!tid1_children.contains(&tid7));

    let tid7_parents = get_parents_for(&tree, &tid7);
    assert!(!tid7_parents.contains(&tid1));
}

#[test]
fn test_get_children() {
    let tree = setup_tree();
    let tid1: TID = 1;
    let tid2: TID = 2;
    let tid7: TID = 7;

    let expect_matches = vec![tid2, tid7];
    let matches = get_children_for(&tree, &tid1);
    for _match in matches.iter() {
        assert!(expect_matches.contains(_match));
    }
    assert!(expect_matches.len() == matches.len());
}

#[test]
fn test_get_parents() {
    let tree = setup_tree();
    let tid2: TID = 2;
    let tid3: TID = 3;
    let tid4: TID = 4;
    let tid5: TID = 5;

    let expect_matches = vec![tid3, tid4];
    let matches = get_parents_for(&tree, &tid5);
    for _match in matches.iter() {
        assert!(expect_matches.contains(_match));
    }
    assert!(expect_matches.len() == matches.len());

    let expect_matches = vec![tid2];
    let matches = get_parents_for(&tree, &tid4);
    for _match in matches.iter() {
        assert!(expect_matches.contains(_match));
    }
    assert!(expect_matches.len() == matches.len());
}

#[test]
fn test_has_dependency() {
    let tree = setup_tree();
    let tid1: TID = 1;
    let tid2: TID = 2;
    let tid3: TID = 3;
    assert!(has_dependency(&tree, &tid1, &tid2));
    assert!(!has_dependency(&tree, &tid1, &tid3));
}

#[test]
fn test_has_parent() {
    let tree = setup_tree();
    let tid1: TID = 1;
    let tid2: TID = 2;
    let tid3: TID = 3;
    assert!(has_parent(&tree, &tid2, &tid1));
    assert!(!has_parent(&tree, &tid3, &tid1));
}

#[test]
fn test_get_dependencies() {
    let mut tree = setup_tree();

    let tid1: TID = 1;
    let tid2: TID = 2;
    let tid3: TID = 3;
    let tid4: TID = 4;
    let tid5: TID = 5;
    let tid6: TID = 6;
    let tid7: TID = 7;

    tree.remove_dependency(&tid1, &tid7).unwrap();
    tree.remove_dependency(&tid7, &tid6).unwrap();
    tree.add_dependency(&tid4, &tid7).unwrap();
    tree.set_status(&tid6, "closed".to_string()).unwrap();

    // (1)
    //  |
    // (2)
    //  | \
    //  |  \
    // (3) (4)
    //  |  /|\
    //  | / | \
    // (5) [6] (7)

    // here, deps should have all available dependencies
    let deps = tree.get_dependencies_filtered(&tid1, false, true, None).unwrap();

    assert!(deps.contains(&tid2));
    assert!(deps.contains(&tid3));
    assert!(deps.contains(&tid4));
    assert!(deps.contains(&tid5));
    assert!(deps.contains(&tid7));
    assert!(deps.len() == 5);

    // here, deps should have all dependencies
    let deps = tree.get_dependencies_filtered(&tid1, false, false, None).unwrap();

    assert!(deps.contains(&tid2));
    assert!(deps.contains(&tid3));
    assert!(deps.contains(&tid4));
    assert!(deps.contains(&tid5));
    assert!(deps.contains(&tid6));
    assert!(deps.contains(&tid7));
    assert!(deps.len() == 6);

    // here, deps should have only available, leaf dependencies
    let deps = tree.get_dependencies_filtered(&tid1, true, true, None).unwrap();

    assert!(deps.contains(&tid5));
    assert!(deps.contains(&tid7));
    assert!(deps.len() == 2);

    // here, deps should have all leaf dependencies
    let deps = tree.get_dependencies_filtered(&tid1, true, false, None).unwrap();

    assert!(deps.len() == 3);
    assert!(deps.contains(&tid5));
    assert!(deps.contains(&tid6));
    assert!(deps.contains(&tid7));
}

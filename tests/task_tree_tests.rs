use ttm::task_tree::{TaskTree, TaskTreeNode};

fn children(tree: &TaskTree, i: usize) -> Vec<usize> {
    tree.nodes[i].children.clone()
}

fn name_of(tree: &TaskTree, i: usize) -> String {
    match &tree.nodes[i].value {
        TaskTreeNode::Task(t) => t.name.clone(),
        TaskTreeNode::Label(l) => l.clone(),
        TaskTreeNode::CommitNote(c) => c.clone(),
    }
}

#[test]
fn test_parse_only_tasks() {
    let td_tasktree_0 = r#"
() :ttm
    (2,0,0) Task 10 (*P[Y21W-W3U-2321])
        (1,0) Task 11
        S(0,5,5) Task 12
    B(0,5,10) Task 20
        ~(1) Task 21
    (0,0) Task 01 "#;

    let tree = TaskTree::parse(td_tasktree_0);
    println!("{:?}", tree);
    assert_eq!(tree.nodes.len(), 8);
    assert_eq!(name_of(&tree, 0), "root");
    assert_eq!(children(&tree, 0), vec![1]);
    assert_eq!(children(&tree, 1), vec![2, 5, 7]);
    assert_eq!(children(&tree, 2), vec![3, 4]);
    assert_eq!(children(&tree, 5), vec![6]);
    assert_eq!(name_of(&tree, 2), "Task 10");
    assert!(matches!(tree.nodes[4].value, TaskTreeNode::Label(_)));
    assert_eq!(name_of(&tree, 4), "S(0,5,5) Task 12");
    assert_eq!(name_of(&tree, 7), "Task 01");
}

#[test]
fn task_tree_test_parse_general() {
    println!("hiii");
    let tree = TaskTree::parse("");
    assert_eq!(tree.nodes.len(), 1);
    assert!(tree.nodes[0].children.is_empty());
}

#[test]
fn test_parse_entrypoint() {
    let td_tasktree_0 = r#"
() :ttm
  Label1
    (2,0,0) Task 10 (*P[Y21W-W3U-2321])
    (1,0) Task 11
    S(0,5,5) Task 12
  Label2
    B(0,5,10) Task 20
      N- Blocked: Reason
    ~(1) Task 21
      - Commit 1
  (0,0) Task 01 "#;

    let tree = TaskTree::parse(td_tasktree_0);
    println!("{:?}", tree);
    assert_eq!(tree.nodes.len(), 12);
    assert_eq!(children(&tree, 0), vec![1]);
    assert_eq!(children(&tree, 1), vec![2, 6, 11]);
    assert_eq!(children(&tree, 2), vec![3, 4, 5]);
    assert_eq!(children(&tree, 6), vec![7, 9]);
    assert_eq!(children(&tree, 7), vec![8]);
    assert_eq!(children(&tree, 9), vec![10]);
    assert_eq!(name_of(&tree, 2), "Label1");
    assert_eq!(name_of(&tree, 10), "- Commit 1");
    assert_eq!(tree.nodes[10].parent, 9);
}

#[test]
fn test_dedent_and_blank_lines() {
    let tree = TaskTree::parse("a\n    b\n\n  c\nd\n");
    assert_eq!(tree.nodes.len(), 5);
    assert_eq!(children(&tree, 0), vec![1, 4]);
    assert_eq!(children(&tree, 1), vec![2, 3]);
    assert_eq!(tree.nodes[3].depth, 2);
}

use pirc_server::migration::{migration_commands, migration_plan, surviving_nodes, update_user_node_index, UserNodeIndex};
use pirc_server::raft::cluster_command::ClusterCommand;
use pirc_server::raft::health::HealthEvent;
use pirc_server::raft::types::NodeId;

#[test]
fn user_node_index_basic_operations() {
    let mut index = UserNodeIndex::new();
    let node1 = NodeId::new(1);
    let node2 = NodeId::new(2);

    // Set home nodes
    index.set_home_node("alice", node1);
    index.set_home_node("bob", node1);
    index.set_home_node("carol", node2);

    // Query users on node1
    let mut users = index.users_on_node(node1);
    users.sort();
    assert_eq!(users, vec!["alice", "bob"]);

    // Query users on node2
    let users = index.users_on_node(node2);
    assert_eq!(users, vec!["carol"]);

    // Empty query
    let users = index.users_on_node(NodeId::new(99));
    assert!(users.is_empty());
}

#[test]
fn user_node_index_remove() {
    let mut index = UserNodeIndex::new();
    let node1 = NodeId::new(1);

    index.set_home_node("alice", node1);
    index.set_home_node("bob", node1);

    index.remove_user("alice");
    let users = index.users_on_node(node1);
    assert_eq!(users, vec!["bob"]);
}

#[test]
fn user_node_index_rename() {
    let mut index = UserNodeIndex::new();
    let node1 = NodeId::new(1);

    index.set_home_node("alice", node1);
    index.rename_user("alice", "alicia");

    assert!(index.users_on_node(node1).contains(&"alicia".to_string()));
    assert!(!index.users_on_node(node1).contains(&"alice".to_string()));
}

#[test]
fn user_node_index_case_insensitive() {
    let mut index = UserNodeIndex::new();
    let node1 = NodeId::new(1);

    index.set_home_node("Alice", node1);
    let users = index.users_on_node(node1);
    assert_eq!(users, vec!["alice"]);

    index.remove_user("ALICE");
    assert!(index.users_on_node(node1).is_empty());
}

#[test]
fn user_node_index_active_nodes() {
    let mut index = UserNodeIndex::new();
    let node1 = NodeId::new(1);
    let node2 = NodeId::new(2);

    index.set_home_node("alice", node1);
    index.set_home_node("bob", node2);

    let nodes = index.active_nodes();
    assert!(nodes.contains(&node1));
    assert!(nodes.contains(&node2));
    assert_eq!(nodes.len(), 2);
}

#[test]
fn update_index_from_user_migrated() {
    let mut index = UserNodeIndex::new();
    let node1 = NodeId::new(1);
    let node2 = NodeId::new(2);

    index.set_home_node("alice", node1);

    let cmd = ClusterCommand::UserMigrated { nickname: "alice".into(), from_node: node1, to_node: node2 };
    update_user_node_index(&mut index, &cmd);

    assert!(index.users_on_node(node1).is_empty());
    assert_eq!(index.users_on_node(node2), vec!["alice"]);
}

#[test]
fn update_index_from_user_quit() {
    let mut index = UserNodeIndex::new();
    let node1 = NodeId::new(1);

    index.set_home_node("alice", node1);

    let cmd = ClusterCommand::UserQuit { nickname: "alice".into(), reason: None };
    update_user_node_index(&mut index, &cmd);

    assert!(index.users_on_node(node1).is_empty());
}

#[test]
fn update_index_from_nick_changed() {
    let mut index = UserNodeIndex::new();
    let node1 = NodeId::new(1);

    index.set_home_node("alice", node1);

    let cmd = ClusterCommand::NickChanged { old_nick: "alice".into(), new_nick: "alicia".into() };
    update_user_node_index(&mut index, &cmd);

    assert!(!index.users_on_node(node1).contains(&"alice".to_string()));
    assert!(index.users_on_node(node1).contains(&"alicia".to_string()));
}

#[test]
fn default_user_node_index() {
    let index = UserNodeIndex::default();
    assert!(index.users_on_node(NodeId::new(1)).is_empty());
}

// ---- Migration planning ----

#[test]
fn round_robin_assignment_over_survivors() {
    let surviving = vec![NodeId::new(1), NodeId::new(3)];
    let affected = vec!["alice".to_string(), "bob".to_string(), "carol".to_string()];
    let commands = migration_commands(NodeId::new(2), &surviving, &affected);
    let expect = [("alice", 1u64), ("bob", 3), ("carol", 1)];
    assert_eq!(commands.len(), 3);
    for (cmd, (nick, to)) in commands.iter().zip(expect.iter()) {
        match cmd {
            ClusterCommand::UserMigrated { nickname, from_node, to_node } => {
                assert_eq!(nickname, nick);
                assert_eq!(*from_node, NodeId::new(2));
                assert_eq!(*to_node, NodeId::new(*to));
            }
            other => panic!("unexpected command {other:?}"),
        }
    }
}

#[test]
fn survivors_sorted_without_failed_node() {
    let peers = vec![NodeId::new(5), NodeId::new(2), NodeId::new(9)];
    assert_eq!(surviving_nodes(NodeId::new(2), NodeId::new(4), &peers), vec![NodeId::new(4), NodeId::new(5), NodeId::new(9)]);
    assert_eq!(surviving_nodes(NodeId::new(4), NodeId::new(4), &peers), vec![NodeId::new(2), NodeId::new(5), NodeId::new(9)]);
}

#[test]
fn plan_on_node_down_moves_its_users() {
    let mut index = UserNodeIndex::new();
    index.set_home_node("alice", NodeId::new(2));
    index.set_home_node("bob", NodeId::new(2));
    index.set_home_node("carol", NodeId::new(3));
    let peers = vec![NodeId::new(2), NodeId::new(3)];

    let plan = migration_plan(&HealthEvent::NodeDown(NodeId::new(2)), true, &index, NodeId::new(1), &peers);
    assert_eq!(plan.len(), 2);
    let mut moved: Vec<(String, u64)> = plan
        .iter()
        .map(|c| match c {
            ClusterCommand::UserMigrated { nickname, from_node, to_node } => {
                assert_eq!(*from_node, NodeId::new(2));
                (nickname.clone(), to_node.as_u64())
            }
            other => panic!("unexpected command {other:?}"),
        })
        .collect();
    moved.sort();
    let targets: Vec<u64> = plan
        .iter()
        .map(|c| match c {
            ClusterCommand::UserMigrated { to_node, .. } => to_node.as_u64(),
            _ => 0,
        })
        .collect();
    assert_eq!(targets, vec![1, 3]);
    assert_eq!(moved[0].0, "alice");
    assert_eq!(moved[1].0, "bob");
}

#[test]
fn plan_is_empty_unless_leader_and_node_down() {
    let mut index = UserNodeIndex::new();
    index.set_home_node("alice", NodeId::new(2));
    let peers = vec![NodeId::new(2)];
    assert!(migration_plan(&HealthEvent::NodeDown(NodeId::new(2)), false, &index, NodeId::new(1), &peers).is_empty());
    assert!(migration_plan(&HealthEvent::NodeSuspected(NodeId::new(2)), true, &index, NodeId::new(1), &peers).is_empty());
    assert!(migration_plan(&HealthEvent::NodeUp(NodeId::new(2)), true, &index, NodeId::new(1), &peers).is_empty());
    // No node survives when the only node is the one that failed.
    assert!(migration_plan(&HealthEvent::NodeDown(NodeId::new(1)), true, &index, NodeId::new(1), &[]).is_empty());
}

#[test]
fn rehoming_moves_user_between_node_lists() {
    let mut index = UserNodeIndex::new();
    index.set_home_node("dave", NodeId::new(1));
    index.set_home_node("Dave", NodeId::new(2));
    assert!(index.users_on_node(NodeId::new(1)).is_empty());
    assert_eq!(index.users_on_node(NodeId::new(2)), vec!["dave"]);
    assert_eq!(index.active_nodes(), vec![NodeId::new(2)]);
}

#[test]
fn rename_onto_nick_homed_elsewhere_leaves_no_stale_entry() {
    let mut index = UserNodeIndex::new();
    index.set_home_node("alice", NodeId::new(1));
    index.set_home_node("bob", NodeId::new(2));
    index.rename_user("alice", "Bob");
    assert_eq!(index.users_on_node(NodeId::new(1)), vec!["bob".to_string()]);
    assert!(index.users_on_node(NodeId::new(2)).is_empty());
}

#[test]
fn migrations_follow_the_failed_nodes_listing_order() {
    let mut index = UserNodeIndex::new();
    index.set_home_node("carol", NodeId::new(2));
    index.set_home_node("alice", NodeId::new(2));
    index.set_home_node("bob", NodeId::new(2));
    index.remove_user("alice");
    index.set_home_node("Alice", NodeId::new(2));
    assert_eq!(index.users_on_node(NodeId::new(2)), vec!["carol".to_string(), "bob".to_string(), "alice".to_string()]);
    let peers = vec![NodeId::new(2), NodeId::new(3)];
    let plan = migration_plan(&HealthEvent::NodeDown(NodeId::new(2)), true, &index, NodeId::new(1), &peers);
    let nicks: Vec<String> = plan
        .iter()
        .map(|c| match c {
            ClusterCommand::UserMigrated { nickname, .. } => nickname.clone(),
            _ => panic!("not a migration"),
        })
        .collect();
    assert_eq!(nicks, vec!["carol".to_string(), "bob".to_string(), "alice".to_string()]);
}

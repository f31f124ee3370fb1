use pbs_datastore::acl::{
    config, role_privileges, split_acl_path, AclError, AclErrorKind, AclTree, AclTreeNode,
    ROLE_ADMIN, ROLE_AUDIT,
};

fn check_roles(tree: &AclTree, user: &str, path: &str, expected_roles: &str) {
    let path_vec = split_acl_path(path);
    let mut roles = tree
        .roles(user, &path_vec)
        .iter()
        .map(|v| v.clone())
        .collect::<Vec<String>>();
    roles.sort();
    let roles = roles.join(",");

    assert_eq!(
        roles, expected_roles,
        "\nat check_roles for '{}' on '{}'",
        user, path
    );
}

#[test]
fn test_acl_line_compression() {
    let tree = AclTree::from_raw(
        r###"
acl:0:/store/store2:user1:Admin
acl:0:/store/store2:user2:Admin
acl:0:/store/store2:user1:Datastore.Backup
acl:0:/store/store2:user2:Datastore.Backup
"###,
    )
    .unwrap();

    let mut raw: Vec<u8> = Vec::new();
    tree.write_config(&mut raw);
    let raw = std::str::from_utf8(&raw).unwrap();

    assert_eq!(
        raw,
        "acl:0:/store/store2:user1,user2:Admin,Datastore.Backup\n"
    );
}

#[test]
fn test_roles_1() {
    let tree = AclTree::from_raw(
        r###"
acl:1:/storage:user1@pbs:Admin
acl:1:/storage/store1:user1@pbs:Datastore.Backup
acl:1:/storage/store2:user2@pbs:Datastore.Backup
"###,
    )
    .unwrap();
    check_roles(&tree, "user1@pbs", "/", "");
    check_roles(&tree, "user1@pbs", "/storage", "Admin");
    check_roles(&tree, "user1@pbs", "/storage/store1", "Datastore.Backup");
    check_roles(&tree, "user1@pbs", "/storage/store2", "Admin");

    check_roles(&tree, "user2@pbs", "/", "");
    check_roles(&tree, "user2@pbs", "/storage", "");
    check_roles(&tree, "user2@pbs", "/storage/store1", "");
    check_roles(&tree, "user2@pbs", "/storage/store2", "Datastore.Backup");
}

#[test]
fn test_role_no_access() {
    let tree = AclTree::from_raw(
        r###"
acl:1:/:user1@pbs:Admin
acl:1:/storage:user1@pbs:NoAccess
acl:1:/storage/store1:user1@pbs:Datastore.Backup
"###,
    )
    .unwrap();
    check_roles(&tree, "user1@pbs", "/", "Admin");
    check_roles(&tree, "user1@pbs", "/storage", "NoAccess");
    check_roles(&tree, "user1@pbs", "/storage/store1", "Datastore.Backup");
    check_roles(&tree, "user1@pbs", "/storage/store2", "NoAccess");
    check_roles(&tree, "user1@pbs", "/system", "Admin");

    let tree = AclTree::from_raw(
        r###"
acl:1:/:user1@pbs:Admin
acl:0:/storage:user1@pbs:NoAccess
acl:1:/storage/store1:user1@pbs:Datastore.Backup
"###,
    )
    .unwrap();
    check_roles(&tree, "user1@pbs", "/", "Admin");
    check_roles(&tree, "user1@pbs", "/storage", "NoAccess");
    check_roles(&tree, "user1@pbs", "/storage/store1", "Datastore.Backup");
    check_roles(&tree, "user1@pbs", "/storage/store2", "Admin");
    check_roles(&tree, "user1@pbs", "/system", "Admin");
}

#[test]
fn test_role_add_delete() {
    let mut tree = AclTree::new();

    tree.insert_user_role("/", "user1@pbs", "Admin", true);
    tree.insert_user_role("/", "user1@pbs", "Audit", true);

    check_roles(&tree, "user1@pbs", "/", "Admin,Audit");

    tree.insert_user_role("/", "user1@pbs", "NoAccess", true);
    check_roles(&tree, "user1@pbs", "/", "NoAccess");

    let mut raw: Vec<u8> = Vec::new();
    tree.write_config(&mut raw);
    let raw = std::str::from_utf8(&raw).unwrap();

    assert_eq!(raw, "acl:1:/:user1@pbs:NoAccess\n");
}

#[test]
fn test_no_access_overwrite() {
    let mut tree = AclTree::new();

    tree.insert_user_role("/storage", "user1@pbs", "NoAccess", true);

    check_roles(&tree, "user1@pbs", "/storage", "NoAccess");

    tree.insert_user_role("/storage", "user1@pbs", "Admin", true);
    tree.insert_user_role("/storage", "user1@pbs", "Audit", true);

    check_roles(&tree, "user1@pbs", "/storage", "Admin,Audit");

    tree.insert_user_role("/storage", "user1@pbs", "NoAccess", true);

    check_roles(&tree, "user1@pbs", "/storage", "NoAccess");
}

#[test]
fn acl_paths_are_split_at_slashes() {
    assert_eq!(split_acl_path("/store/store2"), vec!["store", "store2"]);
    assert_eq!(split_acl_path("//a///b/"), vec!["a", "b"]);
    assert!(split_acl_path("/").is_empty());
    assert!(split_acl_path("").is_empty());
}

#[test]
fn acl_lines_that_cannot_be_read_are_reported() {
    let kind_of = |raw: &str| AclTree::from_raw(raw).err();
    assert_eq!(
        kind_of("acl:1:/:user1@pbs"),
        Some(AclError { line: 1, kind: AclErrorKind::WrongNumberOfItems })
    );
    assert_eq!(
        kind_of("\n\nrole:1:/:user1@pbs:Admin\n"),
        Some(AclError { line: 3, kind: AclErrorKind::MissingPrefix })
    );
    assert_eq!(
        kind_of("acl:1:/:user1@pbs:Admin\nacl:2:/:user1@pbs:Admin"),
        Some(AclError { line: 2, kind: AclErrorKind::BadPropagateFlag })
    );
    assert_eq!(
        kind_of("acl:1:/:user1@pbs:Admin, Wizard"),
        Some(AclError { line: 1, kind: AclErrorKind::UnknownRole })
    );
    assert!(AclTree::from_raw("").is_ok());
    assert!(AclTree::from_raw("  \r\n\t\n").is_ok());
}

#[test]
fn acl_config_is_written_in_order() {
    let mut tree = AclTree::new();
    tree.insert_user_role("/zeta", "u2@pbs", "Audit", false);
    tree.insert_user_role("/alpha/beta", "u1@pbs", "Admin", true);
    tree.insert_group_role("/alpha", "ops", "Datastore.Audit", true);
    tree.insert_user_role("/alpha", "u1@pbs", "Datastore.Audit", true);
    tree.insert_user_role("/", "root@pam", "Admin", true);
    tree.insert_user_role("/alpha", "u9@pbs", "Datastore.Reader", false);
    tree.insert_user_role("/alpha", "u9@pbs", "Datastore.Reader", false);

    let mut raw: Vec<u8> = b"# acl\n".to_vec();
    tree.write_config(&mut raw);
    assert_eq!(
        String::from_utf8(raw).unwrap(),
        "# acl\n\
         acl:0:/alpha:u9@pbs:Datastore.Reader\n\
         acl:1:/alpha:@ops,u1@pbs:Datastore.Audit\n\
         acl:1:/alpha/beta:u1@pbs:Admin\n\
         acl:0:/zeta:u2@pbs:Audit\n"
    );
    let text: String = tree.config_chars().into_iter().collect();
    let again = AclTree::from_raw(&text).unwrap();
    assert_eq!(again.config_chars(), tree.config_chars());
}

#[test]
fn acl_roles_can_be_deleted() {
    let mut tree = AclTree::new();
    tree.insert_user_role("/store", "user1@pbs", "Admin", true);
    tree.insert_user_role("/store", "user1@pbs", "Audit", false);
    tree.insert_group_role("/store", "ops", "Admin", true);
    tree.delete_user_role("/store", "user1@pbs", "Admin");
    tree.delete_user_role("/nowhere", "user1@pbs", "Admin");
    tree.delete_user_role("/store", "nobody@pbs", "Admin");
    tree.delete_group_role("/store", "ops", "Admin");
    check_roles(&tree, "user1@pbs", "/store", "Audit");
    // a role that stays on its path does not count below
    check_roles(&tree, "user1@pbs", "/store/sub", "");
    let mut raw: Vec<u8> = Vec::new();
    tree.write_config(&mut raw);
    assert_eq!(raw, b"acl:0:/store:user1@pbs:Audit\n");
}

#[test]
fn acl_node_roles_follow_the_flags() {
    let mut node = AclTreeNode::new();
    node.insert_user_role("u@pbs".into(), "Admin".into(), false);
    node.insert_user_role("u@pbs".into(), "Audit".into(), true);
    node.insert_group_role("ops".into(), "Admin".into(), true);
    let sorted = |mut v: Vec<String>| {
        v.sort();
        v
    };
    assert_eq!(sorted(node.extract_roles("u@pbs", true)), vec!["Admin", "Audit"]);
    assert_eq!(sorted(node.extract_user_roles("u@pbs", false)), vec!["Audit"]);
    assert!(node.extract_group_roles("u@pbs", true).is_empty());
    assert!(node.extract_roles("other@pbs", true).is_empty());
    node.insert_user_role("u@pbs".into(), "NoAccess".into(), false);
    assert_eq!(node.extract_roles("u@pbs", true), vec!["NoAccess"]);
    assert!(node.extract_roles("u@pbs", false).is_empty());
    node.delete_user_role("u@pbs", "NoAccess");
    assert!(node.extract_roles("u@pbs", true).is_empty());
    node.delete_group_role("ops", "Admin");
    assert!(node.groups[0].1.is_empty());
}

#[test]
fn acl_load_takes_the_digest_of_the_text() {
    let raw = "acl:1:/:user1@pbs:Admin\n";
    let (tree, digest) = AclTree::load(raw).ok().unwrap();
    assert_eq!(digest, openssl::sha::sha256(raw.as_bytes()));
    assert_ne!(digest, openssl::sha::sha256(b""));
    check_roles(&tree, "user1@pbs", "/any/where", "Admin");
    let (_, empty_digest) = config("").ok().unwrap();
    assert_eq!(
        pbs_datastore::digest::digest_to_hex(&empty_digest),
        "e3b0c44298fc1c149afbf4c8996fb92427ae41e4649b934ca495991b7852b855"
    );
    assert_eq!(role_privileges("Admin"), Some(ROLE_ADMIN));
    assert_eq!(role_privileges("Audit"), Some(ROLE_AUDIT));
    assert_eq!(role_privileges("NoAccess"), Some(0));
    assert_eq!(role_privileges("Datastore.PowerUser"), Some((1 << 6) | (1 << 7)));
    assert_eq!(role_privileges("admin"), None);
}

#[test]
fn nodes_are_found_by_their_path() {
    let mut tree = AclTree::new();
    tree.insert_user_role("/datastore/store1", "alice@pbs", "Admin", true);
    tree.insert_user_role("/datastore", "bob@pbs", "Audit", false);

    let root = tree.get_node(&Vec::new()).unwrap();
    assert!(root.users.is_empty());
    assert_eq!(root.children.len(), 1);

    let node = tree.get_node(&split_acl_path("/datastore")).unwrap();
    assert_eq!(node.extract_roles("bob@pbs", true), vec!["Audit"]);
    assert!(node.extract_roles("alice@pbs", true).is_empty());

    let node = tree.get_node(&split_acl_path("/datastore/store1")).unwrap();
    assert_eq!(node.extract_roles("alice@pbs", true), vec!["Admin"]);
    assert!(node.children.is_empty());

    assert!(tree.get_node(&split_acl_path("/datastore/store2")).is_none());
    assert!(tree.get_node(&split_acl_path("/datastore/store1/deeper")).is_none());
    assert!(tree.get_node(&split_acl_path("/remote")).is_none());
}

fn written(tree: &AclTree) -> String {
    let mut out: Vec<u8> = Vec::new();
    tree.write_config(&mut out);
    String::from_utf8(out).unwrap()
}

#[test]
fn text_goes_by_the_roles_alone() {
    let mut one = AclTree::new();
    one.insert_user_role("/store/store2", "user1", "Admin", false);
    one.insert_user_role("/store/store2", "user2", "Admin", false);
    one.insert_user_role("/store/store2", "user1", "Datastore.Backup", false);
    one.insert_user_role("/store/store2", "user2", "Datastore.Backup", false);
    one.insert_group_role("/store", "staff", "Audit", true);
    one.insert_user_role("/", "user3", "NoAccess", true);

    // the same roles, given in another order and by a detour
    let mut other = AclTree::new();
    other.insert_user_role("/", "user3", "Admin", true);
    other.insert_group_role("/store", "staff", "Audit", true);
    other.insert_user_role("/store/store2", "user2", "Datastore.Backup", false);
    other.insert_user_role("/store/store2", "user2", "Audit", false);
    other.insert_user_role("/store/store2", "user1", "Datastore.Backup", false);
    other.insert_user_role("/store/store2", "user2", "Admin", false);
    other.delete_user_role("/store/store2", "user2", "Audit");
    other.insert_user_role("/store/store2", "user1", "Admin", false);
    other.insert_user_role("/", "user3", "NoAccess", true);

    let text = written(&one);
    assert_eq!(
        text,
        "acl:1:/:user3:NoAccess\nacl:1:/store:@staff:Audit\nacl:0:/store/store2:user1,user2:Admin,Datastore.Backup\n"
    );
    assert_eq!(written(&other), text);
}

#[test]
fn written_text_reads_back_to_the_same_roles() {
    let mut tree = AclTree::new();
    tree.insert_user_role("/", "user1@pbs", "Admin", true);
    tree.insert_user_role("/", "user1@pbs", "Audit", true);
    tree.insert_user_role("/", "user1@pbs", "NoAccess", true);
    tree.insert_user_role("/datastore/a", "user2@pbs", "Datastore.Backup", false);
    tree.insert_group_role("/datastore", "ops", "Datastore.Reader", true);
    let text = written(&tree);
    assert_eq!(
        text,
        "acl:1:/:user1@pbs:NoAccess\nacl:1:/datastore:@ops:Datastore.Reader\nacl:0:/datastore/a:user2@pbs:Datastore.Backup\n"
    );
    let again = AclTree::from_raw(&text).ok().unwrap();
    assert_eq!(written(&again), text);
    for (user, path) in [("user1@pbs", "/"), ("user1@pbs", "/datastore/a"), ("user2@pbs", "/datastore/a"), ("user2@pbs", "/datastore")] {
        let components = split_acl_path(path);
        let mut before = tree.roles(user, &components);
        let mut after = again.roles(user, &components);
        before.sort();
        after.sort();
        assert_eq!(before, after);
    }
}

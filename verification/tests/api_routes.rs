use pbs_datastore::access::{
    authenticate_user, default_permission_paths, distinct_paths, list_permissions,
    password_kind, permission_entry, permission_paths, permissions_subject, privilege_by_name,
    privilege_map, terminal_ticket_params, LoginChecks, LoginError, PasswordKind,
};
use pbs_datastore::acl::{AclTree, PRIV_DATASTORE_BACKUP, PRIV_DATASTORE_READ, PRIV_SYS_AUDIT};
use pbs_datastore::api::{
    log_error, route_request, router, ApiConfig, ApiMethod, HttpMethod, RequestRoute, Router,
};
use pbs_datastore::auth::Authid;
use pbs_datastore::error::Error;

fn method(name: &str) -> ApiMethod {
    ApiMethod { handler: name.to_string(), protected: false }
}

fn components(path: &[&str]) -> Vec<String> {
    path.iter().map(|s| s.to_string()).collect()
}

fn api_root() -> Router {
    let access = Router::new()
        .subdir("ticket", Router::new().post(method("create_ticket")))
        .subdir("password", Router::new().put(method("change_password")))
        .list_subdirs();
    let node = Router::new().subdir(
        "dns",
        Router::new().get(method("get_dns")).put(method("update_dns")),
    );
    router(
        access,
        Router::new(),
        Router::new(),
        node,
        Router::new(),
        Router::new().get(method("get_version")),
    )
}

#[test]
fn root_router_lists_its_directories() {
    let root = api_root();
    assert!(root.lists_subdirs);
    assert_eq!(
        root.subdir_names(),
        vec!["access", "admin", "config", "nodes", "subscription", "version"]
    );
}

#[test]
fn routes_are_found_by_path() {
    let root = api_root();
    let mut params = Vec::new();
    let found = root
        .find_route(&components(&["access", "ticket"]), &mut params)
        .unwrap();
    assert_eq!(found.post.as_ref().unwrap().handler, "create_ticket");
    assert!(params.is_empty());

    let dns = root
        .find_route(&components(&["nodes", "localhost", "dns"]), &mut params)
        .unwrap();
    assert_eq!(dns.get.as_ref().unwrap().handler, "get_dns");
    assert_eq!(params, vec![("node".to_string(), "localhost".to_string())]);

    assert!(root.find_route(&components(&["nowhere"]), &mut params).is_none());
    assert!(root
        .find_route(&components(&["access", "ticket", "deeper"]), &mut params)
        .is_none());
    assert_eq!(params.len(), 1);
    assert!(root.find_route(&components(&[]), &mut params).unwrap().lists_subdirs);
}

#[test]
fn config_finds_methods_and_aliases() {
    let mut config = ApiConfig::new("/usr/share/www", api_root());
    let mut params = Vec::new();
    let m = config
        .find_method(&components(&["version"]), HttpMethod::Get, &mut params)
        .unwrap();
    assert_eq!(m.handler, "get_version");
    assert!(config
        .find_method(&components(&["version"]), HttpMethod::Put, &mut params)
        .is_none());
    assert!(config
        .find_method(&components(&["version"]), HttpMethod::Other, &mut params)
        .is_none());
    assert!(config
        .find_method(&components(&["missing"]), HttpMethod::Get, &mut params)
        .is_none());

    assert_eq!(config.find_alias(&components(&[])), "/usr/share/www");
    assert_eq!(
        config.find_alias(&components(&["css", "main.css"])),
        "/usr/share/www/css/main.css"
    );
    config.add_alias("extjs", "/usr/share/javascript/extjs");
    config.add_alias("images", "img");
    assert_eq!(
        config.find_alias(&components(&["extjs", "ext-all.js"])),
        "/usr/share/javascript/extjs/ext-all.js"
    );
    assert_eq!(
        config.find_alias(&components(&["images", "logo.png"])),
        "/usr/share/www/img/logo.png"
    );
    assert_eq!(config.find_alias(&components(&["images"])), "/usr/share/www/img");
    config.add_alias("images", "pictures/");
    assert_eq!(
        config.find_alias(&components(&["images", "logo.png"])),
        "/usr/share/www/pictures/logo.png"
    );
}

#[test]
fn requests_are_routed() {
    let root = api_root();
    let call = |m: HttpMethod, path: &str| match route_request(&root, m, path) {
        RequestRoute::Call(method) => format!("call {}", method.handler),
        RequestRoute::UnsupportedFormat => "format".to_string(),
        RequestRoute::NoSuchMethod => "method".to_string(),
        RequestRoute::NoSuchPath => "path".to_string(),
        RequestRoute::WebGui => "gui".to_string(),
    };
    assert_eq!(call(HttpMethod::Get, "/api3/json/version"), "call get_version");
    assert_eq!(call(HttpMethod::Get, "//api3//json//version/"), "call get_version");
    assert_eq!(call(HttpMethod::Post, "/api3/json/version"), "method");
    assert_eq!(call(HttpMethod::Get, "/api3/json/nothing"), "path");
    assert_eq!(call(HttpMethod::Get, "/api3/extjs/version"), "format");
    assert_eq!(call(HttpMethod::Get, "/api3"), "gui");
    assert_eq!(call(HttpMethod::Get, "/"), "gui");
    assert_eq!(call(HttpMethod::Get, "/index.html"), "gui");
    assert_eq!(call(HttpMethod::Get, "/api3/json"), "method");
}

#[test]
fn errors_are_logged_with_their_message() {
    assert_eq!(
        log_error("could not send mail", "connection refused"),
        "could not send mail: connection refused"
    );
}

#[test]
fn privileges_are_listed_by_name() {
    assert_eq!(privilege_by_name("Sys.Audit"), Some(PRIV_SYS_AUDIT));
    assert_eq!(privilege_by_name("Datastore.Backup"), Some(PRIV_DATASTORE_BACKUP));
    assert_eq!(privilege_by_name("Remote.Prune"), Some(1 << 12));
    assert_eq!(privilege_by_name("Nothing"), None);
    let map = privilege_map(
        PRIV_DATASTORE_READ | PRIV_DATASTORE_BACKUP | PRIV_SYS_AUDIT,
        PRIV_DATASTORE_BACKUP,
    );
    assert_eq!(
        map,
        vec![
            ("Sys.Audit".to_string(), false),
            ("Datastore.Read".to_string(), false),
            ("Datastore.Backup".to_string(), true),
        ]
    );
    assert!(privilege_map(0, u64::MAX).is_empty());
    assert_eq!(privilege_map(u64::MAX, 0).len(), 13);
}

#[test]
fn callers_see_their_own_permissions() {
    let user = Authid::parse("alice@pbs").unwrap();
    let token = Authid::parse("alice@pbs!backup").unwrap();
    let other = Authid::parse("bob@pbs").unwrap();
    let subject = |current: &Authid, asked: Option<&Authid>, privs: u64| {
        permissions_subject(current, asked, privs).map(|a| a.to_string())
    };
    assert_eq!(subject(&user, None, 0), Ok("alice@pbs".to_string()));
    assert_eq!(subject(&user, Some(&user), 0), Ok("alice@pbs".to_string()));
    assert_eq!(subject(&user, Some(&token), 0), Ok("alice@pbs!backup".to_string()));
    assert_eq!(subject(&token, Some(&user), 0), Err(Error::OwnerCheckFailed));
    assert_eq!(subject(&user, Some(&other), 0), Err(Error::OwnerCheckFailed));
    assert_eq!(
        subject(&user, Some(&other), PRIV_SYS_AUDIT),
        Ok("bob@pbs".to_string())
    );
}

#[test]
fn permission_paths_include_the_defaults() {
    let mut tree = AclTree::new();
    tree.insert_user_role("/datastore/store1", "alice@pbs", "Admin", true);
    tree.insert_user_role("/access", "alice@pbs", "Audit", true);
    tree.insert_user_role("/datastore/archive", "bob@pbs", "Audit", true);
    assert_eq!(
        default_permission_paths(&tree),
        vec![
            "/access",
            "/datastore/archive",
            "/datastore/store1",
            "/datastore",
            "/",
            "/access",
            "/datastore",
            "/remote",
            "/system",
        ]
    );
}

#[test]
fn permissions_are_listed_path_by_path() {
    let mut tree = AclTree::new();
    tree.insert_user_role("/datastore/store1", "alice@pbs", "Admin", true);
    tree.insert_user_role("/access", "alice@pbs", "Audit", true);
    let user = Authid::parse("alice@pbs").unwrap();
    let other = Authid::parse("bob@pbs").unwrap();
    assert_eq!(
        permission_paths(None, &tree),
        vec!["/access", "/datastore/store1", "/datastore", "/", "/remote", "/system"]
    );
    assert_eq!(permission_paths(Some("/x/y".to_string()), &tree), vec!["/x/y"]);
    assert_eq!(
        distinct_paths(&vec!["/b".to_string(), "/a".to_string(), "/b".to_string()]),
        vec!["/b", "/a"]
    );
    assert_eq!(permission_entry("/a".to_string(), 0, PRIV_SYS_AUDIT), None);
    assert_eq!(
        permission_entry("/a".to_string(), PRIV_SYS_AUDIT, PRIV_SYS_AUDIT),
        Some(("/a".to_string(), vec![("Sys.Audit".to_string(), true)]))
    );

    // privileges on the datastores only, and only those to read go on
    let lookup = |auth_id: &Authid, path: &Vec<String>| -> (u64, u64) {
        if auth_id.to_string() == "alice@pbs" && !path.is_empty() && path[0] == "datastore" {
            (PRIV_DATASTORE_READ | PRIV_DATASTORE_BACKUP, PRIV_DATASTORE_READ)
        } else {
            (0, 0)
        }
    };
    let privileges = vec![
        ("Datastore.Read".to_string(), true),
        ("Datastore.Backup".to_string(), false),
    ];
    assert_eq!(
        list_permissions(&user, 0, None, None, &tree, lookup),
        Ok(vec![
            ("/datastore/store1".to_string(), privileges.clone()),
            ("/datastore".to_string(), privileges.clone()),
        ])
    );
    assert_eq!(
        list_permissions(&user, 0, Some(&user), Some("/datastore/x".to_string()), &tree, lookup),
        Ok(vec![("/datastore/x".to_string(), privileges.clone())])
    );
    assert_eq!(
        list_permissions(&user, 0, None, Some("/remote".to_string()), &tree, lookup),
        Ok(Vec::new())
    );
    assert_eq!(
        list_permissions(&other, PRIV_SYS_AUDIT, Some(&user), Some("/datastore".to_string()), &tree, lookup),
        Ok(vec![("/datastore".to_string(), privileges.clone())])
    );
    assert_eq!(list_permissions(&other, PRIV_SYS_AUDIT, None, None, &tree, lookup), Ok(Vec::new()));
    assert_eq!(
        list_permissions(&other, 0, Some(&user), None, &tree, lookup),
        Err(Error::OwnerCheckFailed)
    );
}

#[test]
fn passwords_are_told_from_tickets() {
    assert_eq!(password_kind("PBS:alice@pbs:5F1A::sig"), PasswordKind::Ticket);
    assert_eq!(password_kind("PBSTERM:alice@pbs:5F1A::sig"), PasswordKind::TerminalTicket);
    assert_eq!(password_kind("PBS"), PasswordKind::Plain);
    assert_eq!(password_kind("pbs:secret"), PasswordKind::Plain);
    assert_eq!(password_kind(""), PasswordKind::Plain);
    assert_eq!(
        terminal_ticket_params(Some("/nodes/x".into()), Some("Sys.Console".into()), Some(8007)),
        Ok(("/nodes/x".to_string(), "Sys.Console".to_string(), 8007))
    );
    assert_eq!(
        terminal_ticket_params(Some("/nodes/x".into()), None, Some(8007)),
        Err(Error::InvalidInput)
    );
}

fn checks() -> LoginChecks {
    LoginChecks {
        active: true,
        ticket_user: None,
        terminal_ticket: false,
        privileged: false,
        password_accepted: false,
    }
}

#[test]
fn logins_with_a_password_go_to_the_realm() {
    let login = |password: &str, checks: &LoginChecks| {
        authenticate_user("alice@pbs", password, None, None, None, checks)
    };
    assert_eq!(login("secret", &checks()), Err(LoginError::WrongPassword));
    let accepted = LoginChecks { password_accepted: true, ..checks() };
    assert_eq!(login("secret", &accepted), Ok(true));
    // a disabled account is refused whatever else holds
    let disabled = LoginChecks {
        active: false,
        ticket_user: Some("alice@pbs".to_string()),
        terminal_ticket: true,
        privileged: true,
        password_accepted: true,
    };
    assert_eq!(login("secret", &disabled), Err(LoginError::AccountDisabled));
    assert_eq!(login("PBS:ticket", &disabled), Err(LoginError::AccountDisabled));
    // what looks like a ticket and is none is a password
    assert_eq!(login("PBS:ticket", &accepted), Ok(true));
    assert_eq!(login("PBS:ticket", &checks()), Err(LoginError::WrongPassword));
}

#[test]
fn logins_with_a_ticket_need_the_ticket_of_the_user() {
    let own = LoginChecks { ticket_user: Some("alice@pbs".to_string()), ..checks() };
    assert_eq!(authenticate_user("alice@pbs", "PBS:ticket", None, None, None, &own), Ok(true));
    assert_eq!(
        authenticate_user("bob@pbs", "PBS:ticket", None, None, None, &own),
        Err(LoginError::WrongTicketUser)
    );
    // the ticket counts only where the password is one
    assert_eq!(
        authenticate_user("alice@pbs", "secret", None, None, None, &own),
        Err(LoginError::WrongPassword)
    );
}

#[test]
fn logins_with_a_terminal_ticket_need_the_privilege() {
    let login = |privs: Option<&str>, port: Option<u16>, checks: &LoginChecks| {
        authenticate_user(
            "alice@pbs",
            "PBSTERM:ticket",
            Some("/system".to_string()),
            privs.map(|p| p.to_string()),
            port,
            checks,
        )
    };
    let valid = LoginChecks { terminal_ticket: true, privileged: true, ..checks() };
    assert_eq!(login(Some("Sys.Console"), Some(8007), &valid), Err(LoginError::NoSuchPrivilege));
    assert_eq!(login(Some("Sys.PowerManagement"), Some(8007), &valid), Ok(false));
    let unprivileged = LoginChecks { terminal_ticket: true, ..checks() };
    assert_eq!(
        login(Some("Sys.PowerManagement"), Some(8007), &unprivileged),
        Err(LoginError::PermissionDenied)
    );
    assert_eq!(login(None, Some(8007), &valid), Err(LoginError::MissingTerminalParameters));
    assert_eq!(
        login(Some("Sys.PowerManagement"), None, &valid),
        Err(LoginError::MissingTerminalParameters)
    );
    assert_eq!(
        authenticate_user("alice@pbs", "PBSTERM:t", None, Some("Sys.Audit".into()), Some(1), &valid),
        Err(LoginError::MissingTerminalParameters)
    );
    // a terminal ticket that is none is a password
    let accepted = LoginChecks { password_accepted: true, privileged: true, ..checks() };
    assert_eq!(login(Some("Sys.PowerManagement"), Some(8007), &accepted), Ok(true));
    assert_eq!(
        login(Some("Sys.PowerManagement"), Some(8007), &checks()),
        Err(LoginError::WrongPassword)
    );
}

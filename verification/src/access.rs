//! Who may see whose permissions, on which paths, and how privileges are
//! listed.

use vstd::prelude::*;
use vstd::string::StringExecFns;
use crate::acl::{
    child_order, AclTree, AclTreeNode, PRIV_DATASTORE_AUDIT, PRIV_DATASTORE_BACKUP,
    PRIV_DATASTORE_MODIFY, PRIV_DATASTORE_PRUNE, PRIV_DATASTORE_READ, PRIV_PERMISSIONS_MODIFY,
    PRIV_REMOTE_AUDIT, PRIV_REMOTE_MODIFY, PRIV_REMOTE_PRUNE, PRIV_REMOTE_READ, PRIV_SYS_AUDIT,
    PRIV_SYS_MODIFY, PRIV_SYS_POWER_MANAGEMENT,
};
use crate::auth::{Authid, AuthidView};
use crate::error::Error;
use crate::text::{starts_with, to_chars};

verus! {

/// The number of privileges.
pub const PRIVILEGE_COUNT: usize = 13;

/// The name of the privilege of a number.
pub open spec fn privilege_name_spec(i: int) -> Seq<char> {
    if i == 0 {
        "Sys.Audit"@
    } else if i == 1 {
        "Sys.Modify"@
    } else if i == 2 {
        "Sys.PowerManagement"@
    } else if i == 3 {
        "Datastore.Audit"@
    } else if i == 4 {
        "Datastore.Modify"@
    } else if i == 5 {
        "Datastore.Read"@
    } else if i == 6 {
        "Datastore.Backup"@
    } else if i == 7 {
        "Datastore.Prune"@
    } else if i == 8 {
        "Permissions.Modify"@
    } else if i == 9 {
        "Remote.Audit"@
    } else if i == 10 {
        "Remote.Modify"@
    } else if i == 11 {
        "Remote.Read"@
    } else {
        "Remote.Prune"@
    }
}

/// The bit of the privilege of a number.
pub open spec fn privilege_bit_spec(i: int) -> u64 {
    if i == 0 {
        PRIV_SYS_AUDIT
    } else if i == 1 {
        PRIV_SYS_MODIFY
    } else if i == 2 {
        PRIV_SYS_POWER_MANAGEMENT
    } else if i == 3 {
        PRIV_DATASTORE_AUDIT
    } else if i == 4 {
        PRIV_DATASTORE_MODIFY
    } else if i == 5 {
        PRIV_DATASTORE_READ
    } else if i == 6 {
        PRIV_DATASTORE_BACKUP
    } else if i == 7 {
        PRIV_DATASTORE_PRUNE
    } else if i == 8 {
        PRIV_PERMISSIONS_MODIFY
    } else if i == 9 {
        PRIV_REMOTE_AUDIT
    } else if i == 10 {
        PRIV_REMOTE_MODIFY
    } else if i == 11 {
        PRIV_REMOTE_READ
    } else {
        PRIV_REMOTE_PRUNE
    }
}

/// The privilege of a number: its name and its bit.
pub fn privilege(i: usize) -> (r: (&'static str, u64))
    requires
        i < PRIVILEGE_COUNT,
    ensures
        r.0@ == privilege_name_spec(i as int),
        r.1 == privilege_bit_spec(i as int),
{
    if i == 0 {
        ("Sys.Audit", PRIV_SYS_AUDIT)
    } else if i == 1 {
        ("Sys.Modify", PRIV_SYS_MODIFY)
    } else if i == 2 {
        ("Sys.PowerManagement", PRIV_SYS_POWER_MANAGEMENT)
    } else if i == 3 {
        ("Datastore.Audit", PRIV_DATASTORE_AUDIT)
    } else if i == 4 {
        ("Datastore.Modify", PRIV_DATASTORE_MODIFY)
    } else if i == 5 {
        ("Datastore.Read", PRIV_DATASTORE_READ)
    } else if i == 6 {
        ("Datastore.Backup", PRIV_DATASTORE_BACKUP)
    } else if i == 7 {
        ("Datastore.Prune", PRIV_DATASTORE_PRUNE)
    } else if i == 8 {
        ("Permissions.Modify", PRIV_PERMISSIONS_MODIFY)
    } else if i == 9 {
        ("Remote.Audit", PRIV_REMOTE_AUDIT)
    } else if i == 10 {
        ("Remote.Modify", PRIV_REMOTE_MODIFY)
    } else if i == 11 {
        ("Remote.Read", PRIV_REMOTE_READ)
    } else {
        ("Remote.Prune", PRIV_REMOTE_PRUNE)
    }
}

/// The bit of the first privilege of this name among the first `k`.
pub open spec fn privilege_by_name_spec(name: Seq<char>, k: int) -> Option<u64>
    decreases k,
{
    if k <= 0 {
        None
    } else {
        match privilege_by_name_spec(name, k - 1) {
            Some(bit) => Some(bit),
            None => if privilege_name_spec(k - 1) == name {
                Some(privilege_bit_spec(k - 1))
            } else {
                None
            },
        }
    }
}

/// The bit of the privilege of this name, if there is such a privilege.
pub fn privilege_by_name(name: &str) -> (r: Option<u64>)
    ensures
        r == privilege_by_name_spec(name@, PRIVILEGE_COUNT as int),
{
    let wanted = String::from_str(name);
    let mut i: usize = 0;
    while i < PRIVILEGE_COUNT
        invariant
            i <= PRIVILEGE_COUNT,
            wanted@ == name@,
            privilege_by_name_spec(name@, i as int) is None,
        decreases PRIVILEGE_COUNT - i,
    {
        let (n, bit) = privilege(i);
        if String::from_str(n) == wanted {
            proof {
                lemma_privilege_found(name@, i + 1, PRIVILEGE_COUNT as int);
            }
            return Some(bit);
        }
        i += 1;
    }
    None
}

/// Once a privilege of a name is found, the privileges behind it do not
/// matter.
pub proof fn lemma_privilege_found(name: Seq<char>, k: int, j: int)
    requires
        0 <= k <= j,
        privilege_by_name_spec(name, k) is Some,
    ensures
        privilege_by_name_spec(name, j) == privilege_by_name_spec(name, k),
    decreases j - k,
{
    if k < j {
        lemma_privilege_found(name, k, j - 1);
    }
}

/// The privileges among the first `k` that a set of privileges holds, each
/// with the flag whether it goes on to the paths below.
pub open spec fn privilege_map_spec(privs: u64, propagated: u64, k: int) -> Seq<(Seq<char>, bool)>
    decreases k,
{
    if k <= 0 {
        Seq::empty()
    } else {
        let init = privilege_map_spec(privs, propagated, k - 1);
        if privilege_bit_spec(k - 1) & privs != 0 {
            init.push((privilege_name_spec(k - 1), privilege_bit_spec(k - 1) & propagated != 0))
        } else {
            init
        }
    }
}

/// The views of a list of privileges.
pub open spec fn privilege_views(list: Seq<(String, bool)>) -> Seq<(Seq<char>, bool)> {
    Seq::new(list.len(), |i: int| (list[i].0@, list[i].1))
}

/// Lists the privileges that a set of privileges holds, each with the flag
/// whether it goes on to the paths below.
pub fn privilege_map(privs: u64, propagated: u64) -> (map: Vec<(String, bool)>)
    ensures
        privilege_views(map@) == privilege_map_spec(privs, propagated, PRIVILEGE_COUNT as int),
{
    let mut map: Vec<(String, bool)> = Vec::new();
    let mut i: usize = 0;
    assert(privilege_views(map@) =~= Seq::<(Seq<char>, bool)>::empty());
    while i < PRIVILEGE_COUNT
        invariant
            i <= PRIVILEGE_COUNT,
            privilege_views(map@) == privilege_map_spec(privs, propagated, i as int),
        decreases PRIVILEGE_COUNT - i,
    {
        let (name, value) = privilege(i);
        if value & privs != 0 {
            let ghost before = privilege_views(map@);
            let flag: bool = value & propagated != 0;
            map.push((String::from_str(name), flag));
            proof {
                assert(privilege_views(map@) =~= before.push((name@, flag)));
            }
        }
        i += 1;
    }
    map
}

/// Whose permissions a caller gets to see. A caller who may audit the
/// system sees those of whom they ask for. Any other caller sees their
/// own, and a user sees those of the user's tokens.
pub open spec fn permissions_subject_spec(
    current: AuthidView,
    requested: Option<AuthidView>,
    user_privs: u64,
) -> Result<AuthidView, Error> {
    match requested {
        None => Ok(current),
        Some(asked) => if user_privs & PRIV_SYS_AUDIT != 0 {
            Ok(asked)
        } else if asked == current {
            Ok(asked)
        } else if asked.tokenname is Some && current.tokenname is None && asked.user
            == current.user {
            Ok(asked)
        } else {
            Err(Error::OwnerCheckFailed)
        },
    }
}

/// Decides whose permissions a caller gets to see. Fails with
/// `OwnerCheckFailed` where the caller asks for those of someone else
/// without the privilege to audit the system.
pub fn permissions_subject(current: &Authid, requested: Option<&Authid>, user_privs: u64) -> (r:
    Result<Authid, Error>)
    ensures
        match permissions_subject_spec(
            current@,
            match requested {
                Some(a) => Some(a@),
                None => None,
            },
            user_privs,
        ) {
            Ok(a) => r is Ok && r->Ok_0@ == a,
            Err(e) => r matches Err(x) && x == e,
        },
{
    let asked = match requested {
        None => {
            return Ok(current.duplicate());
        },
        Some(a) => a,
    };
    if user_privs & PRIV_SYS_AUDIT != 0 {
        return Ok(asked.duplicate());
    }
    if asked.same(current) {
        return Ok(asked.duplicate());
    }
    if asked.is_token() && !current.is_token() && *asked.user() == *current.user() {
        return Ok(asked.duplicate());
    }
    Err(Error::OwnerCheckFailed)
}

/// The paths below a node, each after those below it, in the order of the
/// names: what the paths of the tree are called.
pub open spec fn acl_paths(node: AclTreeNode, path: Seq<char>) -> Seq<Seq<char>>
    decreases node, 1int, 0int,
{
    child_paths(node, child_order(node.children@, node.children@.len() as int), path)
}

/// The paths below the children of a node, in the given order.
pub open spec fn child_paths(node: AclTreeNode, order: Seq<usize>, path: Seq<char>) -> Seq<Seq<char>>
    decreases node, 0int, order.len(),
{
    if order.len() == 0 {
        Seq::empty()
    } else {
        let i = order.last() as int;
        child_paths(node, order.drop_last(), path) + if 0 <= i < node.children@.len() {
            let sub_path = path + "/"@ + node.children@[i].0@;
            acl_paths(node.children@[i].1, sub_path).push(sub_path)
        } else {
            Seq::empty()
        }
    }
}

/// The views of a list of paths.
pub open spec fn path_views(v: Seq<String>) -> Seq<Seq<char>> {
    Seq::new(v.len(), |i: int| v[i]@)
}

/// Adds the paths below a node to a list.
pub fn populate_acl_paths(paths: &mut Vec<String>, node: &AclTreeNode, path: &str)
    ensures
        path_views(final(paths)@) == path_views(old(paths)@) + acl_paths(*node, path@),
    decreases node,
{
    let order = crate::acl::order_children(node);
    let ghost start = path_views(paths@);
    let mut k: usize = 0;
    proof {
        assert(order@.take(0) =~= Seq::<usize>::empty());
        assert(start + child_paths(*node, order@.take(0), path@) =~= start);
    }
    while k < order.len()
        invariant
            k <= order.len(),
            forall|i: int| 0 <= i < order.len() ==> (#[trigger] order@[i]) < node.children.len(),
            path_views(paths@) == start + child_paths(*node, order@.take(k as int), path@),
        decreases order.len() - k,
    {
        let idx: usize = order[k];
        let child = &node.children[idx];
        proof {
            let t = order@.take(k + 1);
            assert(t.drop_last() =~= order@.take(k as int));
            assert(t.last() == idx);
        }
        let mut sub_path = String::from_str(path);
        sub_path.append("/");
        sub_path.append(child.0.as_str());
        let ghost before = path_views(paths@);
        populate_acl_paths(paths, &child.1, sub_path.as_str());
        let ghost below = path_views(paths@);
        let ghost sv = sub_path@;
        paths.push(sub_path);
        proof {
            assert(path_views(paths@) =~= below.push(sv));
            assert(path_views(paths@) =~= start + child_paths(*node, order@.take(k + 1), path@));
        }
        k += 1;
    }
    proof {
        assert(order@.take(order.len() as int) =~= order@);
    }
}

/// The paths whose permissions are listed where the caller names no path:
/// the paths of the tree, and the paths that are listed even if no roles
/// are given on them.
pub fn default_permission_paths(tree: &AclTree) -> (paths: Vec<String>)
    ensures
        path_views(paths@) == acl_paths(tree.root, Seq::<char>::empty()) + seq![
            "/"@,
            "/access"@,
            "/datastore"@,
            "/remote"@,
            "/system"@,
        ],
{
    let mut paths: Vec<String> = Vec::new();
    assert(path_views(paths@) =~= Seq::<Seq<char>>::empty());
    populate_acl_paths(&mut paths, &tree.root, String::new().as_str());
    let ghost below = path_views(paths@);
    assert(below =~= acl_paths(tree.root, Seq::<char>::empty()));
    paths.push(String::from_str("/"));
    paths.push(String::from_str("/access"));
    paths.push(String::from_str("/datastore"));
    paths.push(String::from_str("/remote"));
    paths.push(String::from_str("/system"));
    assert(path_views(paths@) =~= below + seq![
        "/"@,
        "/access"@,
        "/datastore"@,
        "/remote"@,
        "/system"@,
    ]);
    paths
}

/// The paths of a list without repetitions: each path where it comes
/// first.
pub open spec fn distinct_spec(paths: Seq<Seq<char>>) -> Seq<Seq<char>>
    decreases paths.len(),
{
    if paths.len() == 0 {
        Seq::empty()
    } else {
        let init = distinct_spec(paths.drop_last());
        if init.contains(paths.last()) {
            init
        } else {
            init.push(paths.last())
        }
    }
}

/// Whether a list of paths holds the path.
fn holds_path(list: &Vec<String>, path: &String) -> (r: bool)
    ensures
        r == path_views(list@).contains(path@),
{
    let mut i: usize = 0;
    while i < list.len()
        invariant
            i <= list.len(),
            forall|k: int| 0 <= k < i ==> path_views(list@)[k] != path@,
        decreases list.len() - i,
    {
        if list[i] == *path {
            assert(path_views(list@)[i as int] == path@);
            return true;
        }
        i += 1;
    }
    false
}

/// The paths of a list without repetitions.
pub fn distinct_paths(paths: &Vec<String>) -> (distinct: Vec<String>)
    ensures
        path_views(distinct@) == distinct_spec(path_views(paths@)),
{
    let ghost all = path_views(paths@);
    let mut distinct: Vec<String> = Vec::new();
    let mut i: usize = 0;
    proof {
        assert(all.take(0) =~= Seq::<Seq<char>>::empty());
        assert(path_views(distinct@) =~= Seq::<Seq<char>>::empty());
    }
    while i < paths.len()
        invariant
            i <= paths.len(),
            all == path_views(paths@),
            path_views(distinct@) == distinct_spec(all.take(i as int)),
        decreases paths.len() - i,
    {
        proof {
            let t = all.take(i + 1);
            assert(t.drop_last() =~= all.take(i as int));
            assert(t.last() == paths@[i as int]@);
        }
        if !holds_path(&distinct, &paths[i]) {
            let ghost before = path_views(distinct@);
            distinct.push(paths[i].clone());
            proof {
                assert(path_views(distinct@) =~= before.push(paths@[i as int]@));
            }
        }
        i += 1;
    }
    proof {
        assert(all.take(paths.len() as int) =~= all);
    }
    distinct
}

/// The paths whose permissions are listed: the one path that the caller
/// names, or else the paths of the tree and the paths that are always
/// listed, each once.
pub open spec fn permission_paths_spec(path: Option<Seq<char>>, root: AclTreeNode) -> Seq<Seq<char>> {
    match path {
        Some(p) => seq![p],
        None => distinct_spec(
            acl_paths(root, Seq::<char>::empty()) + seq![
                "/"@,
                "/access"@,
                "/datastore"@,
                "/remote"@,
                "/system"@,
            ],
        ),
    }
}

/// The text that may be there, as contracts see it.
pub open spec fn text_view(text: Option<String>) -> Option<Seq<char>> {
    match text {
        Some(t) => Some(t@),
        None => None,
    }
}

/// The paths whose permissions are listed.
pub fn permission_paths(path: Option<String>, tree: &AclTree) -> (paths: Vec<String>)
    ensures
        path_views(paths@) == permission_paths_spec(text_view(path), tree.root),
{
    match path {
        Some(p) => {
            let ghost pv = p@;
            let mut paths: Vec<String> = Vec::new();
            paths.push(p);
            assert(path_views(paths@) =~= seq![pv]);
            paths
        },
        None => {
            let all = default_permission_paths(tree);
            distinct_paths(&all)
        },
    }
}

/// The entry of a path in the list of permissions: nothing where the
/// subject has no privilege on the path, else the path with the subject's
/// privileges on it.
pub open spec fn permission_entry_spec(path: Seq<char>, privs: u64, propagated: u64) -> Option<
    (Seq<char>, Seq<(Seq<char>, bool)>),
> {
    if privs == 0 {
        None
    } else {
        Some((path, privilege_map_spec(privs, propagated, PRIVILEGE_COUNT as int)))
    }
}

/// The entry of a path in the list of permissions. A path on which the
/// subject has no privilege is not listed, so that the list does not tell
/// that the path is there.
pub fn permission_entry(path: String, privs: u64, propagated: u64) -> (r: Option<
    (String, Vec<(String, bool)>),
>)
    ensures
        match permission_entry_spec(path@, privs, propagated) {
            Some(e) => (r matches Some(got) && got.0@ == e.0 && privilege_views(got.1@) == e.1),
            None => r is None,
        },
{
    if privs == 0 {
        None
    } else {
        Some((path, privilege_map(privs, propagated)))
    }
}

/// The list of permissions of paths and what was found of the subject's
/// privileges on each of them.
pub open spec fn permission_entries(paths: Seq<Seq<char>>, details: Seq<(u64, u64)>) -> Seq<
    (Seq<char>, Seq<(Seq<char>, bool)>),
>
    decreases paths.len(),
{
    if paths.len() == 0 || details.len() != paths.len() {
        Seq::empty()
    } else {
        let init = permission_entries(paths.drop_last(), details.drop_last());
        match permission_entry_spec(paths.last(), details.last().0, details.last().1) {
            Some(e) => init.push(e),
            None => init,
        }
    }
}

/// The views of a list of permissions.
pub open spec fn entry_views(list: Seq<(String, Vec<(String, bool)>)>) -> Seq<
    (Seq<char>, Seq<(Seq<char>, bool)>),
> {
    Seq::new(list.len(), |i: int| (list[i].0@, privilege_views(list[i].1@)))
}

/// Whether `detail` is what `lookup` found of the subject's privileges on
/// the path: the privileges, and those of them that go on to the paths
/// below.
pub open spec fn is_answer<F: Fn(&Authid, &Vec<String>) -> (u64, u64)>(
    lookup: F,
    subject: AuthidView,
    path: Seq<char>,
    detail: (u64, u64),
) -> bool {
    exists|a: Authid, p: Vec<String>|
        a@ == subject && crate::acl::string_views(p@) == crate::acl::acl_path_spec(path)
            && lookup.ensures((&a, &p), detail)
}

/// Whether the entries are the list of permissions of the subject on the
/// paths, for what `lookup` found on each of them.
pub open spec fn lists_permissions<F: Fn(&Authid, &Vec<String>) -> (u64, u64)>(
    lookup: F,
    subject: AuthidView,
    paths: Seq<Seq<char>>,
    entries: Seq<(Seq<char>, Seq<(Seq<char>, bool)>)>,
) -> bool {
    exists|details: Seq<(u64, u64)>|
        {
            &&& details.len() == paths.len()
            &&& forall|i: int|
                0 <= i < paths.len() ==> is_answer(lookup, subject, #[trigger] paths[i], details[i])
            &&& entries == permission_entries(paths, details)
        }
}

/// The view of an id that may be there.
pub open spec fn authid_view(a: Option<&Authid>) -> Option<AuthidView> {
    match a {
        Some(a) => Some(a@),
        None => None,
    }
}

/// Lists the permissions of a user or a token: for each path the
/// privileges held on it, each with the flag whether it goes on to the
/// paths below.
///
/// The caller `current_auth_id`, with the privileges `user_privs` on
/// `/access`, asks for the permissions of `auth_id`, or else for their
/// own; on `path`, or else on every path of the tree and on the paths that
/// are always listed. `lookup_privs_details` finds the privileges of the
/// subject on a path, given by its components. Fails with
/// `OwnerCheckFailed` where the caller may not see the permissions asked
/// for.
pub fn list_permissions<F: Fn(&Authid, &Vec<String>) -> (u64, u64)>(
    current_auth_id: &Authid,
    user_privs: u64,
    auth_id: Option<&Authid>,
    path: Option<String>,
    tree: &AclTree,
    lookup_privs_details: F,
) -> (r: Result<Vec<(String, Vec<(String, bool)>)>, Error>)
    requires
        forall|a: &Authid, p: &Vec<String>| lookup_privs_details.requires((a, p)),
    ensures
        match permissions_subject_spec(current_auth_id@, authid_view(auth_id), user_privs) {
            Err(e) => r matches Err(x) && x == e,
            Ok(subject) => r matches Ok(map) && lists_permissions(
                lookup_privs_details,
                subject,
                permission_paths_spec(text_view(path), tree.root),
                entry_views(map@),
            ),
        },
{
    let subject = match permissions_subject(current_auth_id, auth_id, user_privs) {
        Ok(a) => a,
        Err(e) => {
            return Err(e);
        },
    };
    let paths = permission_paths(path, tree);
    let ghost all = path_views(paths@);
    let mut map: Vec<(String, Vec<(String, bool)>)> = Vec::new();
    let ghost mut details: Seq<(u64, u64)> = Seq::empty();
    let mut i: usize = 0;
    proof {
        assert(all.take(0) =~= Seq::<Seq<char>>::empty());
        assert(entry_views(map@) =~= Seq::<(Seq<char>, Seq<(Seq<char>, bool)>)>::empty());
    }
    while i < paths.len()
        invariant
            i <= paths.len(),
            all == path_views(paths@),
            details.len() == i,
            forall|a: &Authid, p: &Vec<String>| lookup_privs_details.requires((a, p)),
            forall|k: int|
                0 <= k < i ==> is_answer(lookup_privs_details, subject@, #[trigger] all[k], details[k]),
            entry_views(map@) == permission_entries(all.take(i as int), details),
        decreases paths.len() - i,
    {
        let split = crate::acl::split_acl_path(paths[i].as_str());
        let (privs, propagated) = lookup_privs_details(&subject, &split);
        let ghost before = entry_views(map@);
        let ghost found = details;
        proof {
            assert(all[i as int] == paths@[i as int]@);
            assert(lookup_privs_details.ensures((&subject, &split), (privs, propagated)));
            assert(is_answer(lookup_privs_details, subject@, all[i as int], (privs, propagated)));
            details = details.push((privs, propagated));
            let t = all.take(i + 1);
            assert(t.drop_last() =~= all.take(i as int));
            assert(t.last() == all[i as int]);
            assert(details.drop_last() =~= found);
        }
        match permission_entry(paths[i].clone(), privs, propagated) {
            Some(entry) => {
                let ghost ev = (entry.0@, privilege_views(entry.1@));
                map.push(entry);
                proof {
                    assert(entry_views(map@) =~= before.push(ev));
                }
            },
            None => {},
        }
        i += 1;
    }
    proof {
        assert(all.take(paths.len() as int) =~= all);
    }
    Ok(map)
}

/// How a password is checked.
#[derive(Clone, Copy, Debug, PartialEq, Eq, Structural)]
pub enum PasswordKind {
    /// The password is a ticket of the API.
    Ticket,
    /// The password is a ticket for a terminal.
    TerminalTicket,
    /// The password is checked by the realm of the user.
    Plain,
}

/// How a password is checked: a ticket begins with `PBS:`, a ticket for a
/// terminal with `PBSTERM:`.
pub open spec fn password_kind_spec(password: Seq<char>) -> PasswordKind {
    if "PBS:"@.is_prefix_of(password) {
        PasswordKind::Ticket
    } else if "PBSTERM:"@.is_prefix_of(password) {
        PasswordKind::TerminalTicket
    } else {
        PasswordKind::Plain
    }
}

/// Decides how a password is checked.
pub fn password_kind(password: &str) -> (r: PasswordKind)
    ensures
        r == password_kind_spec(password@),
{
    let chars = to_chars(password);
    if starts_with(&chars, &to_chars("PBS:")) {
        PasswordKind::Ticket
    } else if starts_with(&chars, &to_chars("PBSTERM:")) {
        PasswordKind::TerminalTicket
    } else {
        PasswordKind::Plain
    }
}

/// What a terminal ticket needs besides the ticket: a path, the name of a
/// privilege, and a port. Fails with `InvalidInput` where one is missing.
pub fn terminal_ticket_params(path: Option<String>, privs: Option<String>, port: Option<u16>) -> (r:
    Result<(String, String, u16), Error>)
    ensures
        r is Ok <==> path is Some && privs is Some && port is Some,
        r matches Ok(p) ==> Some(p.0) == path && Some(p.1) == privs && Some(p.2) == port,
        r matches Err(e) ==> e == Error::InvalidInput,
{
    match (path, privs, port) {
        (Some(path), Some(privs), Some(port)) => Ok((path, privs, port)),
        _ => Err(Error::InvalidInput),
    }
}

/// Why a login is refused.
#[derive(Clone, Copy, Debug, PartialEq, Eq, Structural)]
pub enum LoginError {
    /// The account is disabled or expired.
    AccountDisabled,
    /// The ticket is one of another user.
    WrongTicketUser,
    /// A terminal ticket comes without a path, a privilege or a port.
    MissingTerminalParameters,
    /// The name that comes with a terminal ticket is no privilege.
    NoSuchPrivilege,
    /// The user lacks the privilege that comes with a terminal ticket.
    PermissionDenied,
    /// The realm of the user does not accept the password.
    WrongPassword,
}

/// What was found of a login before it is decided.
#[derive(Debug)]
pub struct LoginChecks {
    /// Whether the account is enabled and has not expired.
    pub active: bool,
    /// The user of the API ticket, where the password is one that is valid.
    pub ticket_user: Option<String>,
    /// Whether the password is a valid terminal ticket of the user for the
    /// path and the port.
    pub terminal_ticket: bool,
    /// Whether the user holds on the path the privilege that comes with a
    /// terminal ticket.
    pub privileged: bool,
    /// Whether the realm of the user accepts the password.
    pub password_accepted: bool,
}

/// What the realm's answer to a password comes to: a login that needs a
/// ticket, or a refusal.
pub open spec fn password_login(checks: LoginChecks) -> Result<bool, LoginError> {
    if checks.password_accepted {
        Ok(true)
    } else {
        Err(LoginError::WrongPassword)
    }
}

/// Whether a user is let in, and whether a ticket has to be made for them.
///
/// A disabled account is refused. A valid API ticket lets its own user in;
/// a valid terminal ticket lets the user in, without a new ticket, if they
/// hold the privilege that comes with it. A password that looks like a
/// ticket and is none is taken to the realm like any other password.
pub open spec fn authenticate_user_spec(
    userid: Seq<char>,
    password: Seq<char>,
    path: Option<Seq<char>>,
    privs: Option<Seq<char>>,
    port: Option<u16>,
    checks: LoginChecks,
) -> Result<bool, LoginError> {
    if !checks.active {
        Err(LoginError::AccountDisabled)
    } else {
        match password_kind_spec(password) {
            PasswordKind::Ticket => match checks.ticket_user {
                Some(user) => if user@ == userid {
                    Ok(true)
                } else {
                    Err(LoginError::WrongTicketUser)
                },
                None => password_login(checks),
            },
            PasswordKind::TerminalTicket => if path is None || privs is None || port is None {
                Err(LoginError::MissingTerminalParameters)
            } else if !checks.terminal_ticket {
                password_login(checks)
            } else if privilege_by_name_spec(privs->0, PRIVILEGE_COUNT as int) is None {
                Err(LoginError::NoSuchPrivilege)
            } else if checks.privileged {
                Ok(false)
            } else {
                Err(LoginError::PermissionDenied)
            },
            PasswordKind::Plain => password_login(checks),
        }
    }
}

/// Decides whether a user is let in. The answer is whether a ticket has
/// to be made for them.
pub fn authenticate_user(
    userid: &str,
    password: &str,
    path: Option<String>,
    privs: Option<String>,
    port: Option<u16>,
    checks: &LoginChecks,
) -> (r: Result<bool, LoginError>)
    ensures
        r == authenticate_user_spec(
            userid@,
            password@,
            text_view(path),
            text_view(privs),
            port,
            *checks,
        ),
{
    if !checks.active {
        return Err(LoginError::AccountDisabled);
    }
    match password_kind(password) {
        PasswordKind::Ticket => {
            if let Some(user) = &checks.ticket_user {
                if *user == String::from_str(userid) {
                    return Ok(true);
                }
                return Err(LoginError::WrongTicketUser);
            }
        },
        PasswordKind::TerminalTicket => {
            let (_path, privilege_name, _port) = match terminal_ticket_params(path, privs, port) {
                Ok(params) => params,
                Err(_) => {
                    return Err(LoginError::MissingTerminalParameters);
                },
            };
            if checks.terminal_ticket {
                if privilege_by_name(privilege_name.as_str()).is_none() {
                    return Err(LoginError::NoSuchPrivilege);
                }
                if checks.privileged {
                    return Ok(false);
                }
                return Err(LoginError::PermissionDenied);
            }
        },
        PasswordKind::Plain => {},
    }
    if checks.password_accepted {
        Ok(true)
    } else {
        Err(LoginError::WrongPassword)
    }
}

} // verus!

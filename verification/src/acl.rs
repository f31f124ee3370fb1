//! The access control list: which roles a user or a group has on which
//! path, and whether a role goes on to the paths below.

use vstd::prelude::*;
use vstd::string::{StringExecFns, StringSliceAdditionalSpecFns};
use crate::digest::{digest_of_text, sha256_spec};
use crate::text::{append_chars, join, join_spec};
use crate::text::{
    lex_less, lex_order, split, split_spec, string_of, sub_chars, to_chars, trim, trim_spec, views,
    Sign,
};

verus! {

pub const PRIV_SYS_AUDIT: u64 = 1 << 0;

pub const PRIV_SYS_MODIFY: u64 = 1 << 1;

pub const PRIV_SYS_POWER_MANAGEMENT: u64 = 1 << 2;

pub const PRIV_DATASTORE_AUDIT: u64 = 1 << 3;

pub const PRIV_DATASTORE_MODIFY: u64 = 1 << 4;

pub const PRIV_DATASTORE_READ: u64 = 1 << 5;

/// Datastore.Backup also requires backup ownership.
pub const PRIV_DATASTORE_BACKUP: u64 = 1 << 6;

/// Datastore.Prune also requires backup ownership.
pub const PRIV_DATASTORE_PRUNE: u64 = 1 << 7;

pub const PRIV_PERMISSIONS_MODIFY: u64 = 1 << 8;

pub const PRIV_REMOTE_AUDIT: u64 = 1 << 9;

pub const PRIV_REMOTE_MODIFY: u64 = 1 << 10;

pub const PRIV_REMOTE_READ: u64 = 1 << 11;

pub const PRIV_REMOTE_PRUNE: u64 = 1 << 12;

pub const ROLE_ADMIN: u64 = u64::MAX;

pub const ROLE_NO_ACCESS: u64 = 0;

pub const ROLE_AUDIT: u64 = PRIV_SYS_AUDIT | PRIV_DATASTORE_AUDIT;

/// Datastore.Admin can do anything on the datastore.
pub const ROLE_DATASTORE_ADMIN: u64 = PRIV_DATASTORE_AUDIT | PRIV_DATASTORE_MODIFY
    | PRIV_DATASTORE_READ | PRIV_DATASTORE_BACKUP | PRIV_DATASTORE_PRUNE;

/// Datastore.Reader can read datastore content and do restores.
pub const ROLE_DATASTORE_READER: u64 = PRIV_DATASTORE_AUDIT | PRIV_DATASTORE_READ;

/// Datastore.Backup can do backup and restore, but no prune.
pub const ROLE_DATASTORE_BACKUP: u64 = PRIV_DATASTORE_BACKUP;

/// Datastore.PowerUser can do backup, restore, and prune.
pub const ROLE_DATASTORE_POWERUSER: u64 = PRIV_DATASTORE_PRUNE | PRIV_DATASTORE_BACKUP;

/// Datastore.Audit can audit the datastore.
pub const ROLE_DATASTORE_AUDIT: u64 = PRIV_DATASTORE_AUDIT;

/// Remote.Audit can audit the remote.
pub const ROLE_REMOTE_AUDIT: u64 = PRIV_REMOTE_AUDIT;

/// Remote.Admin can do anything on the remote.
pub const ROLE_REMOTE_ADMIN: u64 = PRIV_REMOTE_AUDIT | PRIV_REMOTE_MODIFY | PRIV_REMOTE_READ
    | PRIV_REMOTE_PRUNE;

/// Remote.SyncOperator can do read and prune on the remote.
pub const ROLE_REMOTE_SYNC_OPERATOR: u64 = PRIV_REMOTE_AUDIT | PRIV_REMOTE_READ
    | PRIV_REMOTE_PRUNE;

/// The name of the role that takes all access away.
pub const ROLE_NAME_NO_ACCESS: &'static str = "NoAccess";

/// The privileges of the role of this name, if there is such a role.
pub open spec fn role_privileges_spec(name: Seq<char>) -> Option<u64> {
    if name == "Admin"@ {
        Some(ROLE_ADMIN)
    } else if name == "Audit"@ {
        Some(ROLE_AUDIT)
    } else if name == ROLE_NAME_NO_ACCESS@ {
        Some(ROLE_NO_ACCESS)
    } else if name == "Datastore.Admin"@ {
        Some(ROLE_DATASTORE_ADMIN)
    } else if name == "Datastore.Reader"@ {
        Some(ROLE_DATASTORE_READER)
    } else if name == "Datastore.Backup"@ {
        Some(ROLE_DATASTORE_BACKUP)
    } else if name == "Datastore.PowerUser"@ {
        Some(ROLE_DATASTORE_POWERUSER)
    } else if name == "Datastore.Audit"@ {
        Some(ROLE_DATASTORE_AUDIT)
    } else if name == "Remote.Audit"@ {
        Some(ROLE_REMOTE_AUDIT)
    } else if name == "Remote.Admin"@ {
        Some(ROLE_REMOTE_ADMIN)
    } else if name == "Remote.SyncOperator"@ {
        Some(ROLE_REMOTE_SYNC_OPERATOR)
    } else {
        None
    }
}

/// The privileges of the role of this name, if there is such a role.
pub fn role_privileges(name: &str) -> (r: Option<u64>)
    ensures
        r == role_privileges_spec(name@),
{
    let s = String::from_str(name);
    if s == String::from_str("Admin") {
        Some(ROLE_ADMIN)
    } else if s == String::from_str("Audit") {
        Some(ROLE_AUDIT)
    } else if s == String::from_str(ROLE_NAME_NO_ACCESS) {
        Some(ROLE_NO_ACCESS)
    } else if s == String::from_str("Datastore.Admin") {
        Some(ROLE_DATASTORE_ADMIN)
    } else if s == String::from_str("Datastore.Reader") {
        Some(ROLE_DATASTORE_READER)
    } else if s == String::from_str("Datastore.Backup") {
        Some(ROLE_DATASTORE_BACKUP)
    } else if s == String::from_str("Datastore.PowerUser") {
        Some(ROLE_DATASTORE_POWERUSER)
    } else if s == String::from_str("Datastore.Audit") {
        Some(ROLE_DATASTORE_AUDIT)
    } else if s == String::from_str("Remote.Audit") {
        Some(ROLE_REMOTE_AUDIT)
    } else if s == String::from_str("Remote.Admin") {
        Some(ROLE_REMOTE_ADMIN)
    } else if s == String::from_str("Remote.SyncOperator") {
        Some(ROLE_REMOTE_SYNC_OPERATOR)
    } else {
        None
    }
}

/// The pieces of a list that are not empty, in their order.
pub open spec fn nonempty_pieces(pieces: Seq<Seq<char>>) -> Seq<Seq<char>>
    decreases pieces.len(),
{
    if pieces.len() == 0 {
        pieces
    } else {
        let init = nonempty_pieces(pieces.drop_last());
        if pieces.last().len() == 0 {
            init
        } else {
            init.push(pieces.last())
        }
    }
}

/// The components of a path of the access control list: what stands
/// between its slashes, empty components left out.
pub open spec fn acl_path_spec(path: Seq<char>) -> Seq<Seq<char>> {
    nonempty_pieces(split_spec(path, '/'))
}

/// The views of a list of strings.
pub open spec fn string_views(v: Seq<String>) -> Seq<Seq<char>> {
    Seq::new(v.len(), |i: int| v[i]@)
}

/// The components of a path of the access control list.
pub fn split_acl_path(path: &str) -> (components: Vec<String>)
    ensures
        string_views(components@) == acl_path_spec(path@),
{
    let chars = to_chars(path);
    let items = split(&chars, '/');
    let ghost all = views(items@);
    let mut components: Vec<String> = Vec::new();
    let mut i: usize = 0;
    proof {
        assert(all.take(0) =~= Seq::<Seq<char>>::empty());
        assert(string_views(components@) =~= Seq::<Seq<char>>::empty());
    }
    while i < items.len()
        invariant
            i <= items.len(),
            all == views(items@),
            string_views(components@) == nonempty_pieces(all.take(i as int)),
        decreases items.len() - i,
    {
        proof {
            let t = all.take(i + 1);
            assert(t.drop_last() =~= all.take(i as int));
            assert(t.last() == items@[i as int]@);
        }
        if items[i].len() > 0 {
            let ghost before = string_views(components@);
            let name = string_of(&items[i]);
            components.push(name);
            proof {
                assert(string_views(components@) =~= before.push(items@[i as int]@));
            }
        }
        i += 1;
    }
    assert(all.take(items.len() as int) =~= all);
    components
}

/// The map that a list of pairs stands for: where a key stands twice, the
/// later pair counts.
pub open spec fn pairs_map<V>(pairs: Seq<(Seq<char>, V)>) -> Map<Seq<char>, V>
    decreases pairs.len(),
{
    if pairs.len() == 0 {
        Map::empty()
    } else {
        pairs_map(pairs.drop_last()).insert(pairs.last().0, pairs.last().1)
    }
}

/// A key is in the map of a list of pairs exactly where a pair has it.
pub proof fn lemma_pairs_map_keys<V>(pairs: Seq<(Seq<char>, V)>, key: Seq<char>)
    ensures
        pairs_map(pairs).contains_key(key) <==> exists|i: int|
            0 <= i < pairs.len() && (#[trigger] pairs[i]).0 == key,
    decreases pairs.len(),
{
    if pairs.len() > 0 {
        let init = pairs.drop_last();
        lemma_pairs_map_keys(init, key);
        if pairs_map(pairs).contains_key(key) {
            if pairs.last().0 == key {
                assert(pairs[pairs.len() - 1].0 == key);
            } else {
                let i = choose|i: int| 0 <= i < init.len() && (#[trigger] init[i]).0 == key;
                assert(pairs[i].0 == key);
            }
        }
        if exists|i: int| 0 <= i < pairs.len() && (#[trigger] pairs[i]).0 == key {
            let i = choose|i: int| 0 <= i < pairs.len() && (#[trigger] pairs[i]).0 == key;
            if i < init.len() {
                assert(init[i].0 == key);
            }
        }
    }
}

/// The map of a list of pairs gives for a key what the last pair with
/// that key holds.
pub proof fn lemma_pairs_map_last<V>(pairs: Seq<(Seq<char>, V)>, i: int)
    requires
        0 <= i < pairs.len(),
        forall|j: int| i < j < pairs.len() ==> (#[trigger] pairs[j]).0 != pairs[i].0,
    ensures
        pairs_map(pairs).contains_key(pairs[i].0),
        pairs_map(pairs)[pairs[i].0] == pairs[i].1,
    decreases pairs.len(),
{
    if i < pairs.len() - 1 {
        let init = pairs.drop_last();
        assert(init[i] == pairs[i]);
        assert forall|j: int| i < j < init.len() implies (#[trigger] init[j]).0 != init[i].0 by {
            assert(init[j] == pairs[j]);
        }
        lemma_pairs_map_last(init, i);
        assert(pairs[pairs.len() - 1].0 != pairs[i].0);
    }
}

/// Taking a pair out of a list changes the map at most at the key of that
/// pair.
pub proof fn lemma_pairs_map_remove<V>(pairs: Seq<(Seq<char>, V)>, i: int)
    requires
        0 <= i < pairs.len(),
    ensures
        pairs_map(pairs.remove(i)).remove(pairs[i].0) == pairs_map(pairs).remove(pairs[i].0),
    decreases pairs.len(),
{
    let key = pairs[i].0;
    if i == pairs.len() - 1 {
        assert(pairs.remove(i) =~= pairs.drop_last());
        assert(pairs_map(pairs.drop_last()).insert(key, pairs[i].1).remove(key) =~= pairs_map(
            pairs.drop_last(),
        ).remove(key));
    } else {
        let init = pairs.drop_last();
        assert(init[i] == pairs[i]);
        lemma_pairs_map_remove(init, i);
        assert(pairs.remove(i).drop_last() =~= init.remove(i));
        assert(pairs.remove(i).last() == pairs.last());
        let last = pairs.last();
        assert(pairs_map(init.remove(i)).insert(last.0, last.1).remove(key) =~= pairs_map(
            init.remove(i),
        ).remove(key).insert(last.0, last.1).remove(key));
        assert(pairs_map(init).insert(last.0, last.1).remove(key) =~= pairs_map(init).remove(
            key,
        ).insert(last.0, last.1).remove(key));
    }
}

/// Exchanging what the last pair of a key holds changes what the map gives
/// for that key, and nothing else.
pub proof fn lemma_pairs_map_update<V>(pairs: Seq<(Seq<char>, V)>, i: int, value: V)
    requires
        0 <= i < pairs.len(),
        forall|j: int| i < j < pairs.len() ==> (#[trigger] pairs[j]).0 != pairs[i].0,
    ensures
        pairs_map(pairs.update(i, (pairs[i].0, value))) == pairs_map(pairs).insert(
            pairs[i].0,
            value,
        ),
    decreases pairs.len(),
{
    let key = pairs[i].0;
    let after = pairs.update(i, (key, value));
    if i == pairs.len() - 1 {
        assert(after.drop_last() =~= pairs.drop_last());
        assert(pairs_map(pairs.drop_last()).insert(key, value) =~= pairs_map(pairs).insert(
            key,
            value,
        ));
    } else {
        let init = pairs.drop_last();
        assert(init[i] == pairs[i]);
        assert forall|j: int| i < j < init.len() implies (#[trigger] init[j]).0 != init[i].0 by {
            assert(init[j] == pairs[j]);
        }
        lemma_pairs_map_update(init, i, value);
        assert(after.drop_last() =~= init.update(i, (key, value)));
        assert(after.last() == pairs.last());
        let last = pairs.last();
        assert(pairs[pairs.len() - 1].0 != key);
        assert(pairs_map(init).insert(key, value).insert(last.0, last.1) =~= pairs_map(
            init,
        ).insert(last.0, last.1).insert(key, value));
    }
}

/// The pairs of roles and their flags that a list of roles stands for.
pub open spec fn role_pairs(roles: Seq<(String, bool)>) -> Seq<(Seq<char>, bool)> {
    Seq::new(roles.len(), |i: int| (roles[i].0@, roles[i].1))
}

/// The roles that a list of roles gives, each with its flag: whether the
/// role goes on to the paths below.
pub open spec fn role_map(roles: Seq<(String, bool)>) -> Map<Seq<char>, bool> {
    pairs_map(role_pairs(roles))
}

/// The pairs of names and their roles that a list of entries stands for.
pub open spec fn entry_pairs(entries: Seq<(String, Vec<(String, bool)>)>) -> Seq<
    (Seq<char>, Map<Seq<char>, bool>),
> {
    Seq::new(entries.len(), |i: int| (entries[i].0@, role_map(entries[i].1@)))
}

/// The roles of each user or of each group that a list of entries gives.
pub open spec fn entry_map(entries: Seq<(String, Vec<(String, bool)>)>) -> Map<
    Seq<char>,
    Map<Seq<char>, bool>,
> {
    pairs_map(entry_pairs(entries))
}

/// The roles after a role was given: the role that takes all access away
/// stands alone, and any other role drives it out.
pub open spec fn insert_role_spec(roles: Map<Seq<char>, bool>, role: Seq<char>, propagate: bool) -> Map<
    Seq<char>,
    bool,
> {
    if role == ROLE_NAME_NO_ACCESS@ {
        Map::<Seq<char>, bool>::empty().insert(role, propagate)
    } else {
        roles.remove(ROLE_NAME_NO_ACCESS@).insert(role, propagate)
    }
}

/// The roles of a name; none where the name has no entry.
pub open spec fn roles_of(entries: Map<Seq<char>, Map<Seq<char>, bool>>, name: Seq<char>) -> Map<
    Seq<char>,
    bool,
> {
    if entries.contains_key(name) {
        entries[name]
    } else {
        Map::empty()
    }
}

/// The entries after a role was given to a name.
pub open spec fn with_role(
    entries: Map<Seq<char>, Map<Seq<char>, bool>>,
    name: Seq<char>,
    role: Seq<char>,
    propagate: bool,
) -> Map<Seq<char>, Map<Seq<char>, bool>> {
    entries.insert(name, insert_role_spec(roles_of(entries, name), role, propagate))
}

/// The entries after a role was taken from a name.
pub open spec fn without_role(
    entries: Map<Seq<char>, Map<Seq<char>, bool>>,
    name: Seq<char>,
    role: Seq<char>,
) -> Map<Seq<char>, Map<Seq<char>, bool>> {
    if entries.contains_key(name) {
        entries.insert(name, entries[name].remove(role))
    } else {
        entries
    }
}

/// The roles that count on a path: those that go on to the paths below,
/// or all of them where the path is the one asked for. Where the role that
/// takes all access away counts, it counts alone.
pub open spec fn extract_spec(roles: Map<Seq<char>, bool>, all: bool) -> Set<Seq<char>> {
    let counting = Set::new(|r: Seq<char>| roles.contains_key(r) && (roles[r] || all));
    if counting.contains(ROLE_NAME_NO_ACCESS@) {
        Set::<Seq<char>>::empty().insert(ROLE_NAME_NO_ACCESS@)
    } else {
        counting
    }
}

/// The set of the strings of a list.
pub open spec fn string_set(v: Seq<String>) -> Set<Seq<char>> {
    Set::new(|s: Seq<char>| exists|i: int| 0 <= i < v.len() && (#[trigger] v[i])@ == s)
}

/// No string stands twice in the list.
pub open spec fn strings_distinct(v: Seq<String>) -> bool {
    forall|i: int, j: int| 0 <= i < v.len() && 0 <= j < v.len() && i != j ==> v[i]@ != v[j]@
}

/// No role stands twice in the list.
pub open spec fn roles_distinct(roles: Seq<(String, bool)>) -> bool {
    forall|i: int, j: int|
        0 <= i < roles.len() && 0 <= j < roles.len() && i != j ==> roles[i].0@ != roles[j].0@
}

/// No name stands twice in the list of entries, and no role stands twice
/// in the roles of a name.
pub open spec fn entries_distinct(entries: Seq<(String, Vec<(String, bool)>)>) -> bool {
    &&& forall|i: int, j: int|
        0 <= i < entries.len() && 0 <= j < entries.len() && i != j ==> entries[i].0@
            != entries[j].0@
    &&& forall|i: int| 0 <= i < entries.len() ==> roles_distinct((#[trigger] entries[i]).1@)
}

/// The place of the last pair with this role.
fn find_role(roles: &Vec<(String, bool)>, role: &String) -> (r: Option<usize>)
    ensures
        r is Some <==> role_map(roles@).contains_key(role@),
        r matches Some(i) ==> i < roles.len() && roles@[i as int].0@ == role@ && role_map(
            roles@,
        )[role@] == roles@[i as int].1 && forall|j: int|
            i < j < roles.len() ==> (#[trigger] roles@[j]).0@ != role@,
{
    let ghost pairs = role_pairs(roles@);
    let mut i: usize = roles.len();
    while i > 0
        invariant
            i <= roles.len(),
            pairs == role_pairs(roles@),
            forall|j: int| i <= j < roles.len() ==> (#[trigger] roles@[j]).0@ != role@,
        decreases i,
    {
        if roles[i - 1].0 == *role {
            proof {
                let k = (i - 1) as int;
                assert(pairs[k] == (roles@[k].0@, roles@[k].1));
                assert forall|j: int| k < j < pairs.len() implies (#[trigger] pairs[j]).0
                    != pairs[k].0 by {
                    assert(pairs[j].0 == roles@[j].0@);
                }
                lemma_pairs_map_last(pairs, k);
            }
            return Some(i - 1);
        }
        i -= 1;
    }
    proof {
        lemma_pairs_map_keys(pairs, role@);
        if pairs_map(pairs).contains_key(role@) {
            let k = choose|k: int| 0 <= k < pairs.len() && (#[trigger] pairs[k]).0 == role@;
            assert(roles@[k].0@ == role@);
        }
    }
    None
}

/// Takes every pair with this role out of the list.
fn remove_role(roles: &mut Vec<(String, bool)>, role: &String)
    ensures
        role_map(final(roles)@) == role_map(old(roles)@).remove(role@),
        forall|k: int| 0 <= k < final(roles)@.len() ==> (#[trigger] final(roles)@[k]).0@ != role@,
        roles_distinct(old(roles)@) ==> roles_distinct(final(roles)@),
{
    let mut i: usize = 0;
    while i < roles.len()
        invariant
            i <= roles.len(),
            role_map(roles@).remove(role@) == role_map(old(roles)@).remove(role@),
            forall|k: int| 0 <= k < i ==> (#[trigger] roles@[k]).0@ != role@,
            roles_distinct(old(roles)@) ==> roles_distinct(roles@),
        decreases roles.len() - i,
    {
        if roles[i].0 == *role {
            let ghost before = roles@;
            proof {
                let pairs = role_pairs(before);
                assert(pairs[i as int].0 == role@);
                lemma_pairs_map_remove(pairs, i as int);
                assert(role_pairs(before.remove(i as int)) =~= pairs.remove(i as int));
            }
            roles.remove(i);
            proof {
                assert(roles@ =~= before.remove(i as int));
                assert forall|k: int| 0 <= k < i implies (#[trigger] roles@[k]).0@ != role@ by {
                    assert(roles@[k] == before[k]);
                }
                if roles_distinct(before) {
                    assert forall|a: int, b: int|
                        0 <= a < roles@.len() && 0 <= b < roles@.len() && a != b implies roles@[a].0@
                        != roles@[b].0@ by {
                        let a0 = if a < i { a } else { a + 1 };
                        let b0 = if b < i { b } else { b + 1 };
                        assert(roles@[a] == before[a0]);
                        assert(roles@[b] == before[b0]);
                    }
                }
            }
        } else {
            i += 1;
        }
    }
    proof {
        let pairs = role_pairs(roles@);
        lemma_pairs_map_keys(pairs, role@);
        if pairs_map(pairs).contains_key(role@) {
            let k = choose|k: int| 0 <= k < pairs.len() && (#[trigger] pairs[k]).0 == role@;
            assert(roles@[k].0@ == role@);
        }
        assert(role_map(roles@).remove(role@) =~= role_map(roles@));
    }
}

/// Gives a role in a list of roles.
fn insert_role(roles: &mut Vec<(String, bool)>, role: String, propagate: bool)
    ensures
        role_map(final(roles)@) == insert_role_spec(role_map(old(roles)@), role@, propagate),
        roles_distinct(old(roles)@) ==> roles_distinct(final(roles)@),
{
    if role == String::from_str(ROLE_NAME_NO_ACCESS) {
        roles.clear();
        assert(role_pairs(roles@) =~= Seq::<(Seq<char>, bool)>::empty());
        assert(role_map(roles@) =~= Map::<Seq<char>, bool>::empty());
    } else {
        remove_role(roles, &String::from_str(ROLE_NAME_NO_ACCESS));
        remove_role(roles, &role);
        assert(role_map(roles@).insert(role@, propagate) =~= role_map(old(roles)@).remove(
            ROLE_NAME_NO_ACCESS@,
        ).insert(role@, propagate));
    }
    let ghost before = roles@;
    let ghost key = role@;
    roles.push((role, propagate));
    proof {
        assert(role_pairs(roles@).drop_last() =~= role_pairs(before));
        assert(role_pairs(roles@).last() == (key, propagate));
        assert(role_map(roles@) == role_map(before).insert(key, propagate));
        if roles_distinct(old(roles)@) {
            assert(roles_distinct(before));
            assert forall|a: int, b: int|
                0 <= a < roles@.len() && 0 <= b < roles@.len() && a != b implies roles@[a].0@
                != roles@[b].0@ by {
                if a < before.len() {
                    assert(roles@[a] == before[a]);
                }
                if b < before.len() {
                    assert(roles@[b] == before[b]);
                }
            }
        }
    }
}

/// The place of the last entry with this name.
fn find_entry(entries: &Vec<(String, Vec<(String, bool)>)>, name: &String) -> (r: Option<usize>)
    ensures
        r is Some <==> entry_map(entries@).contains_key(name@),
        r matches Some(i) ==> i < entries.len() && entries@[i as int].0@ == name@ && entry_map(
            entries@,
        )[name@] == role_map(entries@[i as int].1@) && forall|j: int|
            i < j < entries.len() ==> (#[trigger] entries@[j]).0@ != name@,
{
    let ghost pairs = entry_pairs(entries@);
    let mut i: usize = entries.len();
    while i > 0
        invariant
            i <= entries.len(),
            pairs == entry_pairs(entries@),
            forall|j: int| i <= j < entries.len() ==> (#[trigger] entries@[j]).0@ != name@,
        decreases i,
    {
        if entries[i - 1].0 == *name {
            proof {
                let k = (i - 1) as int;
                assert(pairs[k] == (entries@[k].0@, role_map(entries@[k].1@)));
                assert forall|j: int| k < j < pairs.len() implies (#[trigger] pairs[j]).0
                    != pairs[k].0 by {
                    assert(pairs[j].0 == entries@[j].0@);
                }
                lemma_pairs_map_last(pairs, k);
            }
            return Some(i - 1);
        }
        i -= 1;
    }
    proof {
        lemma_pairs_map_keys(pairs, name@);
        if pairs_map(pairs).contains_key(name@) {
            let k = choose|k: int| 0 <= k < pairs.len() && (#[trigger] pairs[k]).0 == name@;
            assert(entries@[k].0@ == name@);
        }
    }
    None
}

/// A list of entries in which the roles of one name were exchanged for
/// roles of which none stands twice holds no name and no role twice, if
/// the list did not before.
pub proof fn lemma_entry_exchanged(
    before: Seq<(String, Vec<(String, bool)>)>,
    after: Seq<(String, Vec<(String, bool)>)>,
    i: int,
)
    requires
        0 <= i < before.len(),
        after.len() == before.len(),
        forall|k: int| 0 <= k < before.len() && k != i ==> after[k] == before[k],
        after[i].0 == before[i].0,
        roles_distinct(before[i].1@) ==> roles_distinct(after[i].1@),
    ensures
        entries_distinct(before) ==> entries_distinct(after),
{
    if entries_distinct(before) {
        assert forall|a: int, b: int|
            0 <= a < after.len() && 0 <= b < after.len() && a != b implies after[a].0@
            != after[b].0@ by {
            assert(after[a].0 == before[a].0);
            assert(after[b].0 == before[b].0);
        }
        assert forall|a: int| 0 <= a < after.len() implies roles_distinct(
            (#[trigger] after[a]).1@,
        ) by {
            if a != i {
                assert(after[a] == before[a]);
            }
        }
    }
}

/// Gives a role to a name in a list of entries.
fn insert_entry_role(
    entries: &mut Vec<(String, Vec<(String, bool)>)>,
    name: String,
    role: String,
    propagate: bool,
)
    ensures
        entry_map(final(entries)@) == with_role(entry_map(old(entries)@), name@, role@, propagate),
        entries_distinct(old(entries)@) ==> entries_distinct(final(entries)@),
{
    match find_entry(entries, &name) {
        Some(i) => {
            let ghost before = entries@;
            let ghost pairs = entry_pairs(before);
            let (key, mut roles) = entries.remove(i);
            insert_role(&mut roles, role, propagate);
            let ghost new_roles = role_map(roles@);
            entries.insert(i, (key, roles));
            proof {
                lemma_entry_exchanged(before, entries@, i as int);
                assert(pairs[i as int].0 == name@);
                assert forall|j: int| i < j < pairs.len() implies (#[trigger] pairs[j]).0
                    != pairs[i as int].0 by {
                    assert(pairs[j].0 == before[j].0@);
                }
                lemma_pairs_map_update(pairs, i as int, new_roles);
                assert(entry_pairs(entries@) =~= pairs.update(i as int, (name@, new_roles)));
            }
        },
        None => {
            let ghost before = entries@;
            let mut roles: Vec<(String, bool)> = Vec::new();
            proof {
                assert(role_pairs(roles@) =~= Seq::<(Seq<char>, bool)>::empty());
            }
            insert_role(&mut roles, role, propagate);
            let ghost new_roles = role_map(roles@);
            let ghost key = name@;
            entries.push((name, roles));
            proof {
                assert(entry_pairs(entries@).drop_last() =~= entry_pairs(before));
                assert(entry_pairs(entries@).last() == (name@, new_roles));
                if entries_distinct(before) {
                    lemma_pairs_map_keys(entry_pairs(before), key);
                    assert forall|a: int| 0 <= a < before.len() implies (#[trigger] before[a]).0@
                        != key by {
                        assert(entry_pairs(before)[a].0 == before[a].0@);
                    }
                    assert forall|a: int, b: int|
                        0 <= a < entries@.len() && 0 <= b < entries@.len() && a
                        != b implies entries@[a].0@ != entries@[b].0@ by {
                        if a < before.len() {
                            assert(entries@[a] == before[a]);
                        }
                        if b < before.len() {
                            assert(entries@[b] == before[b]);
                        }
                    }
                    assert forall|a: int| 0 <= a < entries@.len() implies roles_distinct(
                        (#[trigger] entries@[a]).1@,
                    ) by {
                        if a < before.len() {
                            assert(entries@[a] == before[a]);
                        }
                    }
                }
            }
        },
    }
}

/// Takes a role from a name in a list of entries.
fn delete_entry_role(entries: &mut Vec<(String, Vec<(String, bool)>)>, name: &String, role: &String)
    ensures
        entry_map(final(entries)@) == without_role(entry_map(old(entries)@), name@, role@),
        entries_distinct(old(entries)@) ==> entries_distinct(final(entries)@),
{
    match find_entry(entries, name) {
        Some(i) => {
            let ghost before = entries@;
            let ghost pairs = entry_pairs(before);
            let (key, mut roles) = entries.remove(i);
            remove_role(&mut roles, role);
            let ghost new_roles = role_map(roles@);
            entries.insert(i, (key, roles));
            proof {
                lemma_entry_exchanged(before, entries@, i as int);
                assert(pairs[i as int].0 == name@);
                assert forall|j: int| i < j < pairs.len() implies (#[trigger] pairs[j]).0
                    != pairs[i as int].0 by {
                    assert(pairs[j].0 == before[j].0@);
                }
                lemma_pairs_map_update(pairs, i as int, new_roles);
                assert(entry_pairs(entries@) =~= pairs.update(i as int, (name@, new_roles)));
            }
        },
        None => {},
    }
}

/// Whether the list holds the string.
fn holds_string(v: &Vec<String>, s: &String) -> (r: bool)
    ensures
        r == string_set(v@).contains(s@),
{
    let mut i: usize = 0;
    while i < v.len()
        invariant
            i <= v.len(),
            forall|k: int| 0 <= k < i ==> (#[trigger] v@[k])@ != s@,
        decreases v.len() - i,
    {
        if v[i] == *s {
            return true;
        }
        i += 1;
    }
    false
}

/// Whether a role counts: it is given, and it goes on to the paths below
/// or the path is the one asked for.
pub open spec fn counts(roles: Map<Seq<char>, bool>, all: bool, role: Seq<char>) -> bool {
    roles.contains_key(role) && (roles[role] || all)
}

/// The roles of a list that count, as a list without repetitions.
fn extract_from(roles: &Vec<(String, bool)>, all: bool) -> (set: Vec<String>)
    ensures
        string_set(set@) == extract_spec(role_map(roles@), all),
        strings_distinct(set@),
{
    let no_access = String::from_str(ROLE_NAME_NO_ACCESS);
    let ghost m = role_map(roles@);
    let ghost counting = Set::new(|r: Seq<char>| m.contains_key(r) && (m[r] || all));
    match find_role(roles, &no_access) {
        Some(i) => {
            if roles[i].1 || all {
                let mut set: Vec<String> = Vec::new();
                set.push(no_access);
                proof {
                    assert(counting.contains(ROLE_NAME_NO_ACCESS@));
                    assert(set@[0]@ == ROLE_NAME_NO_ACCESS@);
                    assert(string_set(set@) =~= Set::<Seq<char>>::empty().insert(
                        ROLE_NAME_NO_ACCESS@,
                    ));
                }
                return set;
            }
        },
        None => {},
    }
    assert(!counting.contains(ROLE_NAME_NO_ACCESS@));
    let mut set: Vec<String> = Vec::new();
    let mut k: usize = 0;
    while k < roles.len()
        invariant
            k <= roles.len(),
            m == role_map(roles@),
            strings_distinct(set@),
            forall|w: int| 0 <= w < set@.len() ==> counts(m, all, (#[trigger] set@[w])@),
            forall|j: int|
                0 <= j < k && counts(m, all, (#[trigger] roles@[j]).0@) ==> string_set(
                    set@,
                ).contains(roles@[j].0@),
        decreases roles.len() - k,
    {
        let ghost before = set@;
        let name_ref = &roles[k].0;
        proof {
            lemma_pairs_map_keys(role_pairs(roles@), name_ref@);
            assert(role_pairs(roles@)[k as int].0 == name_ref@);
            assert(m.contains_key(name_ref@));
        }
        let flag: bool = match find_role(roles, name_ref) {
            Some(i) => roles[i].1,
            None => false,
        };
        assert(flag == m[name_ref@]);
        let listed = holds_string(&set, name_ref);
        if (flag || all) && !listed {
            let copy = name_ref.clone();
            assert(copy@ == name_ref@);
            set.push(copy);
            proof {
                let n = before.len() as int;
                assert(set@[n]@ == name_ref@);
                assert forall|w: int| 0 <= w < set@.len() implies counts(
                    m,
                    all,
                    (#[trigger] set@[w])@,
                ) by {
                    if w < n {
                        assert(set@[w] == before[w]);
                    }
                }
                assert forall|a: int, b: int|
                    0 <= a < set@.len() && 0 <= b < set@.len() && a != b implies set@[a]@
                    != set@[b]@ by {
                    if a < n {
                        assert(set@[a] == before[a]);
                    }
                    if b < n {
                        assert(set@[b] == before[b]);
                    }
                    if a < n && b == n && before[a]@ == name_ref@ {
                        assert(string_set(before).contains(name_ref@));
                    }
                    if b < n && a == n && before[b]@ == name_ref@ {
                        assert(string_set(before).contains(name_ref@));
                    }
                }
                assert forall|j: int|
                    0 <= j < k + 1 && counts(m, all, (#[trigger] roles@[j]).0@) implies string_set(
                    set@,
                ).contains(roles@[j].0@) by {
                    if j < k {
                        assert(string_set(before).contains(roles@[j].0@));
                        let w = choose|w: int|
                            0 <= w < before.len() && (#[trigger] before[w])@ == roles@[j].0@;
                        assert(set@[w] == before[w]);
                    } else {
                        assert(set@[n]@ == roles@[j].0@);
                    }
                }
            }
        } else {
            proof {
                assert forall|j: int|
                    0 <= j < k + 1 && counts(m, all, (#[trigger] roles@[j]).0@) implies string_set(
                    set@,
                ).contains(roles@[j].0@) by {
                    if j == k {
                        assert(listed);
                    }
                }
            }
        }
        k += 1;
    }
    proof {
        assert forall|s: Seq<char>| counting.contains(s) implies string_set(set@).contains(s) by {
            lemma_pairs_map_keys(role_pairs(roles@), s);
            let j = choose|j: int|
                0 <= j < role_pairs(roles@).len() && (#[trigger] role_pairs(roles@)[j]).0 == s;
            assert(roles@[j].0@ == s);
            assert(counts(m, all, roles@[j].0@));
        }
        assert forall|s: Seq<char>| string_set(set@).contains(s) implies counting.contains(s) by {
            let w = choose|w: int| 0 <= w < set@.len() && (#[trigger] set@[w])@ == s;
            assert(counts(m, all, set@[w]@));
        }
        assert(string_set(set@) =~= counting);
    }
    set
}


/// A node of the tree of access control: the roles that users and groups
/// have on one path, and the nodes of the paths below.
pub struct AclTreeNode {
    /// The roles of each user, each with the flag whether it goes on to
    /// the paths below.
    pub users: Vec<(String, Vec<(String, bool)>)>,
    /// The roles of each group.
    pub groups: Vec<(String, Vec<(String, bool)>)>,
    /// The nodes below, by the name of their path component.
    pub children: Vec<(String, AclTreeNode)>,
}

/// What a node says of its own path, as contracts see it.
pub struct NodeModel {
    pub users: Map<Seq<char>, Map<Seq<char>, bool>>,
    pub groups: Map<Seq<char>, Map<Seq<char>, bool>>,
}

/// A node that gives no roles.
pub open spec fn empty_model() -> NodeModel {
    NodeModel { users: Map::empty(), groups: Map::empty() }
}

/// What a node says of its own path.
pub open spec fn model_of(node: AclTreeNode) -> NodeModel {
    NodeModel { users: entry_map(node.users@), groups: entry_map(node.groups@) }
}

/// The pairs of names and nodes that a list of children stands for.
pub open spec fn child_pairs(children: Seq<(String, AclTreeNode)>) -> Seq<(Seq<char>, AclTreeNode)> {
    Seq::new(children.len(), |i: int| (children[i].0@, children[i].1))
}

/// The nodes below a node, by name.
pub open spec fn child_map(node: AclTreeNode) -> Map<Seq<char>, AclTreeNode> {
    pairs_map(child_pairs(node.children@))
}

/// The node that a path leads to from a node, if there is one.
pub open spec fn node_at(node: AclTreeNode, path: Seq<Seq<char>>) -> Option<AclTreeNode>
    decreases path.len(),
{
    if path.len() == 0 {
        Some(node)
    } else if child_map(node).contains_key(path[0]) {
        node_at(child_map(node)[path[0]], path.drop_first())
    } else {
        None
    }
}

/// What the node at the end of a path says, if there is such a node.
pub open spec fn model_at_node(node: AclTreeNode, path: Seq<Seq<char>>) -> Option<NodeModel> {
    match node_at(node, path) {
        Some(n) => Some(model_of(n)),
        None => None,
    }
}

/// What the node at the end of a path says; nothing where there is no
/// such node.
pub open spec fn model_or_empty(node: AclTreeNode, path: Seq<Seq<char>>) -> NodeModel {
    match node_at(node, path) {
        Some(n) => model_of(n),
        None => empty_model(),
    }
}

/// The tree below a node, as contracts see it: what each path that leads
/// to a node says.
pub open spec fn tree_model(root: AclTreeNode) -> Map<Seq<Seq<char>>, NodeModel> {
    Map::new(
        |q: Seq<Seq<char>>| node_at(root, q) is Some,
        |q: Seq<Seq<char>>| model_of(node_at(root, q)->0),
    )
}

/// A change of the roles on one path.
pub enum AclChange {
    InsertUser { name: String, role: String, propagate: bool },
    InsertGroup { name: String, role: String, propagate: bool },
    DeleteUser { name: String, role: String },
    DeleteGroup { name: String, role: String },
}

/// A change of the roles on one path, as contracts see it.
pub enum ChangeView {
    InsertUser { name: Seq<char>, role: Seq<char>, propagate: bool },
    InsertGroup { name: Seq<char>, role: Seq<char>, propagate: bool },
    DeleteUser { name: Seq<char>, role: Seq<char> },
    DeleteGroup { name: Seq<char>, role: Seq<char> },
}

impl View for AclChange {
    type V = ChangeView;

    open spec fn view(&self) -> ChangeView {
        match self {
            AclChange::InsertUser { name, role, propagate } => ChangeView::InsertUser {
                name: name@,
                role: role@,
                propagate: *propagate,
            },
            AclChange::InsertGroup { name, role, propagate } => ChangeView::InsertGroup {
                name: name@,
                role: role@,
                propagate: *propagate,
            },
            AclChange::DeleteUser { name, role } => ChangeView::DeleteUser {
                name: name@,
                role: role@,
            },
            AclChange::DeleteGroup { name, role } => ChangeView::DeleteGroup {
                name: name@,
                role: role@,
            },
        }
    }
}

impl ChangeView {
    /// Whether the change makes the node of its path where there is none.
    pub open spec fn creates(self) -> bool {
        self is InsertUser || self is InsertGroup
    }

    /// What a node says after the change.
    pub open spec fn apply(self, node: NodeModel) -> NodeModel {
        match self {
            ChangeView::InsertUser { name, role, propagate } => NodeModel {
                users: with_role(node.users, name, role, propagate),
                ..node
            },
            ChangeView::InsertGroup { name, role, propagate } => NodeModel {
                groups: with_role(node.groups, name, role, propagate),
                ..node
            },
            ChangeView::DeleteUser { name, role } => NodeModel {
                users: without_role(node.users, name, role),
                ..node
            },
            ChangeView::DeleteGroup { name, role } => NodeModel {
                groups: without_role(node.groups, name, role),
                ..node
            },
        }
    }
}

/// What the path `q` leads to after a change was made at the path `at`:
/// the node at `at` has changed, the nodes on the way to it are there, and
/// everything else is as it was. A change that makes no node does nothing
/// where `at` leads to none.
pub open spec fn changed_at(
    node: AclTreeNode,
    at: Seq<Seq<char>>,
    change: ChangeView,
    q: Seq<Seq<char>>,
) -> Option<NodeModel> {
    if change.creates() || node_at(node, at) is Some {
        if q == at {
            Some(change.apply(model_or_empty(node, at)))
        } else if q.is_prefix_of(at) {
            Some(model_or_empty(node, q))
        } else {
            model_at_node(node, q)
        }
    } else {
        model_at_node(node, q)
    }
}

/// The tree after a change was made at a path.
pub open spec fn tree_changed(
    tree: Map<Seq<Seq<char>>, NodeModel>,
    at: Seq<Seq<char>>,
    change: ChangeView,
) -> Map<Seq<Seq<char>>, NodeModel> {
    if change.creates() || tree.contains_key(at) {
        Map::new(
            |q: Seq<Seq<char>>| tree.contains_key(q) || q.is_prefix_of(at),
            |q: Seq<Seq<char>>|
                {
                    let before = if tree.contains_key(q) {
                        tree[q]
                    } else {
                        empty_model()
                    };
                    if q == at {
                        change.apply(before)
                    } else {
                        before
                    }
                },
        )
    } else {
        tree
    }
}

/// No user, no group and no child stands twice in the node, and no role
/// stands twice in the roles of a user or of a group.
pub open spec fn node_distinct(node: AclTreeNode) -> bool {
    &&& entries_distinct(node.users@)
    &&& entries_distinct(node.groups@)
    &&& forall|i: int, j: int|
        0 <= i < node.children@.len() && 0 <= j < node.children@.len() && i != j
            ==> node.children@[i].0@ != node.children@[j].0@
}

/// Nothing stands twice in the node or in a node below it.
pub open spec fn tree_distinct(node: AclTreeNode) -> bool
    decreases node,
{
    &&& node_distinct(node)
    &&& forall|i: int|
        0 <= i < node.children@.len() ==> tree_distinct((#[trigger] node.children@[i]).1)
}

/// The place of the last child with this name.
fn find_child(node: &AclTreeNode, name: &String) -> (r: Option<usize>)
    ensures
        r is Some <==> child_map(*node).contains_key(name@),
        r matches Some(i) ==> i < node.children.len() && node.children@[i as int].0@ == name@
            && child_map(*node)[name@] == node.children@[i as int].1 && forall|j: int|
            i < j < node.children.len() ==> (#[trigger] node.children@[j]).0@ != name@,
{
    let ghost pairs = child_pairs(node.children@);
    let mut i: usize = node.children.len();
    while i > 0
        invariant
            i <= node.children.len(),
            pairs == child_pairs(node.children@),
            forall|j: int| i <= j < node.children.len() ==> (#[trigger] node.children@[j]).0@ != name@,
        decreases i,
    {
        if node.children[i - 1].0 == *name {
            proof {
                let k = (i - 1) as int;
                assert(pairs[k] == (node.children@[k].0@, node.children@[k].1));
                assert forall|j: int| k < j < pairs.len() implies (#[trigger] pairs[j]).0
                    != pairs[k].0 by {
                    assert(pairs[j].0 == node.children@[j].0@);
                }
                lemma_pairs_map_last(pairs, k);
            }
            return Some(i - 1);
        }
        i -= 1;
    }
    proof {
        lemma_pairs_map_keys(pairs, name@);
        if pairs_map(pairs).contains_key(name@) {
            let k = choose|k: int| 0 <= k < pairs.len() && (#[trigger] pairs[k]).0 == name@;
            assert(node.children@[k].0@ == name@);
        }
    }
    None
}

impl AclTreeNode {
    /// A node that gives no roles and has no nodes below.
    pub fn new() -> (node: Self)
        ensures
            node.users@.len() == 0,
            node.groups@.len() == 0,
            node.children@.len() == 0,
            model_of(node) == empty_model(),
            forall|q: Seq<Seq<char>>| q.len() > 0 ==> #[trigger] node_at(node, q) is None,
            tree_distinct(node),
    {
        let node = AclTreeNode { users: Vec::new(), groups: Vec::new(), children: Vec::new() };
        proof {
            assert(entry_pairs(node.users@) =~= Seq::empty());
            assert(entry_pairs(node.groups@) =~= Seq::empty());
            assert(child_pairs(node.children@) =~= Seq::empty());
            assert(entry_map(node.users@) =~= Map::empty());
            assert(entry_map(node.groups@) =~= Map::empty());
            assert(child_map(node) =~= Map::empty());
        }
        node
    }

    /// The roles of a user that count on this node: the user's own roles
    /// if any of them counts, else those of the user's groups.
    pub fn extract_roles(&self, user: &str, all: bool) -> (set: Vec<String>)
        ensures
            string_set(set@) == extract_spec(roles_of(entry_map(self.users@), user@), all),
            strings_distinct(set@),
    {
        let user_roles = self.extract_user_roles(user, all);
        if user_roles.len() > 0 {
            return user_roles;
        }
        let group_roles = self.extract_group_roles(user, all);
        proof {
            assert(string_set(user_roles@) =~= string_set(group_roles@));
        }
        group_roles
    }

    /// The user's own roles that count on this node.
    pub fn extract_user_roles(&self, user: &str, all: bool) -> (set: Vec<String>)
        ensures
            string_set(set@) == extract_spec(roles_of(entry_map(self.users@), user@), all),
            strings_distinct(set@),
    {
        let key = String::from_str(user);
        match find_entry(&self.users, &key) {
            Some(i) => extract_from(&self.users[i].1, all),
            None => {
                let set: Vec<String> = Vec::new();
                proof {
                    assert(string_set(set@) =~= extract_spec(
                        Map::<Seq<char>, bool>::empty(),
                        all,
                    ));
                }
                set
            },
        }
    }

    /// The roles that a user has through groups: none, as no user is known
    /// to be a member of a group.
    pub fn extract_group_roles(&self, _user: &str, all: bool) -> (set: Vec<String>)
        ensures
            set@.len() == 0,
            string_set(set@) == Set::<Seq<char>>::empty(),
    {
        let set: Vec<String> = Vec::new();
        proof {
            assert(string_set(set@) =~= Set::<Seq<char>>::empty());
        }
        set
    }

    /// Takes a role from a group on this node.
    pub fn delete_group_role(&mut self, group: &str, role: &str)
        ensures
            entry_map(final(self).groups@) == without_role(
                entry_map(old(self).groups@),
                group@,
                role@,
            ),
            final(self).users == old(self).users,
            final(self).children == old(self).children,
            entries_distinct(old(self).groups@) ==> entries_distinct(final(self).groups@),
    {
        delete_entry_role(&mut self.groups, &String::from_str(group), &String::from_str(role));
    }

    /// Takes a role from a user on this node.
    pub fn delete_user_role(&mut self, userid: &str, role: &str)
        ensures
            entry_map(final(self).users@) == without_role(
                entry_map(old(self).users@),
                userid@,
                role@,
            ),
            final(self).groups == old(self).groups,
            final(self).children == old(self).children,
            entries_distinct(old(self).users@) ==> entries_distinct(final(self).users@),
    {
        delete_entry_role(&mut self.users, &String::from_str(userid), &String::from_str(role));
    }

    /// Gives a role to a group on this node.
    pub fn insert_group_role(&mut self, group: String, role: String, propagate: bool)
        ensures
            entry_map(final(self).groups@) == with_role(
                entry_map(old(self).groups@),
                group@,
                role@,
                propagate,
            ),
            final(self).users == old(self).users,
            final(self).children == old(self).children,
            entries_distinct(old(self).groups@) ==> entries_distinct(final(self).groups@),
    {
        insert_entry_role(&mut self.groups, group, role, propagate);
    }

    /// Gives a role to a user on this node.
    pub fn insert_user_role(&mut self, user: String, role: String, propagate: bool)
        ensures
            entry_map(final(self).users@) == with_role(
                entry_map(old(self).users@),
                user@,
                role@,
                propagate,
            ),
            final(self).groups == old(self).groups,
            final(self).children == old(self).children,
            entries_distinct(old(self).users@) ==> entries_distinct(final(self).users@),
    {
        insert_entry_role(&mut self.users, user, role, propagate);
    }

    /// Makes a change on this node.
    fn change(&mut self, change: &AclChange)
        ensures
            model_of(*final(self)) == change@.apply(model_of(*old(self))),
            final(self).children == old(self).children,
            tree_distinct(*old(self)) ==> tree_distinct(*final(self)),
    {
        match change {
            AclChange::InsertUser { name, role, propagate } => {
                self.insert_user_role(name.clone(), role.clone(), *propagate);
            },
            AclChange::InsertGroup { name, role, propagate } => {
                self.insert_group_role(name.clone(), role.clone(), *propagate);
            },
            AclChange::DeleteUser { name, role } => {
                self.delete_user_role(name.as_str(), role.as_str());
            },
            AclChange::DeleteGroup { name, role } => {
                self.delete_group_role(name.as_str(), role.as_str());
            },
        }
    }
}

/// Two paths that begin alike compare as what follows their beginning.
pub proof fn lemma_prefix_step(q: Seq<Seq<char>>, rest: Seq<Seq<char>>)
    requires
        q.len() > 0,
        rest.len() > 0,
        q[0] == rest[0],
    ensures
        q.is_prefix_of(rest) <==> q.drop_first().is_prefix_of(rest.drop_first()),
        q == rest <==> q.drop_first() == rest.drop_first(),
{
    let q1 = q.drop_first();
    let tail = rest.drop_first();
    if q1 == tail {
        assert(q =~= seq![q[0]] + q1);
        assert(rest =~= seq![rest[0]] + tail);
    }
    if q.is_prefix_of(rest) {
        assert(q1.len() <= tail.len());
        assert forall|k: int| 0 <= k < q1.len() implies q1[k] == tail[k] by {
            assert(q1[k] == q[k + 1]);
            assert(q[k + 1] == rest.subrange(0, q.len() as int)[k + 1]);
        }
        assert(q1 =~= tail.subrange(0, q1.len() as int));
    }
    if q1.is_prefix_of(tail) {
        assert(q.len() <= rest.len());
        assert forall|k: int| 0 <= k < q.len() implies q[k] == rest[k] by {
            if k > 0 {
                assert(q[k] == q1[k - 1]);
                assert(q1[k - 1] == tail.subrange(0, q1.len() as int)[k - 1]);
            }
        }
        assert(q =~= rest.subrange(0, q.len() as int));
    }
}

/// Makes a change at the path that goes on from `depth`, seen from `node`.
fn change_below(node: AclTreeNode, path: &Vec<String>, depth: usize, change: &AclChange) -> (r:
    AclTreeNode)
    requires
        depth <= path.len(),
    ensures
        forall|q: Seq<Seq<char>>| #[trigger]
            model_at_node(r, q) == changed_at(
                node,
                string_views(path@).skip(depth as int),
                change@,
                q,
            ),
        tree_distinct(node) ==> tree_distinct(r),
    decreases path.len() - depth,
{
    let ghost rest = string_views(path@).skip(depth as int);
    let mut node = node;
    let ghost before = node;
    if depth == path.len() {
        node.change(change);
        proof {
            assert(rest =~= Seq::<Seq<char>>::empty());
            assert forall|q: Seq<Seq<char>>| #[trigger]
                model_at_node(node, q) == changed_at(before, rest, change@, q) by {
                if q.len() == 0 {
                    assert(q =~= rest);
                } else {
                    assert(child_map(node) == child_map(before));
                    assert(!q.is_prefix_of(rest));
                }
            }
        }
        return node;
    }
    let name = &path[depth];
    let ghost c = name@;
    let ghost tail = string_views(path@).skip(depth + 1);
    proof {
        assert(rest[0] == c);
        assert(rest.drop_first() =~= tail);
    }
    match find_child(&node, name) {
        Some(i) => {
            let ghost pairs = child_pairs(before.children@);
            let (key, child) = node.children.remove(i);
            let ghost old_child = child;
            let changed = change_below(child, path, depth + 1, change);
            node.children.insert(i, (key, changed));
            proof {
                if tree_distinct(before) {
                    let kids = before.children@;
                    let now = node.children@;
                    assert(tree_distinct(kids[i as int].1));
                    assert forall|a: int, b: int|
                        0 <= a < now.len() && 0 <= b < now.len() && a != b implies now[a].0@
                        != now[b].0@ by {
                        assert(now[a].0 == kids[a].0);
                        assert(now[b].0 == kids[b].0);
                    }
                    assert forall|a: int| 0 <= a < now.len() implies tree_distinct(
                        (#[trigger] now[a]).1,
                    ) by {
                        if a != i {
                            assert(now[a] == kids[a]);
                            assert(tree_distinct(kids[a].1));
                        }
                    }
                }
                assert(pairs[i as int].0 == c);
                assert forall|j: int| i < j < pairs.len() implies (#[trigger] pairs[j]).0
                    != pairs[i as int].0 by {
                    assert(pairs[j].0 == before.children@[j].0@);
                }
                lemma_pairs_map_update(pairs, i as int, changed);
                assert(child_pairs(node.children@) =~= pairs.update(i as int, (c, changed)));
                assert(child_map(node) == child_map(before).insert(c, changed));
                assert(child_map(before)[c] == old_child);
                assert forall|q: Seq<Seq<char>>| #[trigger]
                    model_at_node(node, q) == changed_at(before, rest, change@, q) by {
                    if q.len() == 0 {
                        assert(q.is_prefix_of(rest));
                        assert(model_of(node) == model_of(before));
                    } else if q[0] == c {
                        let q1 = q.drop_first();
                        assert(model_at_node(changed, q1) == changed_at(
                            old_child,
                            tail,
                            change@,
                            q1,
                        ));
                        lemma_prefix_step(q, rest);
                    } else {
                        assert(!q.is_prefix_of(rest)) by {
                            if q.is_prefix_of(rest) {
                                assert(q[0] == rest[0]);
                            }
                        }
                    }
                }
            }
            node
        },
        None => {
            let creates: bool = match change {
                AclChange::InsertUser { .. } => true,
                AclChange::InsertGroup { .. } => true,
                _ => false,
            };
            if !creates {
                return node;
            }
            let fresh = AclTreeNode::new();
            let ghost fresh_node = fresh;
            let changed = change_below(fresh, path, depth + 1, change);
            let ghost pairs = child_pairs(before.children@);
            node.children.push((name.clone(), changed));
            proof {
                if tree_distinct(before) {
                    let kids = before.children@;
                    let now = node.children@;
                    lemma_pairs_map_keys(pairs, c);
                    assert forall|a: int| 0 <= a < kids.len() implies (#[trigger] kids[a]).0@
                        != c by {
                        assert(pairs[a].0 == kids[a].0@);
                    }
                    assert forall|a: int, b: int|
                        0 <= a < now.len() && 0 <= b < now.len() && a != b implies now[a].0@
                        != now[b].0@ by {
                        if a < kids.len() {
                            assert(now[a] == kids[a]);
                        }
                        if b < kids.len() {
                            assert(now[b] == kids[b]);
                        }
                    }
                    assert forall|a: int| 0 <= a < now.len() implies tree_distinct(
                        (#[trigger] now[a]).1,
                    ) by {
                        if a < kids.len() {
                            assert(now[a] == kids[a]);
                            assert(tree_distinct(kids[a].1));
                        }
                    }
                }
                assert(child_pairs(node.children@).drop_last() =~= pairs);
                assert(child_pairs(node.children@).last() == (c, changed));
                assert(child_map(node) == child_map(before).insert(c, changed));
                assert forall|q: Seq<Seq<char>>| #[trigger]
                    model_at_node(node, q) == changed_at(before, rest, change@, q) by {
                    if q.len() == 0 {
                        assert(q.is_prefix_of(rest));
                        assert(model_of(node) == model_of(before));
                    } else if q[0] == c {
                        let q1 = q.drop_first();
                        assert(model_at_node(changed, q1) == changed_at(
                            fresh_node,
                            tail,
                            change@,
                            q1,
                        ));
                        assert(node_at(before, q) is None);
                        assert(node_at(before, rest) is None);
                        if q1.len() > 0 {
                            assert(node_at(fresh_node, q1) is None);
                        }
                        if tail.len() > 0 {
                            assert(node_at(fresh_node, tail) is None);
                        }
                        lemma_prefix_step(q, rest);
                    } else {
                        assert(!q.is_prefix_of(rest)) by {
                            if q.is_prefix_of(rest) {
                                assert(q[0] == rest[0]);
                            }
                        }
                    }
                }
            }
            node
        },
    }
}


/// The tree of access control.
pub struct AclTree {
    /// The node of the path `/`.
    pub root: AclTreeNode,
}

impl View for AclTree {
    type V = Map<Seq<Seq<char>>, NodeModel>;

    open spec fn view(&self) -> Map<Seq<Seq<char>>, NodeModel> {
        tree_model(self.root)
    }
}

/// The roles of a user on a path, looking at its first `k` components and
/// at the root: the roles that count on the longest of these paths on
/// which roles of the user count at all.
pub open spec fn roles_upto(
    tree: Map<Seq<Seq<char>>, NodeModel>,
    user: Seq<char>,
    path: Seq<Seq<char>>,
    k: int,
) -> Set<Seq<char>>
    decreases k + 1,
{
    if k < 0 {
        Set::empty()
    } else {
        let below = roles_upto(tree, user, path, k - 1);
        let p = path.take(k);
        if tree.contains_key(p) {
            let here = extract_spec(roles_of(tree[p].users, user), k == path.len());
            if exists|r: Seq<char>| here.contains(r) {
                here
            } else {
                below
            }
        } else {
            below
        }
    }
}

/// The roles of a user on a path.
pub open spec fn roles_spec(tree: Map<Seq<Seq<char>>, NodeModel>, user: Seq<char>, path: Seq<Seq<char>>) -> Set<
    Seq<char>,
> {
    roles_upto(tree, user, path, path.len() as int)
}

/// Going one component further from the end of a path.
pub proof fn lemma_node_at_push(root: AclTreeNode, p: Seq<Seq<char>>, c: Seq<char>)
    ensures
        node_at(root, p.push(c)) == match node_at(root, p) {
            Some(n) => if child_map(n).contains_key(c) {
                Some(child_map(n)[c])
            } else {
                None
            },
            None => None,
        },
    decreases p.len(),
{
    let q = p.push(c);
    if p.len() == 0 {
        assert(q[0] == c);
        assert(q.drop_first() =~= Seq::<Seq<char>>::empty());
        if child_map(root).contains_key(c) {
            assert(node_at(child_map(root)[c], q.drop_first()) == Some(child_map(root)[c]));
        }
    } else {
        assert(q[0] == p[0]);
        assert(q.drop_first() =~= p.drop_first().push(c));
        if child_map(root).contains_key(p[0]) {
            lemma_node_at_push(child_map(root)[p[0]], p.drop_first(), c);
        }
    }
}

/// Where a path leads to no node, no longer path leads to one.
pub proof fn lemma_missing_stays(root: AclTreeNode, path: Seq<Seq<char>>, k: int, j: int)
    requires
        0 <= k <= j <= path.len(),
        node_at(root, path.take(k)) is None,
    ensures
        node_at(root, path.take(j)) is None,
    decreases j - k,
{
    if k < j {
        lemma_missing_stays(root, path, k, j - 1);
        assert(path.take(j) =~= path.take(j - 1).push(path[j - 1]));
        lemma_node_at_push(root, path.take(j - 1), path[j - 1]);
    }
}

/// Paths that lead to no node add nothing to the roles of a user.
pub proof fn lemma_roles_missing(root: AclTreeNode, user: Seq<char>, path: Seq<Seq<char>>, k: int, j: int)
    requires
        0 <= k <= j <= path.len(),
        k < path.len() ==> node_at(root, path.take(k + 1)) is None,
    ensures
        roles_upto(tree_model(root), user, path, j) == roles_upto(tree_model(root), user, path, k),
    decreases j - k,
{
    if k < j {
        lemma_roles_missing(root, user, path, k, j - 1);
        lemma_missing_stays(root, path, k + 1, j);
    }
}

impl AclTree {
    /// What holds of a tree that was made by reading a text or by giving
    /// and taking roles: no user, group, role or node stands twice in it.
    /// The text of such a tree goes by its roles alone.
    pub open spec fn wf(&self) -> bool {
        tree_distinct(self.root)
    }

    /// A tree that gives no roles.
    pub fn new() -> (tree: Self)
        ensures
            tree@ == Map::<Seq<Seq<char>>, NodeModel>::empty().insert(
                Seq::<Seq<char>>::empty(),
                empty_model(),
            ),
            tree.wf(),
    {
        let tree = AclTree { root: AclTreeNode::new() };
        proof {
            assert forall|q: Seq<Seq<char>>| tree@.contains_key(q) <==> q
                == Seq::<Seq<char>>::empty() by {
                if q.len() == 0 {
                    assert(q =~= Seq::<Seq<char>>::empty());
                } else {
                    assert(node_at(tree.root, q) is None);
                }
            }
            assert(tree@ =~= Map::<Seq<Seq<char>>, NodeModel>::empty().insert(
                Seq::<Seq<char>>::empty(),
                empty_model(),
            ));
        }
        tree
    }

    /// The node that the components of a path lead to, if there is one.
    pub fn get_node(&self, path: &Vec<String>) -> (r: Option<&AclTreeNode>)
        ensures
            match node_at(self.root, string_views(path@)) {
                Some(node) => r is Some && *r->0 == node,
                None => r is None,
            },
    {
        let ghost names = string_views(path@);
        let mut node: &AclTreeNode = &self.root;
        let mut i: usize = 0;
        proof {
            assert(names.skip(0) =~= names);
        }
        while i < path.len()
            invariant
                i <= path.len(),
                names == string_views(path@),
                node_at(self.root, names) == node_at(*node, names.skip(i as int)),
            decreases path.len() - i,
        {
            proof {
                assert(names.skip(i as int)[0] == path@[i as int]@);
                assert(names.skip(i as int).drop_first() =~= names.skip(i + 1));
            }
            match find_child(node, &path[i]) {
                Some(k) => {
                    node = &node.children[k].1;
                },
                None => {
                    return None;
                },
            }
            i += 1;
        }
        Some(node)
    }

    /// Makes a change at the given components of a path.
    fn apply_change(&mut self, components: &Vec<String>, change: &AclChange)
        ensures
            final(self)@ == tree_changed(old(self)@, string_views(components@), change@),
            old(self).wf() ==> final(self).wf(),
    {
        let ghost before = self.root;
        let ghost at = string_views(components@);
        let mut root = AclTreeNode::new();
        std::mem::swap(&mut self.root, &mut root);
        self.root = change_below(root, components, 0, change);
        proof {
            assert(at.skip(0) =~= at);
            let after = self@;
            let want = tree_changed(tree_model(before), at, change@);
            assert forall|q: Seq<Seq<char>>| after.contains_key(q) <==> want.contains_key(q) by {
                assert(model_at_node(self.root, q) == changed_at(before, at, change@, q));
            }
            assert forall|q: Seq<Seq<char>>| after.contains_key(q) implies after[q] == want[q] by {
                assert(model_at_node(self.root, q) == changed_at(before, at, change@, q));
            }
            assert(after =~= want);
        }
    }

    /// Takes a role from a group on a path. Nothing happens where the tree
    /// has no node for the path.
    pub fn delete_group_role(&mut self, path: &str, group: &str, role: &str)
        ensures
            final(self)@ == tree_changed(
                old(self)@,
                acl_path_spec(path@),
                ChangeView::DeleteGroup { name: group@, role: role@ },
            ),
            old(self).wf() ==> final(self).wf(),
    {
        let components = split_acl_path(path);
        let change = AclChange::DeleteGroup {
            name: String::from_str(group),
            role: String::from_str(role),
        };
        self.apply_change(&components, &change);
    }

    /// Takes a role from a user on a path. Nothing happens where the tree
    /// has no node for the path.
    pub fn delete_user_role(&mut self, path: &str, userid: &str, role: &str)
        ensures
            final(self)@ == tree_changed(
                old(self)@,
                acl_path_spec(path@),
                ChangeView::DeleteUser { name: userid@, role: role@ },
            ),
            old(self).wf() ==> final(self).wf(),
    {
        let components = split_acl_path(path);
        let change = AclChange::DeleteUser {
            name: String::from_str(userid),
            role: String::from_str(role),
        };
        self.apply_change(&components, &change);
    }

    /// Gives a role to a group on a path; the nodes of the path are made
    /// where they are missing.
    pub fn insert_group_role(&mut self, path: &str, group: &str, role: &str, propagate: bool)
        ensures
            final(self)@ == tree_changed(
                old(self)@,
                acl_path_spec(path@),
                ChangeView::InsertGroup { name: group@, role: role@, propagate },
            ),
            old(self).wf() ==> final(self).wf(),
    {
        let components = split_acl_path(path);
        let change = AclChange::InsertGroup {
            name: String::from_str(group),
            role: String::from_str(role),
            propagate,
        };
        self.apply_change(&components, &change);
    }

    /// Gives a role to a user on a path; the nodes of the path are made
    /// where they are missing.
    pub fn insert_user_role(&mut self, path: &str, user: &str, role: &str, propagate: bool)
        ensures
            final(self)@ == tree_changed(
                old(self)@,
                acl_path_spec(path@),
                ChangeView::InsertUser { name: user@, role: role@, propagate },
            ),
            old(self).wf() ==> final(self).wf(),
    {
        let components = split_acl_path(path);
        let change = AclChange::InsertUser {
            name: String::from_str(user),
            role: String::from_str(role),
            propagate,
        };
        self.apply_change(&components, &change);
    }

    /// The roles of a user on a path, given by its components: the roles
    /// that count on the longest part of the path on which roles of the
    /// user count at all. On the path itself all roles count, on the paths
    /// above it those that go on to the paths below.
    pub fn roles(&self, userid: &str, path: &Vec<String>) -> (role_set: Vec<String>)
        ensures
            string_set(role_set@) == roles_spec(self@, userid@, string_views(path@)),
            strings_distinct(role_set@),
    {
        let ghost tree = self@;
        let ghost comps = string_views(path@);
        let mut node: &AclTreeNode = &self.root;
        let mut role_set = node.extract_roles(userid, path.len() == 0);
        proof {
            assert(comps.take(0) =~= Seq::<Seq<char>>::empty());
            assert(node_at(self.root, comps.take(0)) == Some(self.root));
            assert(tree.contains_key(comps.take(0)));
            let here = extract_spec(roles_of(tree[comps.take(0)].users, userid@), 0 == comps.len());
            assert(string_set(role_set@) == here);
            if !(exists|r: Seq<char>| here.contains(r)) {
                assert(here =~= Set::<Seq<char>>::empty());
            }
            assert(roles_upto(tree, userid@, comps, -1) == Set::<Seq<char>>::empty());
        }
        let mut pos: usize = 0;
        while pos < path.len()
            invariant
                pos <= path.len(),
                tree == self@,
                comps == string_views(path@),
                node_at(self.root, comps.take(pos as int)) == Some(*node),
                string_set(role_set@) == roles_upto(tree, userid@, comps, pos as int),
                strings_distinct(role_set@),
            decreases path.len() - pos,
        {
            let last_comp: bool = pos + 1 == path.len();
            proof {
                assert(comps.take(pos + 1) =~= comps.take(pos as int).push(comps[pos as int]));
                assert(comps[pos as int] == path@[pos as int]@);
                lemma_node_at_push(self.root, comps.take(pos as int), comps[pos as int]);
            }
            match find_child(node, &path[pos]) {
                None => {
                    proof {
                        lemma_roles_missing(
                            self.root,
                            userid@,
                            comps,
                            pos as int,
                            comps.len() as int,
                        );
                    }
                    return role_set;
                },
                Some(i) => {
                    node = &node.children[i].1;
                },
            }
            let new_set = node.extract_roles(userid, last_comp);
            proof {
                let p = comps.take(pos + 1);
                assert(tree.contains_key(p));
                assert(tree[p] == model_of(*node));
                let here = extract_spec(roles_of(tree[p].users, userid@), pos + 1 == comps.len());
                assert(string_set(new_set@) == here);
                if new_set@.len() > 0 {
                    assert(string_set(new_set@).contains(new_set@[0]@));
                } else {
                    assert(!(exists|r: Seq<char>| here.contains(r)));
                }
            }
            if new_set.len() > 0 {
                role_set = new_set;
            }
            pos += 1;
        }
        role_set
    }
}


/// What is wrong with a line of the access control list.
#[derive(Clone, Copy, Debug, PartialEq, Eq, Structural)]
pub enum AclErrorKind {
    /// The line does not have five items between colons.
    WrongNumberOfItems,
    /// The line does not start with `acl`.
    MissingPrefix,
    /// The flag is neither `0` nor `1`.
    BadPropagateFlag,
    /// A role of the line is not a role.
    UnknownRole,
}

/// A line of the access control list that cannot be read.
#[derive(Clone, Copy, Debug, PartialEq, Eq, Structural)]
pub struct AclError {
    /// The number of the line, counted from one.
    pub line: usize,
    pub kind: AclErrorKind,
}

/// The items of a list between commas, each without white space around
/// it.
pub open spec fn trimmed_items(s: Seq<char>) -> Seq<Seq<char>> {
    Seq::new(split_spec(s, ',').len(), |i: int| trim_spec(split_spec(s, ',')[i]))
}

/// The change that one user or group and one role of a line stand for: a
/// name that begins with `@` is that of a group.
pub open spec fn entry_change(who: Seq<char>, role: Seq<char>, propagate: bool) -> ChangeView {
    if who.len() > 0 && who[0] == '@' {
        ChangeView::InsertGroup { name: who.skip(1), role, propagate }
    } else {
        ChangeView::InsertUser { name: who, role, propagate }
    }
}

/// The changes that one user or group of a line stands for: one for each
/// role.
pub open spec fn changes_of(who: Seq<char>, roles: Seq<Seq<char>>, propagate: bool) -> Seq<ChangeView> {
    Seq::new(roles.len(), |j: int| entry_change(who, roles[j], propagate))
}

/// The changes that a line stands for: those of its users and groups, one
/// after the other.
pub open spec fn all_changes(whos: Seq<Seq<char>>, roles: Seq<Seq<char>>, propagate: bool) -> Seq<
    ChangeView,
>
    decreases whos.len(),
{
    if whos.len() == 0 {
        Seq::<ChangeView>::empty()
    } else {
        all_changes(whos.drop_last(), roles, propagate) + changes_of(whos.last(), roles, propagate)
    }
}

/// The tree after changes were made at a path, one after the other.
pub open spec fn apply_changes(
    tree: Map<Seq<Seq<char>>, NodeModel>,
    at: Seq<Seq<char>>,
    changes: Seq<ChangeView>,
) -> Map<Seq<Seq<char>>, NodeModel>
    decreases changes.len(),
{
    if changes.len() == 0 {
        tree
    } else {
        tree_changed(apply_changes(tree, at, changes.drop_last()), at, changes.last())
    }
}

/// Whether every role of a list is a role.
pub open spec fn roles_known(roles: Seq<Seq<char>>) -> bool {
    forall|j: int| 0 <= j < roles.len() ==> role_privileges_spec(#[trigger] roles[j]) is Some
}

/// What a line of the access control list stands for: a path and the
/// changes to make there. The line reads
/// `acl:<flag>:<path>:<users and groups>:<roles>`.
pub open spec fn line_spec(line: Seq<char>) -> Result<(Seq<Seq<char>>, Seq<ChangeView>), AclErrorKind> {
    let items = split_spec(line, ':');
    if items.len() != 5 {
        Err(AclErrorKind::WrongNumberOfItems)
    } else if items[0] != "acl"@ {
        Err(AclErrorKind::MissingPrefix)
    } else if items[1] != "0"@ && items[1] != "1"@ {
        Err(AclErrorKind::BadPropagateFlag)
    } else if !roles_known(trimmed_items(items[4])) {
        Err(AclErrorKind::UnknownRole)
    } else {
        Ok(
            (
                acl_path_spec(items[2]),
                all_changes(trimmed_items(items[3]), trimmed_items(items[4]), items[1] != "0"@),
            ),
        )
    }
}

/// The tree that a tree with no roles becomes through the first `k` lines
/// of a text. Empty lines are passed over; the first line that cannot be
/// read ends the reading.
pub open spec fn raw_tree(lines: Seq<Seq<char>>, k: int) -> Result<
    Map<Seq<Seq<char>>, NodeModel>,
    AclError,
>
    decreases k,
{
    if k <= 0 {
        Ok(
            Map::<Seq<Seq<char>>, NodeModel>::empty().insert(
                Seq::<Seq<char>>::empty(),
                empty_model(),
            ),
        )
    } else {
        match raw_tree(lines, k - 1) {
            Err(e) => Err(e),
            Ok(tree) => {
                let line = trim_spec(lines[k - 1]);
                if line.len() == 0 {
                    Ok(tree)
                } else {
                    match line_spec(line) {
                        Err(kind) => Err(AclError { line: k as usize, kind }),
                        Ok(parsed) => Ok(apply_changes(tree, parsed.0, parsed.1)),
                    }
                }
            },
        }
    }
}

/// The tree that a text of the access control list stands for.
pub open spec fn from_raw_spec(raw: Seq<char>) -> Result<Map<Seq<Seq<char>>, NodeModel>, AclError> {
    raw_tree(split_spec(raw, '\n'), split_spec(raw, '\n').len() as int)
}

/// Once a line cannot be read, the lines behind it do not matter.
pub proof fn lemma_raw_tree_fails(lines: Seq<Seq<char>>, k: int, j: int)
    requires
        0 <= k <= j,
        raw_tree(lines, k) is Err,
    ensures
        raw_tree(lines, j) == raw_tree(lines, k),
    decreases j - k,
{
    if k < j {
        lemma_raw_tree_fails(lines, k, j - 1);
    }
}

/// The items of a list between commas, each without white space around
/// it.
fn split_trimmed(s: &Vec<char>) -> (items: Vec<Vec<char>>)
    ensures
        views(items@) == trimmed_items(s@),
        items.len() >= 1,
{
    let pieces = split(s, ',');
    let mut items: Vec<Vec<char>> = Vec::new();
    let mut i: usize = 0;
    while i < pieces.len()
        invariant
            i <= pieces.len(),
            views(pieces@) == split_spec(s@, ','),
            items.len() == i,
            forall|k: int| 0 <= k < i ==> (#[trigger] items@[k])@ == trimmed_items(s@)[k],
        decreases pieces.len() - i,
    {
        assert(views(pieces@)[i as int] == pieces@[i as int]@);
        items.push(trim(&pieces[i]));
        i += 1;
    }
    assert(views(items@) =~= trimmed_items(s@));
    items
}

impl AclTree {
    /// Reads one line of the access control list into the tree.
    fn parse_acl_line(&mut self, line: &Vec<char>) -> (r: Result<(), AclErrorKind>)
        ensures
            match line_spec(line@) {
                Err(kind) => r == Err::<(), AclErrorKind>(kind),
                Ok(parsed) => r is Ok && final(self)@ == apply_changes(
                    old(self)@,
                    parsed.0,
                    parsed.1,
                ),
            },
            old(self).wf() ==> final(self).wf(),
    {
        let items = split(line, ':');
        if items.len() != 5 {
            return Err(AclErrorKind::WrongNumberOfItems);
        }
        proof {
            assert(views(items@)[0] == items@[0]@);
            assert(views(items@)[1] == items@[1]@);
            assert(views(items@)[2] == items@[2]@);
            assert(views(items@)[3] == items@[3]@);
            assert(views(items@)[4] == items@[4]@);
        }
        if !crate::text::same_chars(&items[0], &to_chars("acl")) {
            return Err(AclErrorKind::MissingPrefix);
        }
        let propagate: bool = if crate::text::same_chars(&items[1], &to_chars("0")) {
            false
        } else if crate::text::same_chars(&items[1], &to_chars("1")) {
            true
        } else {
            return Err(AclErrorKind::BadPropagateFlag);
        };
        let path = split_acl_path(string_of(&items[2]).as_str());
        let whos = split_trimmed(&items[3]);
        let roles = split_trimmed(&items[4]);
        let ghost wv = views(whos@);
        let ghost rv = views(roles@);
        let ghost at = string_views(path@);
        let mut j: usize = 0;
        while j < roles.len()
            invariant
                j <= roles.len(),
                rv == views(roles@),
                views(items@) == split_spec(line@, ':'),
                items.len() == 5,
                items@[0]@ == "acl"@,
                items@[1]@ == "0"@ || items@[1]@ == "1"@,
                rv == trimmed_items(items@[4]@),
                forall|k: int| 0 <= k < j ==> role_privileges_spec(#[trigger] rv[k]) is Some,
            decreases roles.len() - j,
        {
            assert(rv[j as int] == roles@[j as int]@);
            if role_privileges(string_of(&roles[j]).as_str()).is_none() {
                proof {
                    assert(views(items@)[0] == items@[0]@);
                    assert(views(items@)[1] == items@[1]@);
                    assert(views(items@)[4] == items@[4]@);
                    assert(role_privileges_spec(rv[j as int]) is None);
                    assert(!roles_known(rv));
                }
                return Err(AclErrorKind::UnknownRole);
            }
            j += 1;
        }
        let ghost start = self@;
        let mut i: usize = 0;
        proof {
            assert(wv.take(0) =~= Seq::<Seq<char>>::empty());
        }
        while i < whos.len()
            invariant
                i <= whos.len(),
                wv == views(whos@),
                rv == views(roles@),
                at == string_views(path@),
                self@ == apply_changes(start, at, all_changes(wv.take(i as int), rv, propagate)),
                old(self).wf() ==> self.wf(),
            decreases whos.len() - i,
        {
            let who = &whos[i];
            let ghost done = all_changes(wv.take(i as int), rv, propagate);
            proof {
                let t = wv.take(i + 1);
                assert(t.drop_last() =~= wv.take(i as int));
                assert(t.last() == who@);
                assert(done + changes_of(who@, rv, propagate).take(0) =~= done);
            }
            let is_group: bool = who.len() > 0 && who[0] == '@';
            let name: String = if is_group {
                let n = sub_chars(who, 1, who.len());
                assert(n@ =~= who@.skip(1));
                string_of(&n)
            } else {
                string_of(who)
            };
            let mut k: usize = 0;
            while k < roles.len()
                invariant
                    k <= roles.len(),
                    rv == views(roles@),
                    at == string_views(path@),
                    is_group == (who@.len() > 0 && who@[0] == '@'),
                    name@ == if is_group {
                        who@.skip(1)
                    } else {
                        who@
                    },
                    self@ == apply_changes(
                        start,
                        at,
                        done + changes_of(who@, rv, propagate).take(k as int),
                    ),
                    old(self).wf() ==> self.wf(),
                decreases roles.len() - k,
            {
                let role = string_of(&roles[k]);
                let change = if is_group {
                    AclChange::InsertGroup { name: name.clone(), role, propagate }
                } else {
                    AclChange::InsertUser { name: name.clone(), role, propagate }
                };
                proof {
                    let all = changes_of(who@, rv, propagate);
                    assert(rv[k as int] == roles@[k as int]@);
                    assert(change@ == all[k as int]);
                    let upto = done + all.take(k + 1);
                    assert(upto.drop_last() =~= done + all.take(k as int));
                    assert(upto.last() == all[k as int]);
                }
                self.apply_change(&path, &change);
                k += 1;
            }
            proof {
                let all = changes_of(who@, rv, propagate);
                assert(all.take(roles.len() as int) =~= all);
            }
            i += 1;
        }
        proof {
            assert(wv.take(whos.len() as int) =~= wv);
        }
        Ok(())
    }

    /// Reads a text of the access control list.
    ///
    /// Fails at the first line that cannot be read, with the number of
    /// the line.
    pub fn from_raw(raw: &str) -> (r: Result<Self, AclError>)
        ensures
            match from_raw_spec(raw@) {
                Ok(tree) => r is Ok && r->Ok_0@ == tree,
                Err(e) => r matches Err(x) && x == e,
            },
            r matches Ok(tree) ==> tree.wf(),
    {
        let chars = to_chars(raw);
        let lines = split(&chars, '\n');
        let ghost lv = views(lines@);
        let mut tree = AclTree::new();
        let mut i: usize = 0;
        while i < lines.len()
            invariant
                i <= lines.len(),
                lv == views(lines@),
                lv == split_spec(raw@, '\n'),
                raw_tree(lv, i as int) == Ok::<Map<Seq<Seq<char>>, NodeModel>, AclError>(tree@),
                tree.wf(),
            decreases lines.len() - i,
        {
            assert(lv[i as int] == lines@[i as int]@);
            let line = trim(&lines[i]);
            if line.len() > 0 {
                match tree.parse_acl_line(&line) {
                    Err(kind) => {
                        proof {
                            lemma_raw_tree_fails(lv, i + 1, lv.len() as int);
                        }
                        return Err(AclError { line: i + 1, kind });
                    },
                    Ok(_) => {},
                }
            }
            i += 1;
        }
        Ok(tree)
    }

    /// Reads a text of the access control list, and takes the digest of
    /// the text.
    pub fn load(raw: &str) -> (r: Result<(Self, [u8; 32]), AclError>)
        ensures
            match from_raw_spec(raw@) {
                Ok(tree) => r is Ok && r->Ok_0.0@ == tree && r->Ok_0.1@ == sha256_spec(
                    raw.spec_bytes(),
                ),
                Err(e) => r matches Err(x) && x == e,
            },
            r matches Ok(done) ==> done.0.wf(),
    {
        let digest = digest_of_text(raw);
        let tree = AclTree::from_raw(raw)?;
        Ok((tree, digest))
    }
}

/// Reads the access control list from the text of its file, and takes the
/// digest of the text.
pub fn config(raw: &str) -> (r: Result<(AclTree, [u8; 32]), AclError>)
    ensures
        match from_raw_spec(raw@) {
            Ok(tree) => r is Ok && r->Ok_0.0@ == tree && r->Ok_0.1@ == sha256_spec(
                raw.spec_bytes(),
            ),
            Err(e) => r matches Err(x) && x == e,
        },
        r matches Ok(done) ==> done.0.wf(),
{
    AclTree::load(raw)
}


/// A sorted list with one more string: the string goes to its place in
/// the order of strings, unless it is in the list already.
pub open spec fn sorted_insert(list: Seq<Seq<char>>, x: Seq<char>) -> Seq<Seq<char>>
    decreases list.len(),
{
    if list.len() == 0 {
        seq![x]
    } else if lex_less(x, list[0]) {
        seq![x] + list
    } else if x == list[0] {
        list
    } else {
        seq![list[0]] + sorted_insert(list.drop_first(), x)
    }
}

/// A table that is sorted by its keys with a string added under a key: the
/// string is added to the sorted list of the key, and a key that is new
/// goes to its place in the order of strings.
pub open spec fn sorted_table_add(
    table: Seq<(Seq<char>, Seq<Seq<char>>)>,
    key: Seq<char>,
    x: Seq<char>,
) -> Seq<(Seq<char>, Seq<Seq<char>>)>
    decreases table.len(),
{
    if table.len() == 0 {
        seq![(key, seq![x])]
    } else if lex_less(key, table[0].0) {
        seq![(key, seq![x])] + table
    } else if table[0].0 == key {
        seq![(key, sorted_insert(table[0].1, x))] + table.drop_first()
    } else {
        seq![table[0]] + sorted_table_add(table.drop_first(), key, x)
    }
}

/// The views of a table.
pub open spec fn table_views(table: Seq<(Vec<char>, Vec<Vec<char>>)>) -> Seq<
    (Seq<char>, Seq<Seq<char>>),
> {
    Seq::new(table.len(), |i: int| (table[i].0@, views(table[i].1@)))
}

/// The name under which a user or a group stands in a line: a group has
/// `@` before its name.
pub open spec fn who_name(name: Seq<char>, is_group: bool) -> Seq<char> {
    if is_group {
        "@"@ + name
    } else {
        name
    }
}

/// The table of roles with the roles of one user or group added: each
/// role with the given flag gets the name.
pub open spec fn add_roles(
    table: Seq<(Seq<char>, Seq<Seq<char>>)>,
    who: Seq<char>,
    roles: Seq<(String, bool)>,
    propagate: bool,
) -> Seq<(Seq<char>, Seq<Seq<char>>)>
    decreases roles.len(),
{
    if roles.len() == 0 {
        table
    } else {
        let init = add_roles(table, who, roles.drop_last(), propagate);
        if roles.last().1 == propagate {
            sorted_table_add(init, roles.last().0@, who)
        } else {
            init
        }
    }
}

/// The table of roles with the roles of a list of users or of groups
/// added. The user `root@pam` is left out: that user may do everything
/// anyway.
pub open spec fn add_entries(
    table: Seq<(Seq<char>, Seq<Seq<char>>)>,
    entries: Seq<(String, Vec<(String, bool)>)>,
    propagate: bool,
    is_group: bool,
) -> Seq<(Seq<char>, Seq<Seq<char>>)>
    decreases entries.len(),
{
    if entries.len() == 0 {
        table
    } else {
        let init = add_entries(table, entries.drop_last(), propagate, is_group);
        let entry = entries.last();
        if !is_group && entry.0@ == "root@pam"@ {
            init
        } else {
            add_roles(init, who_name(entry.0@, is_group), entry.1@, propagate)
        }
    }
}

/// The table of the roles of a node with the given flag, sorted by the
/// roles: for each role the sorted names of the users and groups that
/// have it.
pub open spec fn role_table(node: AclTreeNode, propagate: bool) -> Seq<(Seq<char>, Seq<Seq<char>>)> {
    add_entries(
        add_entries(Seq::empty(), node.users@, propagate, false),
        node.groups@,
        propagate,
        true,
    )
}

/// The roles of a table, grouped by the list of those who have them: a
/// table sorted by these lists, each with the sorted roles that exactly
/// those users and groups have.
pub open spec fn group_by_list(table: Seq<(Seq<char>, Seq<Seq<char>>)>) -> Seq<
    (Seq<char>, Seq<Seq<char>>),
>
    decreases table.len(),
{
    if table.len() == 0 {
        Seq::empty()
    } else {
        sorted_table_add(
            group_by_list(table.drop_last()),
            join_spec(table.last().1, ','),
            table.last().0,
        )
    }
}

/// The roles of a line: the role that takes all access away if it is
/// among them, else all of them, with commas between.
pub open spec fn role_list_text(roles: Seq<Seq<char>>) -> Seq<char> {
    if roles.contains(ROLE_NAME_NO_ACCESS@) {
        ROLE_NAME_NO_ACCESS@
    } else {
        join_spec(roles, ',')
    }
}

/// One line of the access control list.
pub open spec fn acl_line(propagate: bool, path: Seq<char>, who: Seq<char>, roles: Seq<Seq<char>>) -> Seq<
    char,
> {
    "acl:"@ + (if propagate {
        "1"@
    } else {
        "0"@
    }) + ":"@ + (if path.len() == 0 {
        "/"@
    } else {
        path
    }) + ":"@ + who + ":"@ + role_list_text(roles) + "\n"@
}

/// The lines of a table, one for each list of users and groups.
pub open spec fn table_text(propagate: bool, path: Seq<char>, table: Seq<(Seq<char>, Seq<Seq<char>>)>) -> Seq<
    char,
>
    decreases table.len(),
{
    if table.len() == 0 {
        Seq::<char>::empty()
    } else {
        table_text(propagate, path, table.drop_last()) + acl_line(
            propagate,
            path,
            table.last().0,
            table.last().1,
        )
    }
}

/// The lines of a node: first those of the roles that stay on the path,
/// then those of the roles that go on to the paths below.
pub open spec fn node_text(node: AclTreeNode, path: Seq<char>) -> Seq<char> {
    table_text(false, path, group_by_list(role_table(node, false))) + table_text(
        true,
        path,
        group_by_list(role_table(node, true)),
    )
}

/// An order of children with one more child: the child goes to the place
/// of its name in the order of strings, and takes the place of a child of
/// the same name.
pub open spec fn order_insert(children: Seq<(String, AclTreeNode)>, order: Seq<usize>, j: usize) -> Seq<
    usize,
>
    decreases order.len(),
{
    if order.len() == 0 {
        seq![j]
    } else if lex_less(children[j as int].0@, children[order[0] as int].0@) {
        seq![j] + order
    } else if children[j as int].0@ == children[order[0] as int].0@ {
        seq![j] + order.drop_first()
    } else {
        seq![order[0]] + order_insert(children, order.drop_first(), j)
    }
}

/// The first `n` children in the order of their names.
pub open spec fn child_order(children: Seq<(String, AclTreeNode)>, n: int) -> Seq<usize>
    decreases n,
{
    if n <= 0 {
        Seq::<usize>::empty()
    } else {
        order_insert(children, child_order(children, n - 1), (n - 1) as usize)
    }
}

/// The text of the tree below a node: the lines of the node, and then the
/// texts of its children in the order of their names.
pub open spec fn config_text(node: AclTreeNode, path: Seq<char>) -> Seq<char>
    decreases node, 1int, 0int,
{
    node_text(node, path) + children_text(
        node,
        child_order(node.children@, node.children@.len() as int),
        path,
    )
}

/// The texts of the children of a node, in the given order.
pub open spec fn children_text(node: AclTreeNode, order: Seq<usize>, path: Seq<char>) -> Seq<char>
    decreases node, 0int, order.len(),
{
    if order.len() == 0 {
        Seq::<char>::empty()
    } else {
        let i = order.last() as int;
        children_text(node, order.drop_last(), path) + if 0 <= i < node.children@.len() {
            config_text(node.children@[i].1, path + "/"@ + node.children@[i].0@)
        } else {
            Seq::<char>::empty()
        }
    }
}

/// Adds a string to a sorted list.
fn sorted_insert_chars(list: &mut Vec<Vec<char>>, x: Vec<char>)
    ensures
        views(final(list)@) == sorted_insert(views(old(list)@), x@),
{
    let ghost v = views(list@);
    let mut i: usize = 0;
    proof {
        assert(v.skip(0) =~= v);
        assert(v.take(0) + sorted_insert(v.skip(0), x@) =~= sorted_insert(v, x@));
    }
    while i < list.len()
        invariant
            i <= list.len(),
            list@ == old(list)@,
            v == views(list@),
            sorted_insert(v, x@) == v.take(i as int) + sorted_insert(v.skip(i as int), x@),
        decreases list.len() - i,
    {
        proof {
            assert(v.skip(i as int)[0] == v[i as int]);
            assert(v[i as int] == list@[i as int]@);
            assert(v.skip(i as int).drop_first() =~= v.skip(i + 1));
        }
        match lex_order(&x, &list[i]) {
            Sign::Less => {
                let ghost xv = x@;
                list.insert(i, x);
                proof {
                    assert(views(list@) =~= v.take(i as int) + (seq![xv] + v.skip(i as int)));
                }
                return ;
            },
            Sign::Equal => {
                proof {
                    assert(v.take(i as int) + v.skip(i as int) =~= v);
                }
                return ;
            },
            Sign::Greater => {
                proof {
                    crate::text::lemma_lex_total(x@, v[i as int]);
                    assert(v.take(i as int) + (seq![v[i as int]] + sorted_insert(
                        v.skip(i + 1),
                        x@,
                    )) =~= v.take(i + 1) + sorted_insert(v.skip(i + 1), x@));
                }
                i += 1;
            },
        }
    }
    let ghost xv = x@;
    list.push(x);
    proof {
        assert(v.take(i as int) =~= v);
        assert(views(list@) =~= v + seq![xv]);
    }
}

/// A copy of a list of characters.
fn copy_chars(s: &Vec<char>) -> (t: Vec<char>)
    ensures
        t@ == s@,
{
    let t = sub_chars(s, 0, s.len());
    assert(t@ =~= s@);
    t
}

/// Adds a string under a key of a table that is sorted by its keys.
fn sorted_table_add_chars(table: &mut Vec<(Vec<char>, Vec<Vec<char>>)>, key: Vec<char>, x: Vec<char>)
    ensures
        table_views(final(table)@) == sorted_table_add(table_views(old(table)@), key@, x@),
{
    let ghost v = table_views(table@);
    let mut i: usize = 0;
    proof {
        assert(v.skip(0) =~= v);
        assert(v.take(0) + sorted_table_add(v.skip(0), key@, x@) =~= sorted_table_add(
            v,
            key@,
            x@,
        ));
    }
    while i < table.len()
        invariant
            i <= table.len(),
            table@ == old(table)@,
            v == table_views(table@),
            sorted_table_add(v, key@, x@) == v.take(i as int) + sorted_table_add(
                v.skip(i as int),
                key@,
                x@,
            ),
        decreases table.len() - i,
    {
        proof {
            assert(v.skip(i as int)[0] == v[i as int]);
            assert(v[i as int] == (table@[i as int].0@, views(table@[i as int].1@)));
            assert(v.skip(i as int).drop_first() =~= v.skip(i + 1));
        }
        match lex_order(&key, &table[i].0) {
            Sign::Less => {
                let mut names: Vec<Vec<char>> = Vec::new();
                let ghost kv = key@;
                let ghost xv = x@;
                names.push(x);
                assert(views(names@) =~= seq![xv]);
                table.insert(i, (key, names));
                proof {
                    assert(table_views(table@) =~= v.take(i as int) + (seq![(kv, seq![xv])]
                        + v.skip(i as int)));
                }
                return ;
            },
            Sign::Equal => {
                let (k, mut names) = table.remove(i);
                sorted_insert_chars(&mut names, x);
                let ghost new_names = views(names@);
                table.insert(i, (k, names));
                proof {
                    crate::text::lemma_lex_irreflexive(key@);
                    assert(table_views(table@) =~= v.take(i as int) + (seq![(key@, new_names)]
                        + v.skip(i + 1)));
                }
                return ;
            },
            Sign::Greater => {
                proof {
                    crate::text::lemma_lex_total(key@, v[i as int].0);
                    assert(v.take(i as int) + (seq![v[i as int]] + sorted_table_add(
                        v.skip(i + 1),
                        key@,
                        x@,
                    )) =~= v.take(i + 1) + sorted_table_add(v.skip(i + 1), key@, x@));
                }
                i += 1;
            },
        }
    }
    let mut names: Vec<Vec<char>> = Vec::new();
    let ghost kv = key@;
    let ghost xv = x@;
    names.push(x);
    assert(views(names@) =~= seq![xv]);
    table.push((key, names));
    proof {
        assert(v.take(i as int) =~= v);
        assert(table_views(table@) =~= v + seq![(kv, seq![xv])]);
    }
}

/// Adds the roles of a list of users or of groups to a table of roles.
fn add_entries_chars(
    table: &mut Vec<(Vec<char>, Vec<Vec<char>>)>,
    entries: &Vec<(String, Vec<(String, bool)>)>,
    propagate: bool,
    is_group: bool,
)
    ensures
        table_views(final(table)@) == add_entries(
            table_views(old(table)@),
            entries@,
            propagate,
            is_group,
        ),
{
    let ghost start = table_views(table@);
    let root = String::from_str("root@pam");
    let mut i: usize = 0;
    assert(entries@.take(0) =~= Seq::<(String, Vec<(String, bool)>)>::empty());
    while i < entries.len()
        invariant
            i <= entries.len(),
            root@ == "root@pam"@,
            table_views(table@) == add_entries(start, entries@.take(i as int), propagate, is_group),
        decreases entries.len() - i,
    {
        let entry = &entries[i];
        proof {
            let t = entries@.take(i + 1);
            assert(t.drop_last() =~= entries@.take(i as int));
            assert(t.last() == *entry);
        }
        if is_group || entry.0 != root {
            let mut who: Vec<char> = Vec::new();
            if is_group {
                append_chars(&mut who, &to_chars("@"));
            }
            append_chars(&mut who, &to_chars(entry.0.as_str()));
            assert(who@ =~= who_name(entry.0@, is_group));
            let ghost before = table_views(table@);
            let mut j: usize = 0;
            assert(entry.1@.take(0) =~= Seq::<(String, bool)>::empty());
            while j < entry.1.len()
                invariant
                    j <= entry.1.len(),
                    table_views(table@) == add_roles(
                        before,
                        who@,
                        entry.1@.take(j as int),
                        propagate,
                    ),
                decreases entry.1.len() - j,
            {
                proof {
                    let t = entry.1@.take(j + 1);
                    assert(t.drop_last() =~= entry.1@.take(j as int));
                    assert(t.last() == entry.1@[j as int]);
                }
                if entry.1[j].1 == propagate {
                    sorted_table_add_chars(
                        table,
                        to_chars(entry.1[j].0.as_str()),
                        copy_chars(&who),
                    );
                }
                j += 1;
            }
            assert(entry.1@.take(entry.1.len() as int) =~= entry.1@);
        }
        i += 1;
    }
    assert(entries@.take(entries.len() as int) =~= entries@);
}

/// Groups the roles of a table by the list of those who have them.
fn group_by_list_chars(table: &Vec<(Vec<char>, Vec<Vec<char>>)>) -> (grouped: Vec<
    (Vec<char>, Vec<Vec<char>>),
>)
    ensures
        table_views(grouped@) == group_by_list(table_views(table@)),
{
    let ghost v = table_views(table@);
    let mut grouped: Vec<(Vec<char>, Vec<Vec<char>>)> = Vec::new();
    let mut i: usize = 0;
    proof {
        assert(v.take(0) =~= Seq::<(Seq<char>, Seq<Seq<char>>)>::empty());
        assert(table_views(grouped@) =~= Seq::<(Seq<char>, Seq<Seq<char>>)>::empty());
    }
    while i < table.len()
        invariant
            i <= table.len(),
            v == table_views(table@),
            table_views(grouped@) == group_by_list(v.take(i as int)),
        decreases table.len() - i,
    {
        proof {
            let t = v.take(i + 1);
            assert(t.drop_last() =~= v.take(i as int));
            assert(t.last() == (table@[i as int].0@, views(table@[i as int].1@)));
        }
        let list = join(&table[i].1, ',');
        sorted_table_add_chars(&mut grouped, list, copy_chars(&table[i].0));
        i += 1;
    }
    assert(v.take(table.len() as int) =~= v);
    grouped
}

/// The roles of a line.
fn role_list_chars(roles: &Vec<Vec<char>>) -> (text: Vec<char>)
    ensures
        text@ == role_list_text(views(roles@)),
{
    let no_access = to_chars(ROLE_NAME_NO_ACCESS);
    let mut k: usize = 0;
    while k < roles.len()
        invariant
            k <= roles.len(),
            no_access@ == ROLE_NAME_NO_ACCESS@,
            forall|w: int| 0 <= w < k ==> (#[trigger] views(roles@)[w]) != ROLE_NAME_NO_ACCESS@,
        decreases roles.len() - k,
    {
        assert(views(roles@)[k as int] == roles@[k as int]@);
        if crate::text::same_chars(&roles[k], &no_access) {
            assert(views(roles@).contains(ROLE_NAME_NO_ACCESS@));
            return no_access;
        }
        k += 1;
    }
    assert(!views(roles@).contains(ROLE_NAME_NO_ACCESS@));
    join(roles, ',')
}

/// Writes one line of the access control list.
fn write_line(out: &mut Vec<char>, propagate: bool, path: &Vec<char>, who: &Vec<char>, roles: &Vec<Vec<char>>)
    ensures
        final(out)@ == old(out)@ + acl_line(propagate, path@, who@, views(roles@)),
{
    let role_list = role_list_chars(roles);
    let mut line: Vec<char> = Vec::new();
    append_chars(&mut line, &to_chars("acl:"));
    if propagate {
        append_chars(&mut line, &to_chars("1"));
    } else {
        append_chars(&mut line, &to_chars("0"));
    }
    append_chars(&mut line, &to_chars(":"));
    if path.len() == 0 {
        append_chars(&mut line, &to_chars("/"));
    } else {
        append_chars(&mut line, path);
    }
    append_chars(&mut line, &to_chars(":"));
    append_chars(&mut line, who);
    append_chars(&mut line, &to_chars(":"));
    append_chars(&mut line, &role_list);
    append_chars(&mut line, &to_chars("\n"));
    assert(line@ =~= acl_line(propagate, path@, who@, views(roles@)));
    append_chars(out, &line);
}

/// Writes the lines of a table.
fn write_table(
    out: &mut Vec<char>,
    propagate: bool,
    path: &Vec<char>,
    table: &Vec<(Vec<char>, Vec<Vec<char>>)>,
)
    ensures
        final(out)@ == old(out)@ + table_text(propagate, path@, table_views(table@)),
{
    let ghost v = table_views(table@);
    let mut i: usize = 0;
    proof {
        assert(v.take(0) =~= Seq::<(Seq<char>, Seq<Seq<char>>)>::empty());
        assert(old(out)@ + table_text(propagate, path@, v.take(0)) =~= old(out)@);
    }
    while i < table.len()
        invariant
            i <= table.len(),
            v == table_views(table@),
            out@ == old(out)@ + table_text(propagate, path@, v.take(i as int)),
        decreases table.len() - i,
    {
        let ghost before = out@;
        proof {
            let t = v.take(i + 1);
            assert(t.drop_last() =~= v.take(i as int));
            assert(t.last() == (table@[i as int].0@, views(table@[i as int].1@)));
        }
        write_line(out, propagate, path, &table[i].0, &table[i].1);
        proof {
            assert(out@ =~= old(out)@ + (table_text(propagate, path@, v.take(i as int)) + acl_line(
                propagate,
                path@,
                table@[i as int].0@,
                views(table@[i as int].1@),
            )));
        }
        i += 1;
    }
    assert(v.take(table.len() as int) =~= v);
}

/// Writes the lines of a node.
fn write_node_lines(out: &mut Vec<char>, node: &AclTreeNode, path: &Vec<char>)
    ensures
        final(out)@ == old(out)@ + node_text(*node, path@),
{
    let mut table0: Vec<(Vec<char>, Vec<Vec<char>>)> = Vec::new();
    assert(table_views(table0@) =~= Seq::<(Seq<char>, Seq<Seq<char>>)>::empty());
    add_entries_chars(&mut table0, &node.users, false, false);
    add_entries_chars(&mut table0, &node.groups, false, true);
    let mut table1: Vec<(Vec<char>, Vec<Vec<char>>)> = Vec::new();
    assert(table_views(table1@) =~= Seq::<(Seq<char>, Seq<Seq<char>>)>::empty());
    add_entries_chars(&mut table1, &node.users, true, false);
    add_entries_chars(&mut table1, &node.groups, true, true);
    let grouped0 = group_by_list_chars(&table0);
    let grouped1 = group_by_list_chars(&table1);
    write_table(out, false, path, &grouped0);
    write_table(out, true, path, &grouped1);
    proof {
        assert(out@ =~= old(out)@ + node_text(*node, path@));
    }
}

/// Puts one more child into an order of children.
fn insert_child(order: &mut Vec<usize>, node: &AclTreeNode, j: usize)
    requires
        j < node.children.len(),
        forall|k: int| 0 <= k < old(order).len() ==> (#[trigger] old(order)@[k]) < j,
    ensures
        final(order)@ == order_insert(node.children@, old(order)@, j),
{
    let ghost children = node.children@;
    let ghost before = order@;
    let name = to_chars(node.children[j].0.as_str());
    let mut i: usize = 0;
    proof {
        assert(before.skip(0) =~= before);
        assert(before.take(0) + order_insert(children, before.skip(0), j) =~= order_insert(
            children,
            before,
            j,
        ));
    }
    while i < order.len()
        invariant
            i <= order.len(),
            j < node.children.len(),
            children == node.children@,
            name@ == children[j as int].0@,
            order@ == before,
            before == old(order)@,
            order_insert(children, before, j) == before.take(i as int) + order_insert(
                children,
                before.skip(i as int),
                j,
            ),
            forall|k: int| 0 <= k < before.len() ==> (#[trigger] before[k]) < j,
        decreases order.len() - i,
    {
        proof {
            assert(before.skip(i as int)[0] == before[i as int]);
            assert(before.skip(i as int).drop_first() =~= before.skip(i + 1));
        }
        let other = to_chars(node.children[order[i]].0.as_str());
        match lex_order(&name, &other) {
            Sign::Less => {
                order.insert(i, j);
                proof {
                    assert(order@ =~= before.take(i as int) + (seq![j] + before.skip(i as int)));
                }
                return ;
            },
            Sign::Equal => {
                order.remove(i);
                order.insert(i, j);
                proof {
                    crate::text::lemma_lex_irreflexive(name@);
                    assert(order@ =~= before.take(i as int) + (seq![j] + before.skip(i + 1)));
                }
                return ;
            },
            Sign::Greater => {
                proof {
                    crate::text::lemma_lex_total(name@, other@);
                    assert(before.take(i as int) + (seq![before[i as int]] + order_insert(
                        children,
                        before.skip(i + 1),
                        j,
                    )) =~= before.take(i + 1) + order_insert(children, before.skip(i + 1), j));
                }
                i += 1;
            },
        }
    }
    order.push(j);
    proof {
        assert(before.take(i as int) =~= before);
        assert(order@ =~= before + seq![j]);
    }
}

/// The children of a node in the order of their names.
pub fn order_children(node: &AclTreeNode) -> (order: Vec<usize>)
    ensures
        order@ == child_order(node.children@, node.children@.len() as int),
        forall|k: int| 0 <= k < order.len() ==> (#[trigger] order@[k]) < node.children.len(),
{
    let ghost children = node.children@;
    let mut order: Vec<usize> = Vec::new();
    let mut j: usize = 0;
    assert(order@ =~= child_order(children, 0));
    while j < node.children.len()
        invariant
            j <= node.children.len(),
            children == node.children@,
            order@ == child_order(children, j as int),
            forall|k: int| 0 <= k < order.len() ==> (#[trigger] order@[k]) < j,
        decreases node.children.len() - j,
    {
        let ghost before = order@;
        insert_child(&mut order, node, j);
        proof {
            assert forall|k: int| 0 <= k < order.len() implies (#[trigger] order@[k]) < j + 1 by {
                lemma_order_insert_bound(children, before, j, k);
            }
        }
        j += 1;
    }
    order
}

/// Every child of an order with one more child is that child or a child
/// of the order.
pub proof fn lemma_order_insert_bound(
    children: Seq<(String, AclTreeNode)>,
    order: Seq<usize>,
    j: usize,
    k: int,
)
    requires
        forall|i: int| 0 <= i < order.len() ==> (#[trigger] order[i]) < j,
        0 <= k < order_insert(children, order, j).len(),
    ensures
        order_insert(children, order, j)[k] <= j,
    decreases order.len(),
{
    if order.len() > 0 {
        let rest = order.drop_first();
        assert forall|i: int| 0 <= i < rest.len() implies (#[trigger] rest[i]) < j by {
            assert(rest[i] == order[i + 1]);
        }
        if lex_less(children[j as int].0@, children[order[0] as int].0@) {
            if k > 0 {
                assert(order_insert(children, order, j)[k] == order[k - 1]);
            }
        } else if children[j as int].0@ == children[order[0] as int].0@ {
            if k > 0 {
                assert(order_insert(children, order, j)[k] == rest[k - 1]);
            }
        } else {
            if k > 0 {
                lemma_order_insert_bound(children, rest, j, k - 1);
            }
        }
    }
}

/// Writes the text of the tree below a node.
fn write_node_config(node: &AclTreeNode, path: &Vec<char>, out: &mut Vec<char>)
    ensures
        final(out)@ == old(out)@ + config_text(*node, path@),
    decreases node,
{
    write_node_lines(out, node, path);
    let order = order_children(node);
    let ghost lines = out@;
    let mut k: usize = 0;
    proof {
        assert(order@.take(0) =~= Seq::<usize>::empty());
        assert(lines + children_text(*node, order@.take(0), path@) =~= lines);
    }
    while k < order.len()
        invariant
            k <= order.len(),
            forall|i: int| 0 <= i < order.len() ==> (#[trigger] order@[i]) < node.children.len(),
            out@ == lines + children_text(*node, order@.take(k as int), path@),
        decreases order.len() - k,
    {
        let idx: usize = order[k];
        let child = &node.children[idx];
        proof {
            let t = order@.take(k + 1);
            assert(t.drop_last() =~= order@.take(k as int));
            assert(t.last() == idx);
        }
        let mut child_path = copy_chars(path);
        append_chars(&mut child_path, &to_chars("/"));
        append_chars(&mut child_path, &to_chars(child.0.as_str()));
        let ghost before = out@;
        write_node_config(&child.1, &child_path, out);
        proof {
            assert(out@ =~= lines + children_text(*node, order@.take(k + 1), path@));
        }
        k += 1;
    }
    proof {
        assert(order@.take(order.len() as int) =~= order@);
        assert(out@ =~= old(out)@ + config_text(*node, path@));
    }
}

impl AclTree {
    /// The text of the access control list, as characters.
    pub fn config_chars(&self) -> (text: Vec<char>)
        ensures
            text@ == config_text(self.root, Seq::<char>::empty()),
    {
        let mut out: Vec<char> = Vec::new();
        let path: Vec<char> = Vec::new();
        write_node_config(&self.root, &path, &mut out);
        assert(Seq::<char>::empty() + config_text(self.root, path@) =~= config_text(
            self.root,
            path@,
        ));
        out
    }

    /// Writes the text of the access control list behind what `w` holds.
    ///
    /// The text has one line for each list of users and groups that share
    /// roles on a path, first the roles that stay on the path and then
    /// those that go on to the paths below, and the paths below follow in
    /// the order of their names.
    pub fn write_config(&self, w: &mut Vec<u8>)
        ensures
            final(w)@ == old(w)@ + vstd::utf8::encode_utf8(
                config_text(self.root, Seq::<char>::empty()),
            ),
    {
        let text = string_of(&self.config_chars());
        let bytes = text.as_str().as_bytes();
        let mut i: usize = 0;
        assert(bytes@.take(0) =~= Seq::<u8>::empty());
        assert(w@ =~= old(w)@ + bytes@.take(0));
        while i < bytes.len()
            invariant
                i <= bytes.len(),
                w@ == old(w)@ + bytes@.take(i as int),
            decreases bytes.len() - i,
        {
            w.push(bytes[i]);
            assert(bytes@.take(i + 1) =~= bytes@.take(i as int).push(bytes@[i as int]));
            assert(w@ =~= old(w)@ + bytes@.take(i + 1));
            i += 1;
        }
        assert(bytes@.take(bytes.len() as int) =~= bytes@);
    }
}

} // verus!

//! Why the text of an access control list goes by its roles alone: sorted
//! lists and tables are fixed by what they hold.

use vstd::prelude::*;
use crate::acl::{
    add_entries, add_roles, entries_distinct, entry_map, entry_pairs, lemma_pairs_map_keys,
    lemma_pairs_map_last, model_of, node_distinct, node_text, role_map, role_pairs, role_table,
    roles_distinct, sorted_insert, sorted_table_add, who_name, AclTreeNode,
};
use crate::acl::{
    child_map, child_order, child_pairs, children_text, config_text, lemma_order_insert_bound,
    node_at, order_insert, tree_distinct, tree_model, AclTree, NodeModel,
};
use crate::text::{lemma_lex_irreflexive, lemma_lex_total, lex_less};

verus! {

/// The order of strings is transitive.
pub proof fn lemma_lex_transitive(a: Seq<char>, b: Seq<char>, c: Seq<char>)
    requires
        lex_less(a, b),
        lex_less(b, c),
    ensures
        lex_less(a, c),
    decreases a.len(),
{
    if a.len() > 0 {
        if a[0] == b[0] && b[0] == c[0] {
            lemma_lex_transitive(a.drop_first(), b.drop_first(), c.drop_first());
        }
    }
}

/// Each string of the list comes before the strings behind it.
pub open spec fn strictly_sorted(list: Seq<Seq<char>>) -> bool {
    forall|i: int, j: int| 0 <= i < j < list.len() ==> lex_less(list[i], list[j])
}

/// A sorted list stays sorted when a string is added, and holds what it
/// held and that string.
pub proof fn lemma_sorted_insert(list: Seq<Seq<char>>, x: Seq<char>)
    requires
        strictly_sorted(list),
    ensures
        strictly_sorted(sorted_insert(list, x)),
        forall|y: Seq<char>| #[trigger]
            sorted_insert(list, x).contains(y) ==> list.contains(y) || y == x,
        forall|y: Seq<char>| #[trigger] list.contains(y) ==> sorted_insert(list, x).contains(y),
        sorted_insert(list, x).contains(x),
    decreases list.len(),
{
    let r = sorted_insert(list, x);
    if list.len() == 0 {
        assert(r[0] == x);
    } else if lex_less(x, list[0]) {
        assert(r =~= seq![x] + list);
        assert forall|i: int, j: int| 0 <= i < j < r.len() implies lex_less(r[i], r[j]) by {
            if i == 0 {
                assert(r[j] == list[j - 1]);
                if j - 1 > 0 {
                    lemma_lex_transitive(x, list[0], list[j - 1]);
                }
            } else {
                assert(r[i] == list[i - 1] && r[j] == list[j - 1]);
            }
        }
        assert forall|y: Seq<char>|
            (r.contains(y) ==> list.contains(y) || y == x) && (list.contains(y) || y == x
                ==> r.contains(y)) by {
            if r.contains(y) {
                let k = choose|k: int| 0 <= k < r.len() && r[k] == y;
                if k > 0 {
                    assert(list[k - 1] == y);
                }
            }
            if list.contains(y) {
                let k = choose|k: int| 0 <= k < list.len() && list[k] == y;
                assert(r[k + 1] == y);
            }
            if y == x {
                assert(r[0] == y);
            }
        }
    } else if x == list[0] {
        assert forall|y: Seq<char>|
            (r.contains(y) ==> list.contains(y) || y == x) && (list.contains(y) || y == x
                ==> r.contains(y)) by {
            if y == x {
                assert(list[0] == y);
            }
        }
    } else {
        let tail = list.drop_first();
        let rt = sorted_insert(tail, x);
        assert forall|i: int, j: int| 0 <= i < j < tail.len() implies lex_less(tail[i], tail[j]) by {
            assert(tail[i] == list[i + 1] && tail[j] == list[j + 1]);
        }
        lemma_sorted_insert(tail, x);
        lemma_lex_total(x, list[0]);
        assert(r =~= seq![list[0]] + rt);
        assert forall|i: int, j: int| 0 <= i < j < r.len() implies lex_less(r[i], r[j]) by {
            if i == 0 {
                assert(r[j] == rt[j - 1]);
                assert(rt.contains(rt[j - 1]));
                if rt[j - 1] != x {
                    let k = choose|k: int| 0 <= k < tail.len() && tail[k] == rt[j - 1];
                    assert(list[k + 1] == rt[j - 1]);
                }
            } else {
                assert(r[i] == rt[i - 1] && r[j] == rt[j - 1]);
            }
        }
        assert forall|y: Seq<char>|
            (r.contains(y) ==> list.contains(y) || y == x) && (list.contains(y) || y == x
                ==> r.contains(y)) by {
            if r.contains(y) {
                let k = choose|k: int| 0 <= k < r.len() && r[k] == y;
                if k > 0 {
                    assert(rt[k - 1] == y);
                    assert(rt.contains(y));
                    if y != x {
                        let m = choose|m: int| 0 <= m < tail.len() && tail[m] == y;
                        assert(list[m + 1] == y);
                    }
                } else {
                    assert(list[0] == y);
                }
            }
            if list.contains(y) {
                let k = choose|k: int| 0 <= k < list.len() && list[k] == y;
                if k == 0 {
                    assert(r[0] == y);
                } else {
                    assert(tail[k - 1] == y);
                    assert(tail.contains(y));
                    assert(rt.contains(y));
                    let m = choose|m: int| 0 <= m < rt.len() && rt[m] == y;
                    assert(r[m + 1] == y);
                }
            }
            if y == x {
                assert(rt.contains(y));
                let m = choose|m: int| 0 <= m < rt.len() && rt[m] == y;
                assert(r[m + 1] == y);
            }
        }
    }
}

/// Two sorted lists that hold the same strings are the same list.
pub proof fn lemma_sorted_same(a: Seq<Seq<char>>, b: Seq<Seq<char>>)
    requires
        strictly_sorted(a),
        strictly_sorted(b),
        forall|y: Seq<char>| #[trigger] a.contains(y) ==> b.contains(y),
        forall|y: Seq<char>| #[trigger] b.contains(y) ==> a.contains(y),
    ensures
        a == b,
    decreases a.len(),
{
    if a.len() == 0 {
        if b.len() > 0 {
            assert(b.contains(b[0]));
        }
        assert(a =~= b);
    } else {
        assert(a.contains(a[0]));
        let k = choose|k: int| 0 <= k < b.len() && b[k] == a[0];
        assert(b.contains(b[0]));
        let m = choose|m: int| 0 <= m < a.len() && a[m] == b[0];
        if a[0] != b[0] {
            assert(k > 0 && m > 0);
            lemma_lex_total(a[0], b[0]);
        }
        let ta = a.drop_first();
        let tb = b.drop_first();
        assert forall|i: int, j: int| 0 <= i < j < ta.len() implies lex_less(ta[i], ta[j]) by {
            assert(ta[i] == a[i + 1] && ta[j] == a[j + 1]);
        }
        assert forall|i: int, j: int| 0 <= i < j < tb.len() implies lex_less(tb[i], tb[j]) by {
            assert(tb[i] == b[i + 1] && tb[j] == b[j + 1]);
        }
        assert forall|y: Seq<char>|
            (ta.contains(y) ==> tb.contains(y)) && (tb.contains(y) ==> ta.contains(y)) by {
            lemma_lex_irreflexive(y);
            if ta.contains(y) {
                let i = choose|i: int| 0 <= i < ta.len() && ta[i] == y;
                assert(a[i + 1] == y);
                assert(a.contains(y));
                let j = choose|j: int| 0 <= j < b.len() && b[j] == y;
                assert(lex_less(a[0], a[i + 1]));
                assert(j > 0);
                assert(tb[j - 1] == y);
            }
            if tb.contains(y) {
                let i = choose|i: int| 0 <= i < tb.len() && tb[i] == y;
                assert(b[i + 1] == y);
                assert(b.contains(y));
                let j = choose|j: int| 0 <= j < a.len() && a[j] == y;
                assert(lex_less(b[0], b[i + 1]));
                assert(j > 0);
                assert(ta[j - 1] == y);
            }
        }
        lemma_sorted_same(ta, tb);
        assert(a =~= seq![a[0]] + ta);
        assert(b =~= seq![b[0]] + tb);
    }
}

/// The keys of a table.
pub open spec fn table_keys(table: Seq<(Seq<char>, Seq<Seq<char>>)>) -> Seq<Seq<char>> {
    Seq::new(table.len(), |i: int| table[i].0)
}

/// The table is sorted by its keys, and each key has a sorted list that is
/// not empty.
pub open spec fn table_sorted(table: Seq<(Seq<char>, Seq<Seq<char>>)>) -> bool {
    &&& strictly_sorted(table_keys(table))
    &&& forall|i: int|
        0 <= i < table.len() ==> strictly_sorted((#[trigger] table[i]).1) && table[i].1.len() > 0
}

/// Whether the table holds the string under the key.
pub open spec fn has_pair(table: Seq<(Seq<char>, Seq<Seq<char>>)>, key: Seq<char>, x: Seq<char>) -> bool {
    exists|i: int| 0 <= i < table.len() && (#[trigger] table[i]).0 == key && table[i].1.contains(x)
}

/// The keys of a table with a string added under a key are the keys of
/// the table with that key added.
pub proof fn lemma_table_add_keys(
    table: Seq<(Seq<char>, Seq<Seq<char>>)>,
    key: Seq<char>,
    x: Seq<char>,
)
    ensures
        table_keys(sorted_table_add(table, key, x)) == sorted_insert(table_keys(table), key),
    decreases table.len(),
{
    let r = sorted_table_add(table, key, x);
    let keys = table_keys(table);
    if table.len() == 0 {
        assert(table_keys(r) =~= seq![key]);
    } else if lex_less(key, table[0].0) {
        assert(keys[0] == table[0].0);
        assert(table_keys(r) =~= seq![key] + keys);
    } else if table[0].0 == key {
        assert(keys[0] == table[0].0);
        assert(table_keys(r) =~= keys);
    } else {
        let tail = table.drop_first();
        lemma_table_add_keys(tail, key, x);
        assert(keys[0] == table[0].0);
        assert(table_keys(tail) =~= keys.drop_first());
        assert(table_keys(r) =~= seq![keys[0]] + table_keys(sorted_table_add(tail, key, x)));
    }
}

/// A sorted table stays sorted when a string is added under a key, and
/// holds what it held and that string under that key.
pub proof fn lemma_sorted_table_add(
    table: Seq<(Seq<char>, Seq<Seq<char>>)>,
    key: Seq<char>,
    x: Seq<char>,
)
    requires
        table_sorted(table),
    ensures
        table_sorted(sorted_table_add(table, key, x)),
        forall|k: Seq<char>, y: Seq<char>| #[trigger]
            has_pair(sorted_table_add(table, key, x), k, y) ==> has_pair(table, k, y) || (k == key
                && y == x),
        forall|k: Seq<char>, y: Seq<char>| #[trigger]
            has_pair(table, k, y) ==> has_pair(sorted_table_add(table, key, x), k, y),
        has_pair(sorted_table_add(table, key, x), key, x),
    decreases table.len(),
{
    let r = sorted_table_add(table, key, x);
    lemma_table_add_keys(table, key, x);
    lemma_sorted_insert(table_keys(table), key);
    let one = seq![x];
    assert(one[0] == x);
    assert(one.contains(x));
    if table.len() == 0 {
        assert(r =~= seq![(key, one)]);
        assert(r[0].1.contains(x));
        assert forall|k: Seq<char>, y: Seq<char>| #[trigger] has_pair(r, k, y) implies has_pair(
            table,
            k,
            y,
        ) || (k == key && y == x) by {
            let i = choose|i: int| 0 <= i < r.len() && (#[trigger] r[i]).0 == k && r[i].1.contains(y);
            let j = choose|j: int| 0 <= j < one.len() && one[j] == y;
        }
    } else if lex_less(key, table[0].0) {
        assert(r =~= seq![(key, one)] + table);
        assert(r[0].1.contains(x));
        assert forall|i: int| 0 <= i < r.len() implies strictly_sorted((#[trigger] r[i]).1)
            && r[i].1.len() > 0 by {
            if i > 0 {
                assert(r[i] == table[i - 1]);
            }
        }
        assert forall|k: Seq<char>, y: Seq<char>| #[trigger] has_pair(r, k, y) implies has_pair(
            table,
            k,
            y,
        ) || (k == key && y == x) by {
            let i = choose|i: int| 0 <= i < r.len() && (#[trigger] r[i]).0 == k && r[i].1.contains(y);
            if i == 0 {
                let j = choose|j: int| 0 <= j < one.len() && one[j] == y;
            } else {
                assert(table[i - 1] == r[i]);
            }
        }
        assert forall|k: Seq<char>, y: Seq<char>| #[trigger] has_pair(table, k, y) implies has_pair(
            r,
            k,
            y,
        ) by {
            let i = choose|i: int|
                0 <= i < table.len() && (#[trigger] table[i]).0 == k && table[i].1.contains(y);
            assert(r[i + 1] == table[i]);
        }
    } else if table[0].0 == key {
        let row = sorted_insert(table[0].1, x);
        lemma_sorted_insert(table[0].1, x);
        assert(r =~= seq![(key, row)] + table.drop_first());
        assert(r[0].1.contains(x));
        let w = choose|w: int| 0 <= w < row.len() && row[w] == x;
        assert forall|i: int| 0 <= i < r.len() implies strictly_sorted((#[trigger] r[i]).1)
            && r[i].1.len() > 0 by {
            if i > 0 {
                assert(r[i] == table[i]);
            }
        }
        assert forall|k: Seq<char>, y: Seq<char>| #[trigger] has_pair(r, k, y) implies has_pair(
            table,
            k,
            y,
        ) || (k == key && y == x) by {
            let i = choose|i: int| 0 <= i < r.len() && (#[trigger] r[i]).0 == k && r[i].1.contains(y);
            if i == 0 {
                if y != x {
                    assert(table[0].1.contains(y));
                }
            } else {
                assert(table[i] == r[i]);
            }
        }
        assert forall|k: Seq<char>, y: Seq<char>| #[trigger] has_pair(table, k, y) implies has_pair(
            r,
            k,
            y,
        ) by {
            let i = choose|i: int|
                0 <= i < table.len() && (#[trigger] table[i]).0 == k && table[i].1.contains(y);
            if i == 0 {
                assert(r[0].1.contains(y));
            } else {
                assert(r[i] == table[i]);
            }
        }
    } else {
        let tail = table.drop_first();
        let rt = sorted_table_add(tail, key, x);
        assert forall|i: int, j: int| 0 <= i < j < table_keys(tail).len() implies lex_less(
            table_keys(tail)[i],
            table_keys(tail)[j],
        ) by {
            assert(table_keys(tail)[i] == table_keys(table)[i + 1]);
            assert(table_keys(tail)[j] == table_keys(table)[j + 1]);
        }
        assert forall|i: int| 0 <= i < tail.len() implies strictly_sorted((#[trigger] tail[i]).1)
            && tail[i].1.len() > 0 by {
            assert(tail[i] == table[i + 1]);
        }
        lemma_sorted_table_add(tail, key, x);
        assert(r =~= seq![table[0]] + rt);
        assert forall|i: int| 0 <= i < r.len() implies strictly_sorted((#[trigger] r[i]).1)
            && r[i].1.len() > 0 by {
            if i > 0 {
                assert(r[i] == rt[i - 1]);
            } else {
                assert(r[0] == table[0]);
            }
        }
        assert forall|k: Seq<char>, y: Seq<char>| #[trigger] has_pair(r, k, y) implies has_pair(
            table,
            k,
            y,
        ) || (k == key && y == x) by {
            let i = choose|i: int| 0 <= i < r.len() && (#[trigger] r[i]).0 == k && r[i].1.contains(y);
            if i == 0 {
                assert(table[0] == r[0]);
            } else {
                assert(rt[i - 1] == r[i]);
                assert(has_pair(rt, k, y));
                if has_pair(tail, k, y) {
                    let m = choose|m: int|
                        0 <= m < tail.len() && (#[trigger] tail[m]).0 == k && tail[m].1.contains(y);
                    assert(table[m + 1] == tail[m]);
                }
            }
        }
        assert forall|k: Seq<char>, y: Seq<char>| #[trigger] has_pair(table, k, y) implies has_pair(
            r,
            k,
            y,
        ) by {
            let i = choose|i: int|
                0 <= i < table.len() && (#[trigger] table[i]).0 == k && table[i].1.contains(y);
            if i == 0 {
                assert(r[0] == table[0]);
            } else {
                assert(tail[i - 1] == table[i]);
                assert(has_pair(tail, k, y));
                assert(has_pair(rt, k, y));
                let m = choose|m: int|
                    0 <= m < rt.len() && (#[trigger] rt[m]).0 == k && rt[m].1.contains(y);
                assert(r[m + 1] == rt[m]);
            }
        }
        assert(has_pair(rt, key, x));
        let m = choose|m: int| 0 <= m < rt.len() && (#[trigger] rt[m]).0 == key && rt[m].1.contains(x);
        assert(r[m + 1] == rt[m]);
    }
}

/// Two sorted tables that hold the same strings under the same keys are
/// the same table.
pub proof fn lemma_table_same(a: Seq<(Seq<char>, Seq<Seq<char>>)>, b: Seq<(Seq<char>, Seq<Seq<char>>)>)
    requires
        table_sorted(a),
        table_sorted(b),
        forall|k: Seq<char>, y: Seq<char>| #[trigger] has_pair(a, k, y) ==> has_pair(b, k, y),
        forall|k: Seq<char>, y: Seq<char>| #[trigger] has_pair(b, k, y) ==> has_pair(a, k, y),
    ensures
        a == b,
{
    let ka = table_keys(a);
    let kb = table_keys(b);
    assert forall|y: Seq<char>| (ka.contains(y) ==> kb.contains(y)) && (kb.contains(y)
        ==> ka.contains(y)) by {
        if ka.contains(y) {
            let i = choose|i: int| 0 <= i < ka.len() && ka[i] == y;
            assert(a[i].0 == y);
            assert(a[i].1.contains(a[i].1[0]));
            assert(has_pair(a, y, a[i].1[0]));
            assert(has_pair(b, y, a[i].1[0]));
            let j = choose|j: int|
                0 <= j < b.len() && (#[trigger] b[j]).0 == y && b[j].1.contains(a[i].1[0]);
            assert(kb[j] == y);
        }
        if kb.contains(y) {
            let i = choose|i: int| 0 <= i < kb.len() && kb[i] == y;
            assert(b[i].0 == y);
            assert(b[i].1.contains(b[i].1[0]));
            assert(has_pair(b, y, b[i].1[0]));
            assert(has_pair(a, y, b[i].1[0]));
            let j = choose|j: int|
                0 <= j < a.len() && (#[trigger] a[j]).0 == y && a[j].1.contains(b[i].1[0]);
            assert(ka[j] == y);
        }
    }
    lemma_sorted_same(ka, kb);
    assert(ka.len() == a.len());
    assert(kb.len() == b.len());
    assert(a.len() == b.len());
    assert forall|i: int| 0 <= i < a.len() implies a[i] == b[i] by {
        assert(ka[i] == kb[i]);
        assert(a[i].0 == b[i].0);
        let key = a[i].0;
        lemma_lex_irreflexive(key);
        assert forall|y: Seq<char>| (a[i].1.contains(y) ==> b[i].1.contains(y)) && (
        b[i].1.contains(y) ==> a[i].1.contains(y)) by {
            if a[i].1.contains(y) {
                assert(has_pair(a, key, y));
                assert(has_pair(b, key, y));
                let j = choose|j: int|
                    0 <= j < b.len() && (#[trigger] b[j]).0 == key && b[j].1.contains(y);
                assert(kb[j] == key && kb[i] == key);
                if j < i {
                    assert(lex_less(kb[j], kb[i]));
                }
                if i < j {
                    assert(lex_less(kb[i], kb[j]));
                }
            }
            if b[i].1.contains(y) {
                assert(has_pair(b, key, y));
                assert(has_pair(a, key, y));
                let j = choose|j: int|
                    0 <= j < a.len() && (#[trigger] a[j]).0 == key && a[j].1.contains(y);
                assert(ka[j] == key && ka[i] == key);
                if j < i {
                    assert(lex_less(ka[j], ka[i]));
                }
                if i < j {
                    assert(lex_less(ka[i], ka[j]));
                }
            }
        }
        lemma_sorted_same(a[i].1, b[i].1);
    }
    assert(a =~= b);
}

/// Whether a name is left out of the text: the user `root@pam`.
pub open spec fn is_left_out(name: Seq<char>, is_group: bool) -> bool {
    !is_group && name == "root@pam"@
}

/// Whether the list of roles gives the role with the flag.
pub open spec fn roles_give(roles: Seq<(String, bool)>, propagate: bool, role: Seq<char>) -> bool {
    exists|j: int| 0 <= j < roles.len() && (#[trigger] roles[j]).0@ == role && roles[j].1 == propagate
}

/// Whether the list of entries gives the role with the flag to the one
/// who stands in the text as `who`.
pub open spec fn entries_give(
    entries: Seq<(String, Vec<(String, bool)>)>,
    is_group: bool,
    propagate: bool,
    role: Seq<char>,
    who: Seq<char>,
) -> bool {
    exists|i: int|
        0 <= i < entries.len() && !is_left_out((#[trigger] entries[i]).0@, is_group) && who
            == who_name(entries[i].0@, is_group) && roles_give(entries[i].1@, propagate, role)
}

/// Whether the roles of users or of groups give the role with the flag to
/// the one who stands in the text as `who`.
pub open spec fn map_gives(
    m: Map<Seq<char>, Map<Seq<char>, bool>>,
    is_group: bool,
    propagate: bool,
    role: Seq<char>,
    who: Seq<char>,
) -> bool {
    exists|name: Seq<char>|
        #[trigger] m.contains_key(name) && !is_left_out(name, is_group) && who == who_name(
            name,
            is_group,
        ) && m[name].contains_key(role) && m[name][role] == propagate
}

/// What the table of roles holds when the roles of one user or group were
/// added.
pub proof fn lemma_add_roles(
    table: Seq<(Seq<char>, Seq<Seq<char>>)>,
    who: Seq<char>,
    roles: Seq<(String, bool)>,
    propagate: bool,
)
    requires
        table_sorted(table),
    ensures
        table_sorted(add_roles(table, who, roles, propagate)),
        forall|k: Seq<char>, y: Seq<char>| #[trigger]
            has_pair(add_roles(table, who, roles, propagate), k, y) ==> has_pair(table, k, y) || (y
                == who && roles_give(roles, propagate, k)),
        forall|k: Seq<char>, y: Seq<char>| #[trigger]
            has_pair(table, k, y) ==> has_pair(add_roles(table, who, roles, propagate), k, y),
        forall|k: Seq<char>| #[trigger]
            roles_give(roles, propagate, k) ==> has_pair(
                add_roles(table, who, roles, propagate),
                k,
                who,
            ),
    decreases roles.len(),
{
    let r = add_roles(table, who, roles, propagate);
    if roles.len() == 0 {
    } else {
        let init_roles = roles.drop_last();
        let init = add_roles(table, who, init_roles, propagate);
        let last = roles.last();
        lemma_add_roles(table, who, init_roles, propagate);
        if last.1 == propagate {
            lemma_sorted_table_add(init, last.0@, who);
        }
        assert forall|k: Seq<char>| #[trigger] roles_give(init_roles, propagate, k) implies roles_give(
            roles,
            propagate,
            k,
        ) by {
            let j = choose|j: int|
                0 <= j < init_roles.len() && (#[trigger] init_roles[j]).0@ == k && init_roles[j].1
                    == propagate;
            assert(roles[j] == init_roles[j]);
        }
        assert forall|k: Seq<char>, y: Seq<char>| #[trigger] has_pair(r, k, y) implies has_pair(
            table,
            k,
            y,
        ) || (y == who && roles_give(roles, propagate, k)) by {
            if last.1 == propagate && !has_pair(init, k, y) {
                assert(k == last.0@ && y == who);
                assert(roles[roles.len() - 1].0@ == k);
            }
        }
        assert forall|k: Seq<char>| #[trigger] roles_give(roles, propagate, k) implies has_pair(
            r,
            k,
            who,
        ) by {
            let j = choose|j: int|
                0 <= j < roles.len() && (#[trigger] roles[j]).0@ == k && roles[j].1 == propagate;
            if j < roles.len() - 1 {
                assert(init_roles[j] == roles[j]);
                assert(roles_give(init_roles, propagate, k));
                assert(has_pair(init, k, who));
            }
        }
    }
}

/// What the table of roles holds when the roles of a list of users or of
/// groups were added.
pub proof fn lemma_add_entries(
    table: Seq<(Seq<char>, Seq<Seq<char>>)>,
    entries: Seq<(String, Vec<(String, bool)>)>,
    propagate: bool,
    is_group: bool,
)
    requires
        table_sorted(table),
    ensures
        table_sorted(add_entries(table, entries, propagate, is_group)),
        forall|k: Seq<char>, y: Seq<char>| #[trigger]
            has_pair(add_entries(table, entries, propagate, is_group), k, y) ==> has_pair(
                table,
                k,
                y,
            ) || entries_give(entries, is_group, propagate, k, y),
        forall|k: Seq<char>, y: Seq<char>| #[trigger]
            has_pair(table, k, y) ==> has_pair(
                add_entries(table, entries, propagate, is_group),
                k,
                y,
            ),
        forall|k: Seq<char>, y: Seq<char>| #[trigger]
            entries_give(entries, is_group, propagate, k, y) ==> has_pair(
                add_entries(table, entries, propagate, is_group),
                k,
                y,
            ),
    decreases entries.len(),
{
    let r = add_entries(table, entries, propagate, is_group);
    if entries.len() == 0 {
    } else {
        let init_entries = entries.drop_last();
        let init = add_entries(table, init_entries, propagate, is_group);
        let entry = entries.last();
        let who = who_name(entry.0@, is_group);
        lemma_add_entries(table, init_entries, propagate, is_group);
        let left_out = is_left_out(entry.0@, is_group);
        if !left_out {
            lemma_add_roles(init, who, entry.1@, propagate);
        }
        assert forall|k: Seq<char>, y: Seq<char>| #[trigger]
            entries_give(init_entries, is_group, propagate, k, y) implies entries_give(
            entries,
            is_group,
            propagate,
            k,
            y,
        ) by {
            let i = choose|i: int|
                0 <= i < init_entries.len() && !is_left_out(
                    (#[trigger] init_entries[i]).0@,
                    is_group,
                ) && y == who_name(init_entries[i].0@, is_group) && roles_give(
                    init_entries[i].1@,
                    propagate,
                    k,
                );
            assert(entries[i] == init_entries[i]);
        }
        assert forall|k: Seq<char>, y: Seq<char>| #[trigger] has_pair(r, k, y) implies has_pair(
            table,
            k,
            y,
        ) || entries_give(entries, is_group, propagate, k, y) by {
            if !has_pair(init, k, y) {
                assert(!left_out);
                assert(y == who && roles_give(entry.1@, propagate, k));
                assert(entries[entries.len() - 1] == entry);
            }
        }
        assert forall|k: Seq<char>, y: Seq<char>| #[trigger]
            entries_give(entries, is_group, propagate, k, y) implies has_pair(r, k, y) by {
            let i = choose|i: int|
                0 <= i < entries.len() && !is_left_out((#[trigger] entries[i]).0@, is_group) && y
                    == who_name(entries[i].0@, is_group) && roles_give(
                    entries[i].1@,
                    propagate,
                    k,
                );
            if i < entries.len() - 1 {
                assert(init_entries[i] == entries[i]);
                assert(entries_give(init_entries, is_group, propagate, k, y));
                assert(has_pair(init, k, y));
            }
        }
    }
}

/// In a list of entries in which nothing stands twice, the entries give
/// what the roles that the list stands for give.
pub proof fn lemma_entries_give_by_map(
    entries: Seq<(String, Vec<(String, bool)>)>,
    is_group: bool,
    propagate: bool,
    role: Seq<char>,
    who: Seq<char>,
)
    requires
        entries_distinct(entries),
    ensures
        entries_give(entries, is_group, propagate, role, who) == map_gives(
            entry_map(entries),
            is_group,
            propagate,
            role,
            who,
        ),
{
    let pairs = entry_pairs(entries);
    let m = entry_map(entries);
    if entries_give(entries, is_group, propagate, role, who) {
        let i = choose|i: int|
            0 <= i < entries.len() && !is_left_out((#[trigger] entries[i]).0@, is_group) && who
                == who_name(entries[i].0@, is_group) && roles_give(entries[i].1@, propagate, role);
        let roles = entries[i].1@;
        let j = choose|j: int|
            0 <= j < roles.len() && (#[trigger] roles[j]).0@ == role && roles[j].1 == propagate;
        lemma_entry_at(entries, i);
        lemma_role_at(roles, j);
        assert(m.contains_key(entries[i].0@));
    }
    if map_gives(m, is_group, propagate, role, who) {
        let name = choose|name: Seq<char>|
            #[trigger] m.contains_key(name) && !is_left_out(name, is_group) && who == who_name(
                name,
                is_group,
            ) && m[name].contains_key(role) && m[name][role] == propagate;
        lemma_pairs_map_keys(pairs, name);
        let i = choose|i: int| 0 <= i < pairs.len() && (#[trigger] pairs[i]).0 == name;
        assert(entries[i].0@ == name);
        lemma_entry_at(entries, i);
        let roles = entries[i].1@;
        let rp = role_pairs(roles);
        lemma_pairs_map_keys(rp, role);
        let j = choose|j: int| 0 <= j < rp.len() && (#[trigger] rp[j]).0 == role;
        assert(roles[j].0@ == role);
        lemma_role_at(roles, j);
        assert(roles_give(roles, propagate, role));
    }
}

/// In a list of entries in which no name stands twice, the roles of a
/// name are the roles of its entry.
pub proof fn lemma_entry_at(entries: Seq<(String, Vec<(String, bool)>)>, i: int)
    requires
        entries_distinct(entries),
        0 <= i < entries.len(),
    ensures
        entry_map(entries).contains_key(entries[i].0@),
        entry_map(entries)[entries[i].0@] == role_map(entries[i].1@),
        roles_distinct(entries[i].1@),
{
    let pairs = entry_pairs(entries);
    assert(pairs[i] == (entries[i].0@, role_map(entries[i].1@)));
    assert forall|j: int| i < j < pairs.len() implies (#[trigger] pairs[j]).0 != pairs[i].0 by {
        assert(pairs[j].0 == entries[j].0@);
    }
    lemma_pairs_map_last(pairs, i);
}

/// In a list of roles in which no role stands twice, the flag of a role is
/// the flag of its pair.
pub proof fn lemma_role_at(roles: Seq<(String, bool)>, j: int)
    requires
        roles_distinct(roles),
        0 <= j < roles.len(),
    ensures
        role_map(roles).contains_key(roles[j].0@),
        role_map(roles)[roles[j].0@] == roles[j].1,
{
    let rp = role_pairs(roles);
    assert(rp[j] == (roles[j].0@, roles[j].1));
    assert forall|k: int| j < k < rp.len() implies (#[trigger] rp[k]).0 != rp[j].0 by {
        assert(rp[k].0 == roles[k].0@);
    }
    lemma_pairs_map_last(rp, j);
}

/// The table of the roles of a node in which nothing stands twice goes by
/// the roles of the node alone.
pub proof fn lemma_role_table_by_roles(a: AclTreeNode, b: AclTreeNode, propagate: bool)
    requires
        node_distinct(a),
        node_distinct(b),
        model_of(a) == model_of(b),
    ensures
        role_table(a, propagate) == role_table(b, propagate),
{
    let empty = Seq::<(Seq<char>, Seq<Seq<char>>)>::empty();
    assert(table_sorted(empty));
    let ua = add_entries(empty, a.users@, propagate, false);
    let ub = add_entries(empty, b.users@, propagate, false);
    lemma_add_entries(empty, a.users@, propagate, false);
    lemma_add_entries(empty, b.users@, propagate, false);
    lemma_add_entries(ua, a.groups@, propagate, true);
    lemma_add_entries(ub, b.groups@, propagate, true);
    let ta = role_table(a, propagate);
    let tb = role_table(b, propagate);
    assert(entry_map(a.users@) == entry_map(b.users@));
    assert(entry_map(a.groups@) == entry_map(b.groups@));
    assert forall|k: Seq<char>, y: Seq<char>| #[trigger] has_pair(ta, k, y) implies has_pair(
        tb,
        k,
        y,
    ) by {
        lemma_entries_give_by_map(a.users@, false, propagate, k, y);
        lemma_entries_give_by_map(b.users@, false, propagate, k, y);
        lemma_entries_give_by_map(a.groups@, true, propagate, k, y);
        lemma_entries_give_by_map(b.groups@, true, propagate, k, y);
        if has_pair(ua, k, y) {
            assert(!has_pair(empty, k, y));
            assert(entries_give(b.users@, false, propagate, k, y));
            assert(has_pair(ub, k, y));
        }
    }
    assert forall|k: Seq<char>, y: Seq<char>| #[trigger] has_pair(tb, k, y) implies has_pair(
        ta,
        k,
        y,
    ) by {
        lemma_entries_give_by_map(a.users@, false, propagate, k, y);
        lemma_entries_give_by_map(b.users@, false, propagate, k, y);
        lemma_entries_give_by_map(a.groups@, true, propagate, k, y);
        lemma_entries_give_by_map(b.groups@, true, propagate, k, y);
        if has_pair(ub, k, y) {
            assert(!has_pair(empty, k, y));
            assert(entries_give(a.users@, false, propagate, k, y));
            assert(has_pair(ua, k, y));
        }
    }
    lemma_table_same(ta, tb);
}

/// The lines of a node go by its roles alone: two nodes in which nothing
/// stands twice and that give the same roles to the same users and groups
/// are written alike, in whatever order the roles were given.
pub proof fn law_node_text_by_roles(a: AclTreeNode, b: AclTreeNode, path: Seq<char>)
    requires
        node_distinct(a),
        node_distinct(b),
        model_of(a) == model_of(b),
    ensures
        node_text(a, path) == node_text(b, path),
{
    lemma_role_table_by_roles(a, b, false);
    lemma_role_table_by_roles(a, b, true);
}

/// The names of the children of an order, in that order.
pub open spec fn ordered_names(children: Seq<(String, AclTreeNode)>, order: Seq<usize>) -> Seq<
    Seq<char>,
> {
    Seq::new(order.len(), |k: int| children[order[k] as int].0@)
}

/// The names of an order with one more child are the names of the order
/// with the name of that child added.
pub proof fn lemma_order_insert_names(
    children: Seq<(String, AclTreeNode)>,
    order: Seq<usize>,
    j: usize,
)
    requires
        forall|i: int| 0 <= i < order.len() ==> (#[trigger] order[i]) < children.len(),
        j < children.len(),
    ensures
        ordered_names(children, order_insert(children, order, j)) == sorted_insert(
            ordered_names(children, order),
            children[j as int].0@,
        ),
    decreases order.len(),
{
    let r = order_insert(children, order, j);
    let names = ordered_names(children, order);
    let x = children[j as int].0@;
    if order.len() == 0 {
        assert(ordered_names(children, r) =~= seq![x]);
    } else if lex_less(x, children[order[0] as int].0@) {
        assert(names[0] == children[order[0] as int].0@);
        assert(r =~= seq![j] + order);
        assert(ordered_names(children, r) =~= seq![x] + names);
    } else if x == children[order[0] as int].0@ {
        assert(names[0] == children[order[0] as int].0@);
        assert(r =~= seq![j] + order.drop_first());
        assert(ordered_names(children, r) =~= names);
    } else {
        let rest = order.drop_first();
        assert forall|i: int| 0 <= i < rest.len() implies (#[trigger] rest[i]) < children.len() by {
            assert(rest[i] == order[i + 1]);
        }
        lemma_order_insert_names(children, rest, j);
        assert(names[0] == children[order[0] as int].0@);
        assert(ordered_names(children, rest) =~= names.drop_first());
        assert(r =~= seq![order[0]] + order_insert(children, rest, j));
        assert(ordered_names(children, r) =~= seq![names[0]] + ordered_names(
            children,
            order_insert(children, rest, j),
        ));
    }
}

/// The order of the first children of a node: its names are sorted, and
/// they are the names of those children.
pub proof fn lemma_child_order(children: Seq<(String, AclTreeNode)>, n: int)
    requires
        0 <= n <= children.len(),
        children.len() <= usize::MAX,
    ensures
        forall|k: int|
            0 <= k < child_order(children, n).len() ==> (#[trigger] child_order(children, n)[k])
                < n,
        strictly_sorted(ordered_names(children, child_order(children, n))),
        forall|y: Seq<char>| #[trigger]
            ordered_names(children, child_order(children, n)).contains(y) ==> exists|i: int|
                0 <= i < n && (#[trigger] children[i]).0@ == y,
        forall|i: int|
            0 <= i < n ==> ordered_names(children, child_order(children, n)).contains(
                (#[trigger] children[i]).0@,
            ),
    decreases n,
{
    let ord = child_order(children, n);
    if n <= 0 {
        assert(ordered_names(children, ord) =~= Seq::<Seq<char>>::empty());
    } else {
        let before = child_order(children, n - 1);
        let j = (n - 1) as usize;
        assert(j as int == n - 1);
        lemma_child_order(children, n - 1);
        assert forall|i: int| 0 <= i < before.len() implies (#[trigger] before[i]) < j by {
            assert(child_order(children, n - 1)[i] < n - 1);
        }
        assert forall|i: int| 0 <= i < before.len() implies (#[trigger] before[i])
            < children.len() by {
            assert(child_order(children, n - 1)[i] < n - 1);
        }
        assert(ord == order_insert(children, before, j));
        assert forall|k: int| 0 <= k < ord.len() implies (#[trigger] ord[k]) < n by {
            lemma_order_insert_bound(children, before, j, k);
        }
        lemma_order_insert_names(children, before, j);
        let names_before = ordered_names(children, before);
        let names = ordered_names(children, ord);
        lemma_sorted_insert(names_before, children[j as int].0@);
        assert forall|y: Seq<char>| #[trigger] names.contains(y) implies exists|i: int|
            0 <= i < n && (#[trigger] children[i]).0@ == y by {
            if y != children[j as int].0@ {
                assert(names_before.contains(y));
                let i = choose|i: int| 0 <= i < n - 1 && (#[trigger] children[i]).0@ == y;
                assert(0 <= i < n && children[i].0@ == y);
            } else {
                assert(children[j as int].0@ == y);
            }
        }
        assert(names == sorted_insert(names_before, children[j as int].0@));
        assert forall|i: int| 0 <= i < n implies names.contains((#[trigger] children[i]).0@) by {
            if i < n - 1 {
                assert(names_before.contains(children[i].0@));
            } else {
                assert(i == j as int);
            }
        }
    }
}

/// The texts of children that are written alike and stand in the same
/// order are the same.
pub proof fn lemma_children_text(
    a: AclTreeNode,
    b: AclTreeNode,
    oa: Seq<usize>,
    ob: Seq<usize>,
    path: Seq<char>,
)
    requires
        oa.len() == ob.len(),
        forall|k: int| 0 <= k < oa.len() ==> (#[trigger] oa[k]) < a.children@.len(),
        forall|k: int| 0 <= k < ob.len() ==> (#[trigger] ob[k]) < b.children@.len(),
        forall|k: int|
            0 <= k < oa.len() ==> a.children@[oa[k] as int].0@ == b.children@[ob[k] as int].0@
                && config_text(
                a.children@[oa[k] as int].1,
                path + "/"@ + a.children@[oa[k] as int].0@,
            ) == config_text(
                b.children@[#[trigger] ob[k] as int].1,
                path + "/"@ + b.children@[ob[k] as int].0@,
            ),
    ensures
        children_text(a, oa, path) == children_text(b, ob, path),
    decreases oa.len(),
{
    if oa.len() > 0 {
        let ia = oa.drop_last();
        let ib = ob.drop_last();
        assert forall|k: int| 0 <= k < ia.len() implies (#[trigger] ia[k]) < a.children@.len() by {
            assert(ia[k] == oa[k]);
        }
        assert forall|k: int| 0 <= k < ib.len() implies (#[trigger] ib[k]) < b.children@.len() by {
            assert(ib[k] == ob[k]);
        }
        assert forall|k: int| 0 <= k < ia.len() implies a.children@[ia[k] as int].0@
            == b.children@[ib[k] as int].0@ && config_text(
            a.children@[ia[k] as int].1,
            path + "/"@ + a.children@[ia[k] as int].0@,
        ) == config_text(
            b.children@[#[trigger] ib[k] as int].1,
            path + "/"@ + b.children@[ib[k] as int].0@,
        ) by {
            assert(ia[k] == oa[k]);
            assert(ib[k] == ob[k]);
        }
        lemma_children_text(a, b, ia, ib, path);
        let last = oa.len() - 1;
        assert(oa.last() == oa[last]);
        assert(ob.last() == ob[last]);
    }
}

/// The child of a name, in a node in which no child stands twice.
pub proof fn lemma_child_at(node: AclTreeNode, i: int)
    requires
        tree_distinct(node),
        0 <= i < node.children@.len(),
    ensures
        child_map(node).contains_key(node.children@[i].0@),
        child_map(node)[node.children@[i].0@] == node.children@[i].1,
        tree_distinct(node.children@[i].1),
{
    let pairs = child_pairs(node.children@);
    assert(pairs[i] == (node.children@[i].0@, node.children@[i].1));
    assert forall|j: int| i < j < pairs.len() implies (#[trigger] pairs[j]).0 != pairs[i].0 by {
        assert(pairs[j].0 == node.children@[j].0@);
    }
    lemma_pairs_map_last(pairs, i);
}

/// What the tree below a child says is what the tree says on the paths
/// that begin with the name of the child.
pub proof fn lemma_tree_model_below(node: AclTreeNode, c: Seq<char>, q: Seq<Seq<char>>)
    requires
        child_map(node).contains_key(c),
    ensures
        node_at(node, seq![c] + q) == node_at(child_map(node)[c], q),
{
    let p = seq![c] + q;
    assert(p[0] == c);
    assert(p.drop_first() =~= q);
}

/// The text of a tree goes by its roles alone: two trees in which nothing
/// stands twice and that give the same roles on the same paths are
/// written alike, in whatever order the roles were given.
pub proof fn law_config_text_by_roles(a: AclTreeNode, b: AclTreeNode, path: Seq<char>)
    requires
        tree_distinct(a),
        tree_distinct(b),
        tree_model(a) == tree_model(b),
    ensures
        config_text(a, path) == config_text(b, path),
    decreases a,
{
    let none = Seq::<Seq<char>>::empty();
    assert(node_at(a, none) == Some(a));
    assert(node_at(b, none) == Some(b));
    assert(tree_model(a).contains_key(none));
    assert(tree_model(a)[none] == model_of(a));
    assert(tree_model(b)[none] == model_of(b));
    law_node_text_by_roles(a, b, path);
    let ca = a.children@;
    let cb = b.children@;
    assert(ca.len() == a.children.len());
    assert(cb.len() == b.children.len());
    let oa = child_order(ca, ca.len() as int);
    let ob = child_order(cb, cb.len() as int);
    lemma_child_order(ca, ca.len() as int);
    lemma_child_order(cb, cb.len() as int);
    let na = ordered_names(ca, oa);
    let nb = ordered_names(cb, ob);
    assert forall|y: Seq<char>| (na.contains(y) ==> nb.contains(y)) && (nb.contains(y)
        ==> na.contains(y)) by {
        lemma_pairs_map_keys(child_pairs(ca), y);
        lemma_pairs_map_keys(child_pairs(cb), y);
        let one = seq![y];
        assert(one[0] == y);
        assert(one.drop_first() =~= none);
        if na.contains(y) {
            let i = choose|i: int| 0 <= i < ca.len() && (#[trigger] ca[i]).0@ == y;
            assert(child_pairs(ca)[i].0 == y);
            assert(child_map(a).contains_key(y));
            assert(node_at(child_map(a)[y], none) is Some);
            assert(node_at(a, one) is Some);
            assert(tree_model(a).contains_key(one));
            assert(tree_model(b).contains_key(one));
            if !child_map(b).contains_key(y) {
                assert(node_at(b, one) is None);
            }
            assert(child_map(b).contains_key(y));
            let j = choose|j: int|
                0 <= j < child_pairs(cb).len() && (#[trigger] child_pairs(cb)[j]).0 == y;
            assert(cb[j].0@ == y);
        }
        if nb.contains(y) {
            let i = choose|i: int| 0 <= i < cb.len() && (#[trigger] cb[i]).0@ == y;
            assert(child_pairs(cb)[i].0 == y);
            assert(child_map(b).contains_key(y));
            assert(node_at(child_map(b)[y], none) is Some);
            assert(node_at(b, one) is Some);
            assert(tree_model(b).contains_key(one));
            assert(tree_model(a).contains_key(one));
            if !child_map(a).contains_key(y) {
                assert(node_at(a, one) is None);
            }
            assert(child_map(a).contains_key(y));
            let j = choose|j: int|
                0 <= j < child_pairs(ca).len() && (#[trigger] child_pairs(ca)[j]).0 == y;
            assert(ca[j].0@ == y);
        }
    }
    lemma_sorted_same(na, nb);
    assert(na.len() == oa.len());
    assert(nb.len() == ob.len());
    assert forall|k: int| 0 <= k < oa.len() implies ca[oa[k] as int].0@ == cb[ob[k] as int].0@
        && config_text(ca[oa[k] as int].1, path + "/"@ + ca[oa[k] as int].0@) == config_text(
        cb[#[trigger] ob[k] as int].1,
        path + "/"@ + cb[ob[k] as int].0@,
    ) by {
        let ia = oa[k] as int;
        let ib = ob[k] as int;
        assert(na[k] == ca[ia].0@);
        assert(nb[k] == cb[ib].0@);
        assert(na[k] == nb[k]);
        let c = ca[ia].0@;
        assert(cb[ib].0@ == c);
        lemma_child_at(a, ia);
        lemma_child_at(b, ib);
        let x = ca[ia].1;
        let y = cb[ib].1;
        assert(child_map(a)[c] == x);
        assert(child_map(b)[c] == y);
        assert forall|q: Seq<Seq<char>>| tree_model(x).contains_key(q) <==> tree_model(
            y,
        ).contains_key(q) by {
            lemma_tree_model_below(a, c, q);
            lemma_tree_model_below(b, c, q);
            let p = seq![c] + q;
            assert(tree_model(a).contains_key(p) == (node_at(a, p) is Some));
            assert(tree_model(b).contains_key(p) == (node_at(b, p) is Some));
            assert(tree_model(x).contains_key(q) == (node_at(x, q) is Some));
            assert(tree_model(y).contains_key(q) == (node_at(y, q) is Some));
        }
        assert forall|q: Seq<Seq<char>>| tree_model(x).contains_key(q) implies tree_model(x)[q]
            == tree_model(y)[q] by {
            lemma_tree_model_below(a, c, q);
            lemma_tree_model_below(b, c, q);
            let p = seq![c] + q;
            assert(tree_model(a).contains_key(p));
            assert(tree_model(a)[p] == model_of(node_at(a, p)->0));
            assert(tree_model(b)[p] == model_of(node_at(b, p)->0));
            assert(tree_model(a)[p] == tree_model(b)[p]);
        }
        assert(tree_model(x) =~= tree_model(y));
        law_config_text_by_roles(a.children@[ia].1, b.children@[ib].1, path + "/"@ + c);
    }
    lemma_children_text(a, b, oa, ob, path);
}

impl AclTree {
    /// The text of a tree goes by its roles alone: two trees that were
    /// made by reading texts or by giving and taking roles, and that give
    /// the same roles on the same paths, are written alike.
    pub proof fn law_text_by_roles(&self, other: &AclTree)
        requires
            self.wf(),
            other.wf(),
            self@ == other@,
        ensures
            config_text(self.root, Seq::<char>::empty()) == config_text(
                other.root,
                Seq::<char>::empty(),
            ),
    {
        law_config_text_by_roles(self.root, other.root, Seq::<char>::empty());
    }
}

} // verus!

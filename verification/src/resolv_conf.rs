//! The resolver configuration of a node: which search domain it names, and
//! what the file holds after an update.

use vstd::prelude::*;
use crate::text::{
    append_chars, is_space, is_whitespace, split, split_spec, starts_with, string_of, sub_chars,
    to_chars, trim_start, trim_start_spec, views,
};

verus! {

/// A piece of a text that ended in a line feed, without the carriage
/// return before the line feed.
pub open spec fn strip_cr(piece: Seq<char>) -> Seq<char> {
    if piece.len() > 0 && piece.last() == '\r' {
        piece.drop_last()
    } else {
        piece
    }
}

/// The lines of a text: what stands between line feeds, each without the
/// carriage return before its line feed; what follows the last line feed
/// is a line if it is not empty.
pub open spec fn lines_spec(text: Seq<char>) -> Seq<Seq<char>> {
    let pieces = split_spec(text, '\n');
    let body = Seq::new((pieces.len() - 1) as nat, |i: int| strip_cr(pieces[i]));
    if pieces.last().len() > 0 {
        body.push(pieces.last())
    } else {
        body
    }
}

/// The lines of a text.
pub fn lines(text: &Vec<char>) -> (list: Vec<Vec<char>>)
    ensures
        views(list@) == lines_spec(text@),
{
    let pieces = split(text, '\n');
    let ghost pv = views(pieces@);
    let n: usize = pieces.len() - 1;
    let mut list: Vec<Vec<char>> = Vec::new();
    let mut i: usize = 0;
    while i < n
        invariant
            i <= n,
            n == pieces.len() - 1,
            pv == views(pieces@),
            list.len() == i,
            forall|k: int| 0 <= k < i ==> (#[trigger] list@[k])@ == strip_cr(pv[k]),
        decreases n - i,
    {
        let piece = &pieces[i];
        assert(pv[i as int] == piece@);
        let len: usize = piece.len();
        let line = if len > 0 && piece[len - 1] == '\r' {
            let l = sub_chars(piece, 0, len - 1);
            assert(l@ =~= piece@.drop_last());
            l
        } else {
            let l = sub_chars(piece, 0, len);
            assert(l@ =~= piece@);
            l
        };
        list.push(line);
        i += 1;
    }
    let last = &pieces[n];
    assert(pv[n as int] == last@);
    assert(pv.last() == last@);
    if last.len() > 0 {
        let l = sub_chars(last, 0, last.len());
        assert(l@ =~= last@);
        list.push(l);
    }
    assert(views(list@) =~= lines_spec(text@));
    list
}

/// Whether a line begins with a keyword and white space behind it.
pub open spec fn begins_with_keyword(line: Seq<char>, keyword: Seq<char>) -> bool {
    keyword.is_prefix_of(line) && line.len() > keyword.len() && is_space(line[keyword.len() as int])
}

/// Whether a line begins with a keyword and white space behind it.
pub fn has_keyword(line: &Vec<char>, keyword: &str) -> (r: bool)
    ensures
        r == begins_with_keyword(line@, keyword@),
{
    let kw = to_chars(keyword);
    starts_with(line, &kw) && line.len() > kw.len() && is_whitespace(line[kw.len()])
}

/// Whether an update of the resolver configuration leaves a line of the
/// old file out: the line sets the search domain or a name server.
pub open spec fn is_replaced_line(line: Seq<char>) -> bool {
    begins_with_keyword(line, "search"@) || begins_with_keyword(line, "domain"@)
        || begins_with_keyword(line, "nameserver"@)
}

/// The first word of a text: its characters up to the first white space.
pub open spec fn first_word(s: Seq<char>) -> Seq<char>
    decreases s.len(),
{
    if s.len() == 0 || is_space(s[0]) {
        Seq::<char>::empty()
    } else {
        seq![s[0]] + first_word(s.drop_first())
    }
}

/// The first word of a text.
pub fn first_word_of(s: &Vec<char>) -> (word: Vec<char>)
    ensures
        word@ == first_word(s@),
{
    let mut i: usize = 0;
    proof {
        assert(s@.skip(0) =~= s@);
        assert(s@.take(0) + first_word(s@.skip(0)) =~= first_word(s@));
    }
    while i < s.len() && !is_whitespace(s[i])
        invariant
            i <= s.len(),
            first_word(s@) == s@.take(i as int) + first_word(s@.skip(i as int)),
        decreases s.len() - i,
    {
        proof {
            let rest = s@.skip(i as int);
            assert(rest[0] == s@[i as int]);
            assert(rest.drop_first() =~= s@.skip(i + 1));
            assert(s@.take(i as int) + (seq![s@[i as int]] + first_word(s@.skip(i + 1)))
                =~= s@.take(i + 1) + first_word(s@.skip(i + 1)));
        }
        i += 1;
    }
    proof {
        let rest = s@.skip(i as int);
        if i < s.len() {
            assert(rest[0] == s@[i as int]);
        }
        assert(s@.take(i as int) + Seq::<char>::empty() =~= s@.take(i as int));
    }
    let word = sub_chars(s, 0, i);
    assert(word@ =~= s@.take(i as int));
    word
}

/// The search domain that a line behind a keyword names: the first word
/// behind the keyword, if there is one.
pub open spec fn word_behind(line: Seq<char>, keyword: Seq<char>) -> Option<Seq<char>> {
    let rest = trim_start_spec(line.skip(keyword.len() as int));
    if rest.len() > 0 {
        Some(first_word(rest))
    } else {
        None
    }
}

/// The search domain that a line names: the line reads `search` or
/// `domain`, white space, and the domain; white space may stand before.
pub open spec fn search_domain_of_line(line: Seq<char>) -> Option<Seq<char>> {
    let t = trim_start_spec(line);
    if begins_with_keyword(t, "search"@) {
        word_behind(t, "search"@)
    } else if begins_with_keyword(t, "domain"@) {
        word_behind(t, "domain"@)
    } else {
        None
    }
}

fn word_behind_keyword(line: &Vec<char>, keyword: &str) -> (r: Option<Vec<char>>)
    requires
        begins_with_keyword(line@, keyword@),
    ensures
        match word_behind(line@, keyword@) {
            Some(w) => r is Some && r->0@ == w,
            None => r is None,
        },
{
    let kw = to_chars(keyword);
    let behind = sub_chars(line, kw.len(), line.len());
    assert(behind@ =~= line@.skip(kw.len() as int));
    let rest = trim_start(&behind);
    if rest.len() > 0 {
        Some(first_word_of(&rest))
    } else {
        None
    }
}

/// The search domain that a line names.
pub fn search_domain_in_line(line: &Vec<char>) -> (r: Option<Vec<char>>)
    ensures
        match search_domain_of_line(line@) {
            Some(w) => r is Some && r->0@ == w,
            None => r is None,
        },
{
    let t = trim_start(line);
    if has_keyword(&t, "search") {
        word_behind_keyword(&t, "search")
    } else if has_keyword(&t, "domain") {
        word_behind_keyword(&t, "domain")
    } else {
        None
    }
}

/// The search domain that the first `k` lines name: that of the last line
/// that names one.
pub open spec fn search_domain_upto(all: Seq<Seq<char>>, k: int) -> Option<Seq<char>>
    decreases k,
{
    if k <= 0 {
        None
    } else {
        match search_domain_of_line(all[k - 1]) {
            Some(w) => Some(w),
            None => search_domain_upto(all, k - 1),
        }
    }
}

/// The search domain that a resolver configuration names.
pub open spec fn search_domain_spec(data: Seq<char>) -> Option<Seq<char>> {
    search_domain_upto(lines_spec(data), lines_spec(data).len() as int)
}

/// The search domain that a resolver configuration names.
pub fn search_domain(data: &str) -> (r: Option<String>)
    ensures
        match search_domain_spec(data@) {
            Some(w) => r is Some && r->0@ == w,
            None => r is None,
        },
{
    let all = lines(&to_chars(data));
    let ghost lv = views(all@);
    let mut found: Option<String> = None;
    let mut i: usize = 0;
    while i < all.len()
        invariant
            i <= all.len(),
            lv == views(all@),
            match search_domain_upto(lv, i as int) {
                Some(w) => found is Some && found->0@ == w,
                None => found is None,
            },
        decreases all.len() - i,
    {
        assert(lv[i as int] == all@[i as int]@);
        match search_domain_in_line(&all[i]) {
            Some(w) => {
                found = Some(string_of(&w));
            },
            None => {},
        }
        i += 1;
    }
    found
}

/// The lines that set the name servers of an update.
pub open spec fn server_lines(servers: Seq<Option<String>>) -> Seq<char>
    decreases servers.len(),
{
    if servers.len() == 0 {
        Seq::<char>::empty()
    } else {
        server_lines(servers.drop_last()) + match servers.last() {
            Some(s) => "nameserver "@ + s@ + "\n"@,
            None => Seq::<char>::empty(),
        }
    }
}

/// The lines of the old file that an update keeps, each with a line feed.
pub open spec fn kept_lines(all: Seq<Seq<char>>, k: int) -> Seq<char>
    decreases k,
{
    if k <= 0 {
        Seq::<char>::empty()
    } else {
        kept_lines(all, k - 1) + if is_replaced_line(all[k - 1]) {
            Seq::<char>::empty()
        } else {
            all[k - 1] + "\n"@
        }
    }
}

/// What the resolver configuration holds after an update: the search
/// domain, the name servers that the update names, and the lines of the
/// old file that set neither.
pub open spec fn updated_resolv_conf(
    search: Seq<char>,
    servers: Seq<Option<String>>,
    old_data: Seq<char>,
) -> Seq<char> {
    "search "@ + search + "\n"@ + server_lines(servers) + kept_lines(
        lines_spec(old_data),
        lines_spec(old_data).len() as int,
    )
}

/// Puts the resolver configuration of an update together.
pub fn update_resolv_conf(search: &str, servers: &Vec<Option<String>>, old_data: &str) -> (data:
    String)
    ensures
        data@ == updated_resolv_conf(search@, servers@, old_data@),
{
    let mut out: Vec<char> = Vec::new();
    append_chars(&mut out, &to_chars("search "));
    append_chars(&mut out, &to_chars(search));
    append_chars(&mut out, &to_chars("\n"));
    let ghost head = out@;
    assert(head =~= "search "@ + search@ + "\n"@);
    let mut i: usize = 0;
    proof {
        assert(servers@.take(0) =~= Seq::<Option<String>>::empty());
        assert(head + server_lines(servers@.take(0)) =~= head);
    }
    while i < servers.len()
        invariant
            i <= servers.len(),
            out@ == head + server_lines(servers@.take(i as int)),
        decreases servers.len() - i,
    {
        proof {
            let t = servers@.take(i + 1);
            assert(t.drop_last() =~= servers@.take(i as int));
            assert(t.last() == servers@[i as int]);
        }
        let ghost before = out@;
        match &servers[i] {
            Some(server) => {
                append_chars(&mut out, &to_chars("nameserver "));
                append_chars(&mut out, &to_chars(server.as_str()));
                append_chars(&mut out, &to_chars("\n"));
                proof {
                    assert(out@ =~= before + ("nameserver "@ + server@ + "\n"@));
                    assert(out@ =~= head + server_lines(servers@.take(i + 1)));
                }
            },
            None => {
                proof {
                    assert(before + Seq::<char>::empty() =~= before);
                    assert(out@ =~= head + server_lines(servers@.take(i + 1)));
                }
            },
        }
        i += 1;
    }
    assert(servers@.take(servers.len() as int) =~= servers@);
    let ghost with_servers = out@;
    let all = lines(&to_chars(old_data));
    let ghost lv = views(all@);
    let mut k: usize = 0;
    proof {
        assert(with_servers + kept_lines(lv, 0) =~= with_servers);
    }
    while k < all.len()
        invariant
            k <= all.len(),
            lv == views(all@),
            out@ == with_servers + kept_lines(lv, k as int),
        decreases all.len() - k,
    {
        let line = &all[k];
        assert(lv[k as int] == line@);
        let ghost before = out@;
        let replaced: bool = has_keyword(line, "search") || has_keyword(line, "domain")
            || has_keyword(line, "nameserver");
        if !replaced {
            append_chars(&mut out, line);
            append_chars(&mut out, &to_chars("\n"));
            proof {
                assert(out@ =~= before + (line@ + "\n"@));
                assert(out@ =~= with_servers + kept_lines(lv, k + 1));
            }
        } else {
            proof {
                assert(before + Seq::<char>::empty() =~= before);
                assert(out@ =~= with_servers + kept_lines(lv, k + 1));
            }
        }
        k += 1;
    }
    proof {
        assert(out@ =~= updated_resolv_conf(search@, servers@, old_data@));
    }
    string_of(&out)
}

/// The most name servers that are read from a resolver configuration.
pub const MAX_NAMESERVERS: usize = 3;

/// The word that a line gives as a name server: the line reads
/// `nameserver`, white space, and the word; white space may stand before.
pub open spec fn nameserver_of_line(line: Seq<char>) -> Option<Seq<char>> {
    let t = trim_start_spec(line);
    if begins_with_keyword(t, "nameserver"@) {
        word_behind(t, "nameserver"@)
    } else {
        None
    }
}

/// The word that a line gives as a name server.
pub fn nameserver_in_line(line: &Vec<char>) -> (r: Option<Vec<char>>)
    ensures
        match nameserver_of_line(line@) {
            Some(w) => r is Some && r->0@ == w,
            None => r is None,
        },
{
    let t = trim_start(line);
    if has_keyword(&t, "nameserver") {
        word_behind_keyword(&t, "nameserver")
    } else {
        None
    }
}

/// The words that lines give as name servers, in the order of the lines.
pub open spec fn nameserver_words(all: Seq<Seq<char>>) -> Seq<Seq<char>>
    decreases all.len(),
{
    if all.len() == 0 {
        Seq::empty()
    } else {
        let init = nameserver_words(all.drop_last());
        match nameserver_of_line(all.last()) {
            Some(w) => init.push(w),
            None => init,
        }
    }
}

/// The texts of a list of strings.
pub open spec fn word_views(v: Seq<String>) -> Seq<Seq<char>> {
    Seq::new(v.len(), |i: int| v[i]@)
}

/// The words that the lines of a resolver configuration give as name
/// servers, in the order of the lines. Whether a word is an address is
/// not looked at.
pub fn nameserver_candidates(data: &str) -> (words: Vec<String>)
    ensures
        word_views(words@) == nameserver_words(lines_spec(data@)),
{
    let chars = to_chars(data);
    let all = lines(&chars);
    let ghost lv = views(all@);
    let mut words: Vec<String> = Vec::new();
    let mut i: usize = 0;
    proof {
        assert(lv.take(0) =~= Seq::<Seq<char>>::empty());
        assert(word_views(words@) =~= Seq::<Seq<char>>::empty());
    }
    while i < all.len()
        invariant
            i <= all.len(),
            lv == views(all@),
            word_views(words@) == nameserver_words(lv.take(i as int)),
        decreases all.len() - i,
    {
        proof {
            let t = lv.take(i + 1);
            assert(t.drop_last() =~= lv.take(i as int));
            assert(t.last() == all@[i as int]@);
        }
        match nameserver_in_line(&all[i]) {
            Some(w) => {
                let ghost before = word_views(words@);
                let ghost wv = w@;
                words.push(string_of(&w));
                proof {
                    assert(word_views(words@) =~= before.push(wv));
                }
            },
            None => {},
        }
        i += 1;
    }
    proof {
        assert(lv.take(all.len() as int) =~= lv);
    }
    words
}

/// Whether the word at a place is marked as an address: the list of marks
/// has a mark for it, and the mark is set.
pub open spec fn is_marked(valid: Seq<bool>, i: int) -> bool {
    0 <= i < valid.len() && valid[i]
}

/// The name servers among the first `k` words: the first three that are
/// marked as addresses.
pub open spec fn chosen_servers(words: Seq<Seq<char>>, valid: Seq<bool>, k: int) -> Seq<Seq<char>>
    decreases k,
{
    if k <= 0 {
        Seq::empty()
    } else {
        let init = chosen_servers(words, valid, k - 1);
        if is_marked(valid, k - 1) && init.len() < MAX_NAMESERVERS {
            init.push(words[k - 1])
        } else {
            init
        }
    }
}

/// The name servers of a resolver configuration: the first three of the
/// words that its lines give as name servers and that are marked as
/// addresses.
pub fn select_nameservers(words: &Vec<String>, valid: &Vec<bool>) -> (servers: Vec<String>)
    ensures
        word_views(servers@) == chosen_servers(word_views(words@), valid@, words@.len() as int),
        servers.len() <= MAX_NAMESERVERS,
{
    let ghost wv = word_views(words@);
    let mut servers: Vec<String> = Vec::new();
    let mut i: usize = 0;
    proof {
        assert(word_views(servers@) =~= Seq::<Seq<char>>::empty());
    }
    while i < words.len()
        invariant
            i <= words.len(),
            wv == word_views(words@),
            word_views(servers@) == chosen_servers(wv, valid@, i as int),
            servers.len() <= MAX_NAMESERVERS,
        decreases words.len() - i,
    {
        let marked: bool = i < valid.len() && valid[i];
        if marked && servers.len() < MAX_NAMESERVERS {
            let ghost before = word_views(servers@);
            servers.push(words[i].clone());
            proof {
                assert(wv[i as int] == words@[i as int]@);
                assert(word_views(servers@) =~= before.push(wv[i as int]));
            }
        }
        i += 1;
    }
    servers
}

} // verus!

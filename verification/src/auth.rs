//! Who owns a backup: users and their API tokens.

use vstd::prelude::*;
use crate::api_types::{is_backup_id, is_id_char, is_id_start, matches_backup_id};
use crate::error::Error;
use crate::text::{
    find_last, is_space, is_whitespace, last_index_of, lemma_last_index_is, lemma_last_index_of,
    push_char, string_of, sub_chars, to_chars,
};

verus! {

/// Whether `c` may stand in a user's name: no white space, no control
/// character, neither `:` nor `/`.
pub open spec fn is_name_char(c: char) -> bool {
    let u = c as u32;
    !is_space(c) && u != 58 && u != 47 && u > 31 && u != 127
}

/// The shape of a user id: a name, `@` and a realm. The realm is what
/// follows the last `@`; it has the shape of an id.
pub open spec fn valid_userid(u: Seq<char>) -> bool {
    match last_index_of(u, '@') {
        None => false,
        Some(p) => {
            &&& p >= 1
            &&& forall|i: int| 0 <= i < p ==> is_name_char(#[trigger] u[i])
            &&& is_backup_id(u.skip(p + 1))
        },
    }
}

/// A user, or an API token of a user, as contracts see it.
pub struct AuthidView {
    pub user: Seq<char>,
    pub tokenname: Option<Seq<char>>,
}

/// Whether the parts have the shape of a user id and of a token name.
pub open spec fn valid_authid(a: AuthidView) -> bool {
    &&& valid_userid(a.user)
    &&& a.tokenname matches Some(t) ==> is_backup_id(t)
}

/// The text of an identity: the user id, and for a token `!` and the
/// token's name behind it.
pub open spec fn authid_text(a: AuthidView) -> Seq<char> {
    match a.tokenname {
        None => a.user,
        Some(t) => a.user.push('!') + t,
    }
}

/// Where the user id ends in the text of an identity: at the last `!` that
/// stands behind the last `@`, or at the end.
pub open spec fn realm_end(s: Seq<char>, at: int) -> int {
    match last_index_of(s, '!') {
        Some(b) => if b >= at {
            b
        } else {
            s.len() as int
        },
        None => s.len() as int,
    }
}

/// The identity that a text stands for.
pub open spec fn parse_authid_spec(s: Seq<char>) -> Option<AuthidView> {
    match last_index_of(s, '@') {
        None => None,
        Some(at) => {
            let end = realm_end(s, at);
            let user = s.take(end);
            if !valid_userid(user) {
                None
            } else if end == s.len() {
                Some(AuthidView { user, tokenname: None })
            } else if is_backup_id(s.skip(end + 1)) {
                Some(AuthidView { user, tokenname: Some(s.skip(end + 1)) })
            } else {
                None
            }
        },
    }
}

/// No character of an id is `@` or `!`.
pub proof fn lemma_id_chars(t: Seq<char>, i: int)
    requires
        is_backup_id(t),
        0 <= i < t.len(),
    ensures
        t[i] != '@',
        t[i] != '!',
{
    if i == 0 {
        assert(is_id_start(t[0]));
    } else {
        assert(is_id_char(t[i]));
    }
}

/// The text of an identity stands for that identity.
pub proof fn lemma_authid_round_trip(a: AuthidView)
    requires
        valid_authid(a),
    ensures
        parse_authid_spec(authid_text(a)) == Some(a),
{
    let u = a.user;
    let s = authid_text(a);
    lemma_last_index_of(u, '@');
    let p = last_index_of(u, '@')->0;
    let realm = u.skip(p + 1);
    match a.tokenname {
        None => {
            lemma_last_index_of(s, '!');
            match last_index_of(s, '!') {
                Some(b) => {
                    if b > p {
                        lemma_id_chars(realm, b - p - 1);
                        assert(realm[b - p - 1] == u[b]);
                    }
                    assert(b != p);
                },
                None => {},
            }
            assert(realm_end(s, p) == s.len());
            assert(s.take(s.len() as int) =~= s);
            assert(parse_authid_spec(s) == Some(AuthidView { user: s, tokenname: None }));
        },
        Some(t) => {
            let n = u.len() as int;
            assert(s.len() == n + 1 + t.len());
            assert(s[p] == u[p]);
            assert forall|j: int| p < j < s.len() implies s[j] != '@' by {
                if j < n {
                    assert(s[j] == u[j]);
                } else if j > n {
                    assert(s[j] == t[j - n - 1]);
                    lemma_id_chars(t, j - n - 1);
                }
            }
            lemma_last_index_is(s, '@', p);
            assert(s[n] == '!');
            assert forall|j: int| n < j < s.len() implies s[j] != '!' by {
                assert(s[j] == t[j - n - 1]);
                lemma_id_chars(t, j - n - 1);
            }
            lemma_last_index_is(s, '!', n);
            assert(realm_end(s, p) == n);
            assert(s.take(n) =~= u);
            assert(s.skip(n + 1) =~= t);
        },
    }
}

/// Whether `u` has the shape of a user id.
pub fn matches_userid(u: &Vec<char>) -> (r: bool)
    ensures
        r == valid_userid(u@),
{
    let p: usize = match find_last(u, '@') {
        None => {
            return false;
        },
        Some(p) => p,
    };
    if p < 1 {
        return false;
    }
    let mut i: usize = 0;
    while i < p
        invariant
            i <= p < u.len(),
            last_index_of(u@, '@') == Some(p as int),
            forall|k: int| 0 <= k < i ==> is_name_char(#[trigger] u@[k]),
        decreases p - i,
    {
        let c = u[i];
        let v: u32 = c as u32;
        if is_whitespace(c) || v == 58 || v == 47 || v <= 31 || v == 127 {
            assert(!is_name_char(u@[i as int]));
            return false;
        }
        i += 1;
    }
    proof {
        lemma_last_index_of(u@, '@');
    }
    let realm = sub_chars(u, p + 1, u.len());
    assert(realm@ =~= u@.skip(p + 1));
    matches_backup_id(&realm)
}

/// A user, or an API token of a user.
#[derive(Debug)]
pub struct Authid {
    user: String,
    tokenname: Option<String>,
}

impl View for Authid {
    type V = AuthidView;

    closed spec fn view(&self) -> AuthidView {
        AuthidView {
            user: self.user@,
            tokenname: match self.tokenname {
                Some(t) => Some(t@),
                None => None,
            },
        }
    }
}

impl Authid {
    #[verifier::type_invariant]
    spec fn inv(self) -> bool {
        valid_authid(self@)
    }

    /// Every identity has the shape of a user id and, for a token, of a
    /// token name. Calling this makes the fact known to a proof.
    pub fn shape_is_valid(&self)
        ensures
            valid_authid(self@),
    {
        proof {
            use_type_invariant(self);
        }
    }

    /// The identity that `text` stands for. Fails with `InvalidInput` on
    /// what is not the text of an identity.
    pub fn parse(text: &str) -> (r: Result<Authid, Error>)
        ensures
            match parse_authid_spec(text@) {
                Some(a) => r is Ok && r->Ok_0@ == a,
                None => r matches Err(e) && e == Error::InvalidInput,
            },
    {
        let s = to_chars(text);
        Authid::parse_chars(&s)
    }

    /// The identity that the characters of a text stand for.
    pub fn parse_chars(s: &Vec<char>) -> (r: Result<Authid, Error>)
        ensures
            match parse_authid_spec(s@) {
                Some(a) => r is Ok && r->Ok_0@ == a,
                None => r matches Err(e) && e == Error::InvalidInput,
            },
    {
        let at: usize = match find_last(s, '@') {
            None => {
                return Err(Error::InvalidInput);
            },
            Some(p) => p,
        };
        let end: usize = match find_last(s, '!') {
            Some(b) => if b >= at {
                b
            } else {
                s.len()
            },
            None => s.len(),
        };
        proof {
            lemma_last_index_of(s@, '!');
        }
        let user = sub_chars(s, 0, end);
        assert(user@ =~= s@.take(end as int));
        if !matches_userid(&user) {
            return Err(Error::InvalidInput);
        }
        if end == s.len() {
            return Ok(Authid { user: string_of(&user), tokenname: None });
        }
        let token = sub_chars(s, end + 1, s.len());
        assert(token@ =~= s@.skip(end + 1));
        if !matches_backup_id(&token) {
            return Err(Error::InvalidInput);
        }
        Ok(Authid { user: string_of(&user), tokenname: Some(string_of(&token)) })
    }

    /// The text of the identity.
    pub fn to_string(&self) -> (s: String)
        ensures
            s@ == authid_text(self@),
    {
        let mut s = self.user.clone();
        match &self.tokenname {
            None => {},
            Some(t) => {
                push_char(&mut s, '!');
                let chars = to_chars(t.as_str());
                let mut i: usize = 0;
                while i < chars.len()
                    invariant
                        i <= chars.len(),
                        chars@ == t@,
                        s@ == self.user@.push('!') + chars@.take(i as int),
                    decreases chars.len() - i,
                {
                    push_char(&mut s, chars[i]);
                    assert(chars@.take(i + 1) =~= chars@.take(i as int).push(chars@[i as int]));
                    assert(s@ =~= self.user@.push('!') + chars@.take(i + 1));
                    i += 1;
                }
                assert(chars@.take(chars.len() as int) =~= chars@);
            },
        }
        s
    }

    /// Whether the identity is an API token.
    pub fn is_token(&self) -> (r: bool)
        ensures
            r == (self@.tokenname is Some),
    {
        self.tokenname.is_some()
    }

    /// The user id of the identity.
    pub fn user(&self) -> (u: &String)
        ensures
            u@ == self@.user,
    {
        &self.user
    }

    /// The user that the identity is or belongs to.
    pub fn without_token(&self) -> (a: Authid)
        ensures
            a@ == (AuthidView { user: self@.user, tokenname: None }),
    {
        proof {
            use_type_invariant(self);
        }
        Authid { user: self.user.clone(), tokenname: None }
    }

    /// A copy of the identity.
    pub fn duplicate(&self) -> (a: Authid)
        ensures
            a@ == self@,
    {
        proof {
            use_type_invariant(self);
        }
        Authid {
            user: self.user.clone(),
            tokenname: match &self.tokenname {
                Some(t) => Some(t.clone()),
                None => None,
            },
        }
    }

    /// Whether two identities are the same.
    pub fn same(&self, other: &Authid) -> (r: bool)
        ensures
            r == (self@ == other@),
    {
        if self.user != other.user {
            return false;
        }
        match (&self.tokenname, &other.tokenname) {
            (None, None) => true,
            (Some(a), Some(b)) => *a == *b,
            _ => false,
        }
    }
}

/// Whether `auth_id` may act as the owner `owner`: it is the owner, or the
/// owner is a token and `auth_id` is the user that the token belongs to.
pub open spec fn is_backup_owner(owner: AuthidView, auth_id: AuthidView) -> bool {
    owner == auth_id || (owner.tokenname is Some && auth_id == AuthidView {
        user: owner.user,
        tokenname: None,
    })
}

/// Checks that `auth_id` may act as the owner `owner`. Fails with
/// `OwnerCheckFailed` if it may not.
pub fn check_backup_owner(owner: &Authid, auth_id: &Authid) -> (r: Result<(), Error>)
    ensures
        r == if is_backup_owner(owner@, auth_id@) {
            Ok::<(), Error>(())
        } else {
            Err::<(), Error>(Error::OwnerCheckFailed)
        },
{
    let correct_owner = owner.same(auth_id) || (owner.is_token() && owner.without_token().same(
        auth_id,
    ));
    if !correct_owner {
        return Err(Error::OwnerCheckFailed);
    }
    Ok(())
}

} // verus!

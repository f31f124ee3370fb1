//! The routes of the API: a tree of directories, each with the methods
//! that it answers, and the configuration that maps paths to files.

use vstd::prelude::*;
use vstd::string::StringExecFns;
use crate::acl::{pairs_map, lemma_pairs_map_keys, lemma_pairs_map_last, string_views};
use crate::text::{push_char, to_chars};

verus! {

/// The line that reports a failure: the message, a colon, and the error.
pub fn log_error(message: &str, error: &str) -> (line: String)
    ensures
        line@ == message@ + ": "@ + error@,
{
    let mut line = String::from_str(message);
    line.append(": ");
    line.append(error);
    line
}

/// A method of the API.
#[derive(Debug)]
pub struct ApiMethod {
    /// The name of the function that handles the method.
    pub handler: String,
    /// Whether the method has to run in the privileged process.
    pub protected: bool,
}

/// The methods of HTTP that the API answers.
#[derive(Clone, Copy, Debug, PartialEq, Eq, Structural)]
pub enum HttpMethod {
    Get,
    Put,
    Post,
    Delete,
    Other,
}

/// A directory of the API: the methods that it answers, and the
/// directories below it.
pub struct Router {
    pub get: Option<ApiMethod>,
    pub put: Option<ApiMethod>,
    pub post: Option<ApiMethod>,
    pub delete: Option<ApiMethod>,
    /// The directories below, by name. Where a name stands twice, the
    /// first counts.
    pub subdirs: Vec<(String, Router)>,
    /// The directory that answers for every name that is no directory
    /// below, with the name of the parameter that takes the name up.
    pub match_all: Option<(String, Box<Router>)>,
    /// Whether `GET` lists the directories below.
    pub lists_subdirs: bool,
}

/// The place of the first directory of this name.
pub open spec fn subdir_index(subdirs: Seq<(String, Router)>, name: Seq<char>) -> Option<int>
    decreases subdirs.len(),
{
    if subdirs.len() == 0 {
        None
    } else if subdirs[0].0@ == name {
        Some(0)
    } else {
        match subdir_index(subdirs.drop_first(), name) {
            Some(i) => Some(i + 1),
            None => None,
        }
    }
}

/// What the place of the first directory of a name means.
pub proof fn lemma_subdir_index(subdirs: Seq<(String, Router)>, name: Seq<char>)
    ensures
        match subdir_index(subdirs, name) {
            Some(i) => 0 <= i < subdirs.len() && subdirs[i].0@ == name && forall|j: int|
                0 <= j < i ==> (#[trigger] subdirs[j]).0@ != name,
            None => forall|j: int| 0 <= j < subdirs.len() ==> (#[trigger] subdirs[j]).0@ != name,
        },
    decreases subdirs.len(),
{
    if subdirs.len() > 0 && subdirs[0].0@ != name {
        let rest = subdirs.drop_first();
        lemma_subdir_index(rest, name);
        match subdir_index(rest, name) {
            Some(i) => {
                assert(rest[i] == subdirs[i + 1]);
                assert forall|j: int| 0 <= j < i + 1 implies (#[trigger] subdirs[j]).0@ != name by {
                    if j > 0 {
                        assert(rest[j - 1] == subdirs[j]);
                    }
                }
            },
            None => {
                assert forall|j: int| 0 <= j < subdirs.len() implies (#[trigger] subdirs[j]).0@
                    != name by {
                    if j > 0 {
                        assert(rest[j - 1] == subdirs[j]);
                    }
                }
            },
        }
    }
}

/// The directory that the components of a path lead to, and the
/// parameters that were taken from the path on the way: each component
/// goes to the directory of its name, or else to the directory that
/// answers for every name.
pub open spec fn route_of(router: Router, components: Seq<Seq<char>>) -> Option<
    (Router, Seq<(Seq<char>, Seq<char>)>),
>
    decreases components.len(),
{
    if components.len() == 0 {
        Some((router, Seq::empty()))
    } else {
        match subdir_index(router.subdirs@, components[0]) {
            Some(i) => route_of(router.subdirs@[i].1, components.drop_first()),
            None => match router.match_all {
                Some(all) => match route_of(*all.1, components.drop_first()) {
                    Some(found) => Some((found.0, seq![(all.0@, components[0])] + found.1)),
                    None => None,
                },
                None => None,
            },
        }
    }
}

/// The name of the parameter of the directory that answers for every
/// name.
pub open spec fn match_all_name(router: Router) -> Seq<char> {
    match router.match_all {
        Some(all) => all.0@,
        None => Seq::<char>::empty(),
    }
}

/// The directory that answers for every name.
pub open spec fn match_all_router(router: Router) -> Router {
    match router.match_all {
        Some(all) => *all.1,
        None => router,
    }
}

/// The views of a list of parameters.
pub open spec fn param_views(params: Seq<(String, String)>) -> Seq<(Seq<char>, Seq<char>)> {
    Seq::new(params.len(), |i: int| (params[i].0@, params[i].1@))
}

impl Router {
    /// A directory that answers no method and has no directories below.
    pub fn new() -> (router: Router)
        ensures
            router.get is None,
            router.put is None,
            router.post is None,
            router.delete is None,
            router.subdirs@.len() == 0,
            router.match_all is None,
            !router.lists_subdirs,
    {
        Router {
            get: None,
            put: None,
            post: None,
            delete: None,
            subdirs: Vec::new(),
            match_all: None,
            lists_subdirs: false,
        }
    }

    /// The directory with this method for `GET`.
    pub fn get(self, method: ApiMethod) -> (router: Router)
        ensures
            router == (Router { get: Some(method), ..self }),
    {
        let mut router = self;
        router.get = Some(method);
        router
    }

    /// The directory with this method for `PUT`.
    pub fn put(self, method: ApiMethod) -> (router: Router)
        ensures
            router == (Router { put: Some(method), ..self }),
    {
        let mut router = self;
        router.put = Some(method);
        router
    }

    /// The directory with this method for `POST`.
    pub fn post(self, method: ApiMethod) -> (router: Router)
        ensures
            router == (Router { post: Some(method), ..self }),
    {
        let mut router = self;
        router.post = Some(method);
        router
    }

    /// The directory with this method for `DELETE`.
    pub fn delete(self, method: ApiMethod) -> (router: Router)
        ensures
            router == (Router { delete: Some(method), ..self }),
    {
        let mut router = self;
        router.delete = Some(method);
        router
    }

    /// The directory with one more directory below it.
    pub fn subdir(self, name: &str, router: Router) -> (r: Router)
        ensures
            r.subdirs@.len() == self.subdirs@.len() + 1,
            r.subdirs@.last().0@ == name@,
            r.subdirs@.last().1 == router,
            r.subdirs@.drop_last() == self.subdirs@,
            r.get == self.get,
            r.put == self.put,
            r.post == self.post,
            r.delete == self.delete,
            r.match_all == self.match_all,
            r.lists_subdirs == self.lists_subdirs,
    {
        let mut r = self;
        r.subdirs.push((String::from_str(name), router));
        assert(r.subdirs@.drop_last() =~= self.subdirs@);
        r
    }

    /// The directory with a directory that answers for every name; the
    /// name goes into the parameter `param_name`.
    pub fn match_all(self, param_name: &str, router: Router) -> (r: Router)
        ensures
            r.match_all is Some,
            match_all_name(r) == param_name@,
            match_all_router(r) == router,
            r.subdirs == self.subdirs,
            r.get == self.get,
            r.put == self.put,
            r.post == self.post,
            r.delete == self.delete,
            r.lists_subdirs == self.lists_subdirs,
    {
        let mut r = self;
        r.match_all = Some((String::from_str(param_name), Box::new(router)));
        r
    }

    /// The directory with a `GET` that lists the directories below.
    pub fn list_subdirs(self) -> (r: Router)
        ensures
            r == (Router { lists_subdirs: true, ..self }),
    {
        let mut r = self;
        r.lists_subdirs = true;
        r
    }

    /// The names of the directories below.
    pub fn subdir_names(&self) -> (names: Vec<String>)
        ensures
            names@.len() == self.subdirs@.len(),
            forall|i: int| 0 <= i < names@.len() ==> (#[trigger] names@[i])@ == self.subdirs@[i].0@,
    {
        let mut names: Vec<String> = Vec::new();
        let mut i: usize = 0;
        while i < self.subdirs.len()
            invariant
                i <= self.subdirs.len(),
                names@.len() == i,
                forall|k: int| 0 <= k < i ==> (#[trigger] names@[k])@ == self.subdirs@[k].0@,
            decreases self.subdirs.len() - i,
        {
            names.push(self.subdirs[i].0.clone());
            i += 1;
        }
        names
    }

    /// The place of the first directory of this name.
    fn find_subdir(&self, name: &String) -> (r: Option<usize>)
        ensures
            r is Some <==> subdir_index(self.subdirs@, name@) is Some,
            r matches Some(k) ==> subdir_index(self.subdirs@, name@) == Some(k as int) && k
                < self.subdirs.len(),
    {
        proof {
            lemma_subdir_index(self.subdirs@, name@);
        }
        let ghost all = self.subdirs@;
        let mut i: usize = 0;
        proof {
            assert(all.skip(0) =~= all);
        }
        while i < self.subdirs.len()
            invariant
                i <= self.subdirs.len(),
                all == self.subdirs@,
                subdir_index(all, name@) == match subdir_index(all.skip(i as int), name@) {
                    Some(k) => Some(k + i),
                    None => None,
                },
            decreases self.subdirs.len() - i,
        {
            proof {
                assert(all.skip(i as int)[0] == all[i as int]);
                assert(all.skip(i as int).drop_first() =~= all.skip(i + 1));
            }
            if self.subdirs[i].0 == *name {
                return Some(i);
            }
            i += 1;
        }
        None
    }

    /// The directory that the components of a path lead to. The
    /// parameters that are taken from the path on the way are added to
    /// `uri_param`.
    pub fn find_route<'a>(&'a self, components: &Vec<String>, uri_param: &mut Vec<(String, String)>) -> (r:
        Option<&'a Router>)
        ensures
            match route_of(*self, string_views(components@)) {
                Some(found) => r is Some && *r->0 == found.0 && param_views(final(uri_param)@)
                    == param_views(old(uri_param)@) + found.1,
                None => r is None,
            },
    {
        assert(string_views(components@).skip(0) =~= string_views(components@));
        self.find_route_from(components, 0, uri_param)
    }

    /// The directory that the components from `depth` on lead to.
    fn find_route_from<'a>(
        &'a self,
        components: &Vec<String>,
        depth: usize,
        uri_param: &mut Vec<(String, String)>,
    ) -> (r: Option<&'a Router>)
        requires
            depth <= components.len(),
        ensures
            match route_of(*self, string_views(components@).skip(depth as int)) {
                Some(found) => r is Some && *r->0 == found.0 && param_views(final(uri_param)@)
                    == param_views(old(uri_param)@) + found.1,
                None => r is None,
            },
        decreases components.len() - depth,
    {
        let ghost rest = string_views(components@).skip(depth as int);
        if depth == components.len() {
            proof {
                assert(rest.len() == 0);
                assert(param_views(uri_param@) + Seq::<(Seq<char>, Seq<char>)>::empty()
                    =~= param_views(uri_param@));
            }
            return Some(self);
        }
        let dir = &components[depth];
        proof {
            assert(rest[0] == dir@);
            assert(rest.drop_first() =~= string_views(components@).skip(depth + 1));
        }
        match self.find_subdir(dir) {
            Some(i) => self.subdirs[i].1.find_route_from(components, depth + 1, uri_param),
            None => match &self.match_all {
                Some(all) => {
                    let ghost before = param_views(uri_param@);
                    let mut params: Vec<(String, String)> = Vec::new();
                    let found = all.1.find_route_from(components, depth + 1, &mut params);
                    match found {
                        Some(router) => {
                            let ghost taken = param_views(params@);
                            let ghost entry = (all.0@, dir@);
                            uri_param.push((all.0.clone(), dir.clone()));
                            proof {
                                assert(param_views(uri_param@) =~= before.push(entry));
                                assert(Seq::<(Seq<char>, Seq<char>)>::empty() + taken =~= taken);
                            }
                            let mut k: usize = 0;
                            while k < params.len()
                                invariant
                                    k <= params.len(),
                                    taken == param_views(params@),
                                    param_views(uri_param@) == before.push(entry) + taken.take(
                                        k as int,
                                    ),
                                decreases params.len() - k,
                            {
                                let ghost cur = param_views(uri_param@);
                                uri_param.push((params[k].0.clone(), params[k].1.clone()));
                                proof {
                                    assert(taken[k as int] == (params@[k as int].0@, params@[k as int].1@));
                                    assert(param_views(uri_param@) =~= cur.push(taken[k as int]));
                                    assert(taken.take(k + 1) =~= taken.take(k as int).push(
                                        taken[k as int],
                                    ));
                                }
                                k += 1;
                            }
                            proof {
                                assert(taken.take(params.len() as int) =~= taken);
                                assert(before.push(entry) + taken =~= before + (seq![entry] + taken));
                            }
                            Some(router)
                        },
                        None => None,
                    }
                },
                None => None,
            },
        }
    }
}

/// The directories of the API's root, put together from the routers of its
/// parts: `access`, `admin`, `config`, `nodes` with a directory for every
/// node, `subscription` and `version`. `GET` on the root lists them.
pub fn router(
    access: Router,
    admin: Router,
    config: Router,
    node: Router,
    subscription: Router,
    version: Router,
) -> (route: Router)
    ensures
        route.lists_subdirs,
        route.match_all is None,
        route.get is None && route.put is None && route.post is None && route.delete is None,
        route.subdirs@.len() == 6,
        route.subdirs@[0].0@ == "access"@ && route.subdirs@[0].1 == access,
        route.subdirs@[1].0@ == "admin"@ && route.subdirs@[1].1 == admin,
        route.subdirs@[2].0@ == "config"@ && route.subdirs@[2].1 == config,
        route.subdirs@[3].0@ == "nodes"@,
        route.subdirs@[3].1.subdirs@.len() == 0,
        route.subdirs@[3].1.match_all is Some,
        match_all_name(route.subdirs@[3].1) == "node"@,
        match_all_router(route.subdirs@[3].1) == node,
        route.subdirs@[4].0@ == "subscription"@ && route.subdirs@[4].1 == subscription,
        route.subdirs@[5].0@ == "version"@ && route.subdirs@[5].1 == version,
{
    let nodes = Router::new().match_all("node", node);
    let r1 = Router::new().subdir("access", access);
    let r2 = r1.subdir("admin", admin);
    assert(r2.subdirs@.drop_last()[0] == r2.subdirs@[0]);
    let r3 = r2.subdir("config", config);
    assert(r3.subdirs@.drop_last()[0] == r3.subdirs@[0]);
    assert(r3.subdirs@.drop_last()[1] == r3.subdirs@[1]);
    let r4 = r3.subdir("nodes", nodes);
    assert(r4.subdirs@.drop_last()[0] == r4.subdirs@[0]);
    assert(r4.subdirs@.drop_last()[1] == r4.subdirs@[1]);
    assert(r4.subdirs@.drop_last()[2] == r4.subdirs@[2]);
    let r5 = r4.subdir("subscription", subscription);
    assert(r5.subdirs@.drop_last()[0] == r5.subdirs@[0]);
    assert(r5.subdirs@.drop_last()[1] == r5.subdirs@[1]);
    assert(r5.subdirs@.drop_last()[2] == r5.subdirs@[2]);
    assert(r5.subdirs@.drop_last()[3] == r5.subdirs@[3]);
    let r6 = r5.subdir("version", version);
    assert(r6.subdirs@.drop_last()[0] == r6.subdirs@[0]);
    assert(r6.subdirs@.drop_last()[1] == r6.subdirs@[1]);
    assert(r6.subdirs@.drop_last()[2] == r6.subdirs@[2]);
    assert(r6.subdirs@.drop_last()[3] == r6.subdirs@[3]);
    assert(r6.subdirs@.drop_last()[4] == r6.subdirs@[4]);
    r6.list_subdirs()
}

/// A path with one more component, as a path buffer takes it up: an
/// absolute component takes the place of the path; else the component
/// goes behind the path, with a slash between unless the path is empty or
/// ends in one.
pub open spec fn path_push(base: Seq<char>, component: Seq<char>) -> Seq<char> {
    if component.len() > 0 && component[0] == '/' {
        component
    } else if base.len() == 0 || base.last() == '/' {
        base + component
    } else {
        base.push('/') + component
    }
}

/// A path with more components, one after the other.
pub open spec fn path_push_all(base: Seq<char>, components: Seq<Seq<char>>) -> Seq<char>
    decreases components.len(),
{
    if components.len() == 0 {
        base
    } else {
        path_push(path_push_all(base, components.drop_last()), components.last())
    }
}

/// Takes one more component up into a path.
pub fn push_component(path: &mut String, component: &str)
    ensures
        final(path)@ == path_push(old(path)@, component@),
{
    let comp = to_chars(component);
    if comp.len() > 0 && comp[0] == '/' {
        *path = String::from_str(component);
        return ;
    }
    let base = to_chars(path.as_str());
    if base.len() > 0 && base[base.len() - 1] != '/' {
        push_char(path, '/');
    }
    path.append(component);
}

/// The pairs of aliases and the directories that they stand for.
pub open spec fn alias_pairs(aliases: Seq<(String, String)>) -> Seq<(Seq<char>, Seq<char>)> {
    Seq::new(aliases.len(), |i: int| (aliases[i].0@, aliases[i].1@))
}

/// The file that the components of a path name: below the base directory,
/// with the directory of an alias in place of the first component if that
/// is an alias.
pub open spec fn alias_path(
    basedir: Seq<char>,
    aliases: Map<Seq<char>, Seq<char>>,
    components: Seq<Seq<char>>,
) -> Seq<char> {
    if components.len() == 0 {
        basedir
    } else if aliases.contains_key(components[0]) {
        path_push_all(path_push(basedir, aliases[components[0]]), components.skip(1))
    } else {
        path_push_all(basedir, components)
    }
}

/// The configuration of the API server: where the files lie that it hands
/// out, and the routes of the API.
pub struct ApiConfig {
    basedir: String,
    router: Router,
    aliases: Vec<(String, String)>,
}

impl ApiConfig {
    /// The base directory.
    pub closed spec fn basedir_spec(&self) -> Seq<char> {
        self.basedir@
    }

    /// The routes of the API.
    pub closed spec fn router_spec(&self) -> Router {
        self.router
    }

    /// The aliases: where a name has been given twice, the later
    /// directory counts.
    pub closed spec fn aliases_spec(&self) -> Map<Seq<char>, Seq<char>> {
        pairs_map(alias_pairs(self.aliases@))
    }

    /// The configuration with this base directory and these routes, and
    /// no aliases.
    pub fn new(basedir: &str, router: Router) -> (config: ApiConfig)
        ensures
            config.basedir_spec() == basedir@,
            config.router_spec() == router,
            config.aliases_spec() == Map::<Seq<char>, Seq<char>>::empty(),
    {
        let config = ApiConfig { basedir: String::from_str(basedir), router, aliases: Vec::new() };
        proof {
            assert(alias_pairs(config.aliases@) =~= Seq::empty());
        }
        config
    }

    /// The method that answers a request, if there is one, and the
    /// parameters that were taken from the path.
    pub fn find_method<'a>(
        &'a self,
        components: &Vec<String>,
        method: HttpMethod,
        uri_param: &mut Vec<(String, String)>,
    ) -> (r: Option<&'a ApiMethod>)
        ensures
            match route_of(self.router_spec(), string_views(components@)) {
                Some(found) => param_views(final(uri_param)@) == param_views(old(uri_param)@)
                    + found.1 && match method_of(found.0, method) {
                    Some(m) => r is Some && *r->0 == m,
                    None => r is None,
                },
                None => r is None,
            },
    {
        match self.router.find_route(components, uri_param) {
            Some(info) => {
                let opt_api_method = match method {
                    HttpMethod::Get => &info.get,
                    HttpMethod::Put => &info.put,
                    HttpMethod::Post => &info.post,
                    HttpMethod::Delete => &info.delete,
                    HttpMethod::Other => {
                        return None;
                    },
                };
                match opt_api_method {
                    Some(api_method) => Some(api_method),
                    None => None,
                }
            },
            None => None,
        }
    }

    /// The file that the components of a path name.
    pub fn find_alias(&self, components: &Vec<String>) -> (filename: String)
        ensures
            filename@ == alias_path(
                self.basedir_spec(),
                self.aliases_spec(),
                string_views(components@),
            ),
    {
        let ghost comps = string_views(components@);
        let mut filename = self.basedir.clone();
        let comp_len: usize = components.len();
        if comp_len >= 1 {
            let from: usize = match self.lookup_alias(&components[0]) {
                Some(i) => {
                    push_component(&mut filename, self.aliases[i].1.as_str());
                    1
                },
                None => 0,
            };
            let ghost start = filename@;
            let ghost rest = comps.skip(from as int);
            let mut i: usize = from;
            proof {
                assert(comps[0] == components@[0]@);
                assert(rest.take(0) =~= Seq::<Seq<char>>::empty());
            }
            while i < comp_len
                invariant
                    from <= i <= comp_len,
                    comp_len == components.len(),
                    comps == string_views(components@),
                    rest == comps.skip(from as int),
                    filename@ == path_push_all(start, rest.take(i - from)),
                decreases comp_len - i,
            {
                proof {
                    let t = rest.take(i - from + 1);
                    assert(t.drop_last() =~= rest.take(i - from));
                    assert(t.last() == components@[i as int]@);
                }
                push_component(&mut filename, components[i].as_str());
                i += 1;
            }
            proof {
                assert(rest.take(comp_len - from) =~= rest);
                if from == 0 {
                    assert(rest =~= comps);
                }
            }
        }
        filename
    }

    /// The place of the last alias of this name.
    fn lookup_alias(&self, name: &String) -> (r: Option<usize>)
        ensures
            r is Some <==> self.aliases_spec().contains_key(name@),
            r matches Some(i) ==> i < self.aliases.len() && self.aliases_spec()[name@]
                == self.aliases@[i as int].1@,
    {
        let ghost pairs = alias_pairs(self.aliases@);
        let mut i: usize = self.aliases.len();
        while i > 0
            invariant
                i <= self.aliases.len(),
                pairs == alias_pairs(self.aliases@),
                forall|j: int| i <= j < self.aliases.len() ==> (#[trigger] self.aliases@[j]).0@ != name@,
            decreases i,
        {
            if self.aliases[i - 1].0 == *name {
                proof {
                    let k = (i - 1) as int;
                    assert(pairs[k] == (self.aliases@[k].0@, self.aliases@[k].1@));
                    assert forall|j: int| k < j < pairs.len() implies (#[trigger] pairs[j]).0
                        != pairs[k].0 by {
                        assert(pairs[j].0 == self.aliases@[j].0@);
                    }
                    lemma_pairs_map_last(pairs, k);
                }
                return Some(i - 1);
            }
            i -= 1;
        }
        proof {
            lemma_pairs_map_keys(pairs, name@);
            if pairs_map(pairs).contains_key(name@) {
                let k = choose|k: int| 0 <= k < pairs.len() && (#[trigger] pairs[k]).0 == name@;
                assert(self.aliases@[k].0@ == name@);
            }
        }
        None
    }

    /// Lets a name stand for a directory.
    pub fn add_alias(&mut self, alias: &str, path: &str)
        ensures
            final(self).aliases_spec() == old(self).aliases_spec().insert(alias@, path@),
            final(self).basedir_spec() == old(self).basedir_spec(),
            final(self).router_spec() == old(self).router_spec(),
    {
        let ghost before = alias_pairs(self.aliases@);
        self.aliases.push((String::from_str(alias), String::from_str(path)));
        proof {
            assert(alias_pairs(self.aliases@).drop_last() =~= before);
            assert(alias_pairs(self.aliases@).last() == (alias@, path@));
        }
    }
}

/// The method of a directory that answers a method of HTTP.
pub open spec fn method_of(router: Router, method: HttpMethod) -> Option<ApiMethod> {
    match method {
        HttpMethod::Get => router.get,
        HttpMethod::Put => router.put,
        HttpMethod::Post => router.post,
        HttpMethod::Delete => router.delete,
        HttpMethod::Other => None,
    }
}


/// What the server does with a request.
pub enum RequestRoute<'a> {
    /// The request goes to a method of the API.
    Call(&'a ApiMethod),
    /// The request asks for a format that the API does not speak.
    UnsupportedFormat,
    /// The path names a directory of the API; the directory does not
    /// answer the method.
    NoSuchMethod,
    /// The path names no directory of the API.
    NoSuchPath,
    /// The request is one for the web interface.
    WebGui,
}

/// What the server does with a request, as contracts see it.
pub enum RouteView {
    Call(ApiMethod),
    UnsupportedFormat,
    NoSuchMethod,
    NoSuchPath,
    WebGui,
}

/// What the server does with a request for a path: a path below `api3`
/// names a format and a directory of the API; everything else is for the
/// web interface.
pub open spec fn route_request_spec(root: Router, method: HttpMethod, path: Seq<char>) -> RouteView {
    let components = crate::acl::acl_path_spec(path);
    if components.len() >= 2 && components[0] == "api3"@ {
        if components[1] != "json"@ {
            RouteView::UnsupportedFormat
        } else {
            match route_of(root, components.skip(2)) {
                None => RouteView::NoSuchPath,
                Some(found) => match method_of(found.0, method) {
                    Some(m) => RouteView::Call(m),
                    None => RouteView::NoSuchMethod,
                },
            }
        }
    } else {
        RouteView::WebGui
    }
}

/// The view of a route.
pub open spec fn route_view(route: RequestRoute<'_>) -> RouteView {
    match route {
        RequestRoute::Call(m) => RouteView::Call(*m),
        RequestRoute::UnsupportedFormat => RouteView::UnsupportedFormat,
        RequestRoute::NoSuchMethod => RouteView::NoSuchMethod,
        RequestRoute::NoSuchPath => RouteView::NoSuchPath,
        RequestRoute::WebGui => RouteView::WebGui,
    }
}

/// Decides what the server does with a request.
pub fn route_request<'a>(root: &'a Router, method: HttpMethod, path: &str) -> (route: RequestRoute<
    'a,
>)
    ensures
        route_view(route) == route_request_spec(*root, method, path@),
{
    let components = crate::acl::split_acl_path(path);
    let comp_len: usize = components.len();
    let ghost comps = string_views(components@);
    if comp_len >= 2 && components[0] == String::from_str("api3") {
        assert(comps[0] == components@[0]@);
        assert(comps[1] == components@[1]@);
        if components[1] != String::from_str("json") {
            return RequestRoute::UnsupportedFormat;
        }
        let mut params: Vec<(String, String)> = Vec::new();
        match root.find_route_from(&components, 2, &mut params) {
            None => RequestRoute::NoSuchPath,
            Some(info) => {
                let opt_api_method = match method {
                    HttpMethod::Get => &info.get,
                    HttpMethod::Put => &info.put,
                    HttpMethod::Post => &info.post,
                    HttpMethod::Delete => &info.delete,
                    HttpMethod::Other => {
                        return RequestRoute::NoSuchMethod;
                    },
                };
                match opt_api_method {
                    Some(api_method) => RequestRoute::Call(api_method),
                    None => RequestRoute::NoSuchMethod,
                }
            },
        }
    } else {
        if comp_len >= 1 {
            assert(comps[0] == components@[0]@);
        }
        RequestRoute::WebGui
    }
}

} // verus!

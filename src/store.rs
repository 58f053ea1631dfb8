//! The server store: the records of all known servers, unique by name, held
//! in name order so that what is written to disk is the same for the same
//! records, whatever order they were added in.
use vstd::prelude::*;
use crate::error::ApplicationError;
use crate::fuzzy::closest_text;
use crate::names::{lemma_name_lt_irreflexive, lemma_name_lt_total, lemma_name_lt_transitive, compare_names, name_lt};
use crate::project::Project;
use crate::server::{fresh_server, Server, ServerView};

verus! {

/// The views of a sequence of servers.
pub open spec fn views(s: Seq<Server>) -> Seq<ServerView> {
    s.map_values(|x: Server| x@)
}

/// Names strictly increase along the sequence.
pub open spec fn sorted_by_name(s: Seq<ServerView>) -> bool {
    forall|i: int, j: int| #![trigger s[i], s[j]] 0 <= i < j < s.len() ==> name_lt(s[i].name, s[j].name)
}

/// No name occurs twice.
pub open spec fn unique_names(s: Seq<ServerView>) -> bool {
    forall|i: int, j: int|
        #![trigger s[i], s[j]]
        0 <= i < s.len() && 0 <= j < s.len() && i != j ==> s[i].name != s[j].name
}

/// The records of a sequence, keyed by name.
pub open spec fn to_map(s: Seq<ServerView>) -> Map<Seq<char>, ServerView> {
    Map::new(
        |k: Seq<char>| exists|i: int| 0 <= i < s.len() && s[i].name == k,
        |k: Seq<char>| s[choose|i: int| 0 <= i < s.len() && s[i].name == k],
    )
}

/// The records of a sequence keyed by name, where a later record of a name
/// replaces an earlier one.
pub open spec fn records_map(s: Seq<ServerView>) -> Map<Seq<char>, ServerView>
    decreases s.len(),
{
    if s.len() == 0 {
        Map::empty()
    } else {
        records_map(s.drop_last()).insert(s.last().name, s.last())
    }
}

/// `x` is how the records `m` are written: each once, in name order.
pub open spec fn written_form(m: Map<Seq<char>, ServerView>, x: Seq<ServerView>) -> bool {
    sorted_by_name(x) && to_map(x) == m
}

/// Some server of `m` lives in `dir`.
pub open spec fn dir_taken(m: Map<Seq<char>, ServerView>, dir: Seq<char>) -> bool {
    exists|k: Seq<char>| m.contains_key(k) && #[trigger] m[k].dir == dir
}

/// No two servers live in the same directory.
pub open spec fn dirs_unique(m: Map<Seq<char>, ServerView>) -> bool {
    forall|a: Seq<char>, b: Seq<char>|
        #![trigger m[a], m[b]]
        m.contains_key(a) && m.contains_key(b) && a != b ==> m[a].dir != m[b].dir
}

/// Putting `v` under `k`, after taking out `gone`, keeps directories unique
/// when no other server lives in `v`'s directory.
proof fn lemma_dirs_unique_put(m: Map<Seq<char>, ServerView>, gone: Seq<char>, k: Seq<char>, v: ServerView)
    requires
        dirs_unique(m),
        forall|b: Seq<char>| m.contains_key(b) && b != gone && b != k ==> #[trigger] m[b].dir != v.dir,
    ensures
        dirs_unique(m.remove(gone).insert(k, v)),
{
    let n = m.remove(gone).insert(k, v);
    assert forall|a: Seq<char>, b: Seq<char>|
        n.contains_key(a) && n.contains_key(b) && a != b implies #[trigger] n[a].dir != #[trigger] n[b].dir by {
        if a == k {
            assert(m[b].dir != v.dir);
        } else if b == k {
            assert(m[a].dir != v.dir);
        } else {
            assert(m[a] == m[a] && m[b] == m[b]);
        }
    }
}

/// The record `v` under a new name.
pub open spec fn renamed(v: ServerView, name: Seq<char>) -> ServerView {
    ServerView { name, ..v }
}

/// The record `v` with a new start command.
pub open spec fn with_command(v: ServerView, start_command: Seq<char>) -> ServerView {
    ServerView { start_command, ..v }
}

/// The record `v` with a new score.
pub open spec fn with_frecency(v: ServerView, frecency: u64) -> ServerView {
    ServerView { frecency, ..v }
}

proof fn lemma_sorted_unique(s: Seq<ServerView>)
    requires
        sorted_by_name(s),
    ensures
        unique_names(s),
{
    assert forall|i: int, j: int|
        0 <= i < s.len() && 0 <= j < s.len() && i != j implies #[trigger] s[i].name
        != #[trigger] s[j].name by {
        if i < j {
            lemma_name_lt_irreflexive(s[i].name);
        } else {
            lemma_name_lt_irreflexive(s[j].name);
        }
    }
}

proof fn lemma_index(s: Seq<ServerView>, i: int)
    requires
        unique_names(s),
        0 <= i < s.len(),
    ensures
        to_map(s).contains_key(s[i].name),
        to_map(s)[s[i].name] == s[i],
{
    let k = s[i].name;
    assert(exists|j: int| 0 <= j < s.len() && s[j].name == k);
    let j = choose|j: int| 0 <= j < s.len() && s[j].name == k;
    assert(s[j] == s[j] && s[i] == s[i]);
    assert(j == i);
}

proof fn lemma_entry(s: Seq<ServerView>, k: Seq<char>) -> (i: int)
    requires
        unique_names(s),
        to_map(s).contains_key(k),
    ensures
        0 <= i < s.len(),
        s[i].name == k,
        to_map(s)[k] == s[i],
{
    let i = choose|i: int| 0 <= i < s.len() && s[i].name == k;
    lemma_index(s, i);
    i
}

proof fn lemma_insert(s: Seq<ServerView>, p: int, v: ServerView)
    requires
        unique_names(s),
        0 <= p <= s.len(),
        forall|i: int| 0 <= i < s.len() ==> #[trigger] s[i].name != v.name,
    ensures
        unique_names(s.insert(p, v)),
        to_map(s.insert(p, v)) == to_map(s).insert(v.name, v),
{
    let t = s.insert(p, v);
    assert forall|i: int, j: int|
        0 <= i < t.len() && 0 <= j < t.len() && i != j implies #[trigger] t[i].name
        != #[trigger] t[j].name by {
        let a = if i < p { i } else { i - 1 };
        let b = if j < p { j } else { j - 1 };
        if i != p && j != p {
            assert(s[a] == s[a] && s[b] == s[b]);
        } else if i != p {
            assert(s[a] == s[a]);
        } else {
            assert(s[b] == s[b]);
        }
    }
    let m = to_map(s).insert(v.name, v);
    assert forall|k: Seq<char>| #[trigger] to_map(t).contains_key(k) <==> m.contains_key(k) by {
        if to_map(t).contains_key(k) {
            let i = choose|i: int| 0 <= i < t.len() && t[i].name == k;
            if i < p {
                assert(s[i].name == k);
            } else if i > p {
                assert(s[i - 1].name == k);
            }
        }
        if m.contains_key(k) && k != v.name {
            let i = choose|i: int| 0 <= i < s.len() && s[i].name == k;
            if i < p {
                assert(t[i].name == k);
            } else {
                assert(t[i + 1].name == k);
            }
        }
        if k == v.name {
            assert(t[p].name == k);
        }
    }
    assert forall|k: Seq<char>| m.contains_key(k) implies to_map(t)[k] == m[k] by {
        if k == v.name {
            lemma_index(t, p);
        } else {
            let i = lemma_entry(s, k);
            if i < p {
                lemma_index(t, i);
            } else {
                lemma_index(t, i + 1);
            }
        }
    }
    assert(to_map(t) =~= m);
}

proof fn lemma_remove(s: Seq<ServerView>, p: int)
    requires
        unique_names(s),
        0 <= p < s.len(),
    ensures
        unique_names(s.remove(p)),
        to_map(s.remove(p)) == to_map(s).remove(s[p].name),
{
    let t = s.remove(p);
    let gone = s[p].name;
    assert forall|i: int, j: int|
        0 <= i < t.len() && 0 <= j < t.len() && i != j implies #[trigger] t[i].name
        != #[trigger] t[j].name by {
        let a = if i < p { i } else { i + 1 };
        let b = if j < p { j } else { j + 1 };
        assert(s[a] == s[a] && s[b] == s[b]);
    }
    let m = to_map(s).remove(gone);
    assert forall|k: Seq<char>| #[trigger] to_map(t).contains_key(k) <==> m.contains_key(k) by {
        if to_map(t).contains_key(k) {
            let i = choose|i: int| 0 <= i < t.len() && t[i].name == k;
            let a = if i < p { i } else { i + 1 };
            assert(s[a].name == k);
            assert(s[p] == s[p] && s[a] == s[a]);
        }
        if m.contains_key(k) {
            let i = choose|i: int| 0 <= i < s.len() && s[i].name == k;
            if i < p {
                assert(t[i].name == k);
            } else {
                assert(t[i - 1].name == k);
            }
        }
    }
    assert forall|k: Seq<char>| m.contains_key(k) implies to_map(t)[k] == m[k] by {
        let i = lemma_entry(s, k);
        if i < p {
            lemma_index(t, i);
        } else {
            lemma_index(t, i - 1);
        }
    }
    assert(to_map(t) =~= m);
}

/// A sequence without repeated names holds the same records whether later
/// ones replace earlier ones or not.
proof fn lemma_records_map(x: Seq<ServerView>)
    requires
        unique_names(x),
    ensures
        records_map(x) == to_map(x),
    decreases x.len(),
{
    if x.len() == 0 {
        assert(to_map(x) =~= Map::empty());
    } else {
        let y = x.drop_last();
        assert(unique_names(y)) by {
            assert forall|i: int, j: int|
                0 <= i < y.len() && 0 <= j < y.len() && i != j implies #[trigger] y[i].name
                != #[trigger] y[j].name by {
                assert(x[i] == x[i] && x[j] == x[j]);
            }
        }
        lemma_records_map(y);
        assert forall|i: int| 0 <= i < y.len() implies #[trigger] y[i].name != x.last().name by {
            assert(x[i] == x[i] && x[x.len() - 1] == x[x.len() - 1]);
        }
        lemma_insert(y, y.len() as int, x.last());
        assert(y.insert(y.len() as int, x.last()) =~= x);
    }
}

/// Two stores that hold the same records produce the same written form,
/// whatever order the records were added in: the written form of a set of
/// records is unique.
pub proof fn law_written_form_determined(
    m: Map<Seq<char>, ServerView>,
    x: Seq<ServerView>,
    y: Seq<ServerView>,
)
    requires
        written_form(m, x),
        written_form(m, y),
    ensures
        x == y,
    decreases x.len(),
{
    lemma_sorted_unique(x);
    lemma_sorted_unique(y);
    if x.len() == 0 {
        if y.len() > 0 {
            lemma_index(y, 0);
        }
        assert(x =~= y);
    } else if y.len() == 0 {
        lemma_index(x, 0);
    } else {
        lemma_index(x, 0);
        lemma_index(y, 0);
        let i = lemma_entry(x, y[0].name);
        let j = lemma_entry(y, x[0].name);
        lemma_name_lt_total(x[0].name, y[0].name);
        if i > 0 {
            assert(name_lt(x[0].name, x[i].name));
            if j > 0 {
                assert(name_lt(y[0].name, y[j].name));
            } else {
                assert(x[i] == x[i] && x[0] == x[0]);
            }
        } else if j > 0 {
            assert(name_lt(y[0].name, y[j].name));
            assert(y[j] == y[j] && y[0] == y[0]);
        }
        assert(x[0] == y[0]);
        lemma_remove(x, 0);
        lemma_remove(y, 0);
        let xs = x.remove(0);
        let ys = y.remove(0);
        assert(sorted_by_name(xs)) by {
            assert forall|a: int, b: int| 0 <= a < b < xs.len() implies name_lt(
                #[trigger] xs[a].name,
                #[trigger] xs[b].name,
            ) by {
                assert(x[a + 1] == x[a + 1] && x[b + 1] == x[b + 1]);
            }
        }
        assert(sorted_by_name(ys)) by {
            assert forall|a: int, b: int| 0 <= a < b < ys.len() implies name_lt(
                #[trigger] ys[a].name,
                #[trigger] ys[b].name,
            ) by {
                assert(y[a + 1] == y[a + 1] && y[b + 1] == y[b + 1]);
            }
        }
        law_written_form_determined(to_map(xs), xs, ys);
        assert(x =~= seq![x[0]] + xs);
        assert(y =~= seq![y[0]] + ys);
    }
}

/// Loading the records that `flush` produced gives back the same store:
/// the written form of a set of records, read back, holds exactly those
/// records.
pub proof fn law_round_trip(m: Map<Seq<char>, ServerView>, x: Seq<ServerView>)
    requires
        written_form(m, x),
    ensures
        records_map(x) == m,
{
    lemma_sorted_unique(x);
    lemma_records_map(x);
}

/// `r` is the outcome of checking a candidate named `name` in `dir` against
/// the records `m`: a taken name is reported first, then a taken directory
/// together with the server that holds it; otherwise the candidate passes.
pub open spec fn checked(
    m: Map<Seq<char>, ServerView>,
    name: Seq<char>,
    dir: Seq<char>,
    r: Result<(), ApplicationError>,
) -> bool {
    if m.contains_key(name) {
        r matches Err(ApplicationError::DuplicateServerName(n)) && n@ == name
    } else if dir_taken(m, dir) {
        r matches Err(ApplicationError::DuplicateServerDir { dir: d, existing }) && d@ == dir
            && existing.dir@ == dir && m.contains_key(existing.name@) && m[existing.name@]
            == existing@
    } else {
        r is Ok
    }
}

/// `r` reports that no server is named `name`.
pub open spec fn missing(r: Result<(), ApplicationError>, name: Seq<char>) -> bool {
    r matches Err(ApplicationError::NonExistentServer(n)) && n@ == name
}

/// The views of a sequence of borrowed servers.
pub open spec fn ref_views(s: Seq<&Server>) -> Seq<ServerView> {
    s.map_values(|x: &Server| x@)
}

/// Adding a server checks both keys: a name already present is refused as
/// a duplicate name; otherwise a directory already present is refused as a
/// duplicate directory; otherwise the server is added and is found under its
/// name with no usage.
pub proof fn law_add_server_uniqueness(
    m: Map<Seq<char>, ServerView>,
    name: Seq<char>,
    dir: Seq<char>,
    start_command: Seq<char>,
    r: Result<(), ApplicationError>,
)
    requires
        checked(m, name, dir, r),
    ensures
        m.contains_key(name) ==> r matches Err(ApplicationError::DuplicateServerName(_)),
        !m.contains_key(name) && dir_taken(m, dir) ==> r matches Err(
            ApplicationError::DuplicateServerDir { .. },
        ),
        !m.contains_key(name) && !dir_taken(m, dir) ==> r is Ok && m.insert(
            name,
            fresh_server(name, dir, start_command),
        ).contains_key(name) && m.insert(name, fresh_server(name, dir, start_command))[name]
            == fresh_server(name, dir, start_command),
{
}

/// While directories are unique, a refused directory names the one server
/// that lives there.
pub proof fn law_duplicate_dir_names_its_holder(
    m: Map<Seq<char>, ServerView>,
    name: Seq<char>,
    dir: Seq<char>,
    r: Result<(), ApplicationError>,
)
    requires
        dirs_unique(m),
        checked(m, name, dir, r),
        !m.contains_key(name),
        dir_taken(m, dir),
    ensures
        r matches Err(ApplicationError::DuplicateServerDir { existing, .. }) && forall|k: Seq<char>|
            m.contains_key(k) && #[trigger] m[k].dir == dir ==> k == existing.name@ && m[k] == existing@,
{
    if let Err(ApplicationError::DuplicateServerDir { existing, .. }) = r {
        assert forall|k: Seq<char>| m.contains_key(k) && #[trigger] m[k].dir == dir implies k == existing.name@
            && m[k] == existing@ by {
            if k != existing.name@ {
                assert(m[existing.name@].dir == dir);
            }
        }
    }
}

/// The records of all servers, as the backing file holds them.
pub struct RawServerStore {
    pub servers: Vec<Server>,
}

/// The servers known to the tool, and the file they are kept in.
pub struct ServerStore {
    servers: Vec<Server>,
    store_path: String,
}

impl View for ServerStore {
    type V = Map<Seq<char>, ServerView>;

    /// Each server's record under its name.
    closed spec fn view(&self) -> Map<Seq<char>, ServerView> {
        to_map(views(self.servers@))
    }
}

impl ServerStore {
    /// The servers are held in strictly increasing name order.
    pub closed spec fn wf(&self) -> bool {
        sorted_by_name(views(self.servers@))
    }

    /// The path of the backing file.
    pub closed spec fn path(&self) -> Seq<char> {
        self.store_path@
    }

    /// Where `name` stands or would stand in the name order, and whether it
    /// is there.
    fn position(&self, name: &str) -> (r: (usize, bool))
        requires
            self.wf(),
        ensures
            r.0 <= self.servers@.len(),
            forall|i: int| 0 <= i < r.0 ==> name_lt(#[trigger] self.servers@[i].name@, name@),
            r.1 ==> r.0 < self.servers@.len() && self.servers@[r.0 as int].name@ == name@,
            !r.1 ==> forall|i: int|
                r.0 <= i < self.servers@.len() ==> name_lt(name@, #[trigger] self.servers@[i].name@),
            r.1 == self@.contains_key(name@),
            r.1 ==> self@[name@] == self.servers@[r.0 as int]@,
    {
        let r = self.scan(name);
        proof {
            let s = views(self.servers@);
            lemma_sorted_unique(s);
            if r.1 {
                lemma_index(s, r.0 as int);
            } else if self@.contains_key(name@) {
                let i = lemma_entry(s, name@);
                lemma_name_lt_irreflexive(name@);
                assert(s[i].name == self.servers@[i].name@);
            }
        }
        r
    }

    /// Walks the names in order up to the first that does not sort before
    /// `name`.
    fn scan(&self, name: &str) -> (r: (usize, bool))
        requires
            self.wf(),
        ensures
            r.0 <= self.servers@.len(),
            forall|i: int| 0 <= i < r.0 ==> name_lt(#[trigger] self.servers@[i].name@, name@),
            r.1 ==> r.0 < self.servers@.len() && self.servers@[r.0 as int].name@ == name@,
            !r.1 ==> forall|i: int|
                r.0 <= i < self.servers@.len() ==> name_lt(name@, #[trigger] self.servers@[i].name@),
    {
        let ghost s = views(self.servers@);
        let mut i: usize = 0;
        while i < self.servers.len()
            invariant
                s == views(self.servers@),
                sorted_by_name(s),
                i <= self.servers@.len(),
                forall|j: int| 0 <= j < i ==> name_lt(#[trigger] self.servers@[j].name@, name@),
            decreases self.servers@.len() - i,
        {
            match compare_names(self.servers[i].name.as_str(), name) {
                core::cmp::Ordering::Less => {
                    i = i + 1;
                },
                core::cmp::Ordering::Equal => {
                    return (i, true);
                },
                core::cmp::Ordering::Greater => {
                    proof {
                        assert forall|j: int| i <= j < self.servers@.len() implies name_lt(
                            name@,
                            #[trigger] self.servers@[j].name@,
                        ) by {
                            if j > i {
                                assert(s[i as int] == s[i as int] && s[j] == s[j]);
                                lemma_name_lt_transitive(name@, s[i as int].name, s[j].name);
                            }
                        }
                    }
                    return (i, false);
                },
            }
        }
        (i, false)
    }

    /// Puts `server` in, replacing the record of its name if there is one.
    fn upsert(&mut self, server: Server)
        requires
            old(self).wf(),
        ensures
            final(self).wf(),
            final(self)@ == old(self)@.insert(server.name@, server@),
            final(self).path() == old(self).path(),
    {
        let ghost m = self@;
        let (p, found) = self.position(server.name.as_str());
        proof {
            lemma_sorted_unique(views(self.servers@));
        }
        if found {
            proof {
                assert(self.servers@ == old(self).servers@);
                lemma_remove(views(self.servers@), p as int);
                assert(views(self.servers@).remove(p as int) =~= views(self.servers@.remove(p as int)));
            }
            self.servers.remove(p);
            proof {
                assert(self@ == m.remove(server.name@));
                assert forall|i: int| 0 <= i < p implies name_lt(#[trigger] self.servers@[i].name@, server.name@) by {
                    assert(old(self).servers@[i] == self.servers@[i]);
                }
                assert forall|i: int| p <= i < self.servers@.len() implies name_lt(
                    server.name@,
                    #[trigger] self.servers@[i].name@,
                ) by {
                    let s0 = views(old(self).servers@);
                    assert(self.servers@[i] == old(self).servers@[i + 1]);
                    assert(s0[p as int].name == server.name@);
                    assert(s0[i + 1].name == self.servers@[i].name@);
                    assert(name_lt(s0[p as int].name, s0[i + 1].name));
                }
            }
        }
        let ghost before = views(self.servers@);
        let ghost sv = server@;
        proof {
            lemma_sorted_unique(views(old(self).servers@));
            assert(unique_names(before)) by {
                if found {
                    lemma_remove(views(old(self).servers@), p as int);
                    assert(views(old(self).servers@).remove(p as int) =~= before);
                }
            }
            assert forall|i: int| 0 <= i < p implies name_lt(#[trigger] before[i].name, sv.name) by {
                assert(name_lt(self.servers@[i].name@, server.name@));
            }
            assert forall|i: int| p <= i < before.len() implies name_lt(sv.name, #[trigger] before[i].name) by {
                assert(name_lt(server.name@, self.servers@[i].name@));
            }
            assert forall|i: int| 0 <= i < before.len() implies #[trigger] before[i].name != sv.name by {
                lemma_name_lt_irreflexive(sv.name);
                if i < p {
                    assert(name_lt(before[i].name, sv.name));
                } else {
                    assert(name_lt(sv.name, before[i].name));
                }
            }
            lemma_insert(before, p as int, sv);
        }
        self.servers.insert(p, server);
        proof {
            let after = views(self.servers@);
            assert(after =~= before.insert(p as int, sv));
            assert(self@ == m.remove(sv.name).insert(sv.name, sv)) by {
                if !found {
                    assert(!m.contains_key(sv.name));
                    assert(m.remove(sv.name) =~= m);
                }
            }
            assert(m.remove(sv.name).insert(sv.name, sv) =~= m.insert(sv.name, sv));
            assert forall|a: int, b: int| 0 <= a < b < after.len() implies name_lt(
                #[trigger] after[a].name,
                #[trigger] after[b].name,
            ) by {
                if b < p {
                    assert(before[a] == before[a] && before[b] == before[b]);
                } else if b == p {
                    assert(name_lt(before[a].name, sv.name));
                } else if a < p {
                    assert(name_lt(before[a].name, sv.name));
                    assert(name_lt(sv.name, before[b - 1].name));
                    lemma_name_lt_transitive(before[a].name, sv.name, before[b - 1].name);
                } else if a == p {
                    assert(name_lt(sv.name, before[b - 1].name));
                } else {
                    assert(before[a - 1] == before[a - 1] && before[b - 1] == before[b - 1]);
                }
            }
        }
    }
    /// Takes out the server at `p`.
    fn take_at(&mut self, p: usize) -> (r: Server)
        requires
            old(self).wf(),
            p < old(self).servers@.len(),
        ensures
            final(self).wf(),
            final(self).path() == old(self).path(),
            r == old(self).servers@[p as int],
            old(self)@.contains_key(r.name@),
            old(self)@[r.name@] == r@,
            final(self)@ == old(self)@.remove(r.name@),
    {
        let ghost s = views(self.servers@);
        proof {
            lemma_sorted_unique(s);
            lemma_index(s, p as int);
            lemma_remove(s, p as int);
        }
        let r = self.servers.remove(p);
        proof {
            assert(views(self.servers@) =~= s.remove(p as int));
            let t = views(self.servers@);
            assert forall|a: int, b: int| 0 <= a < b < t.len() implies name_lt(
                #[trigger] t[a].name,
                #[trigger] t[b].name,
            ) by {
                let a0 = if a < p { a } else { a + 1 };
                let b0 = if b < p { b } else { b + 1 };
                assert(s[a0] == s[a0] && s[b0] == s[b0]);
            }
        }
        r
    }

    /// The store kept in `store_path` that holds `raw`'s records; where a
    /// name occurs more than once, the last record of it is kept.
    pub fn load(store_path: String, raw: RawServerStore) -> (r: ServerStore)
        ensures
            r.wf(),
            r@ == records_map(views(raw.servers@)),
            r.path() == store_path@,
    {
        let mut records = raw.servers;
        let ghost all = views(records@);
        let ghost n = all.len();
        let ghost path = store_path@;
        let mut store = ServerStore { servers: Vec::new(), store_path };
        proof {
            assert(views(store.servers@) =~= Seq::<ServerView>::empty());
            assert(store@ =~= Map::<Seq<char>, ServerView>::empty());
            assert(all.subrange(0, 0) =~= Seq::<ServerView>::empty());
            assert(views(records@) =~= all.subrange(0, n as int));
        }
        while records.len() > 0
            invariant
                store.wf(),
                store.path() == path,
                all.len() == n,
                records@.len() <= n,
                views(records@) == all.subrange(n - records@.len(), n as int),
                store@ == records_map(all.subrange(0, n - records@.len())),
            decreases records@.len(),
        {
            let ghost c = n - records@.len();
            let ghost before = records@;
            proof {
                assert(views(before).len() == before.len());
                assert(views(before)[0] == before[0]@);
                assert(all.subrange(c, n as int)[0] == all[c]);
                assert(views(before)[0] == all[c]);
            }
            let server = records.remove(0);
            proof {
                assert(server@ == all[c]);
                assert forall|j: int| 0 <= j < records@.len() implies #[trigger] views(records@)[j] == all[c + 1 + j] by {
                    assert(records@[j] == before[j + 1]);
                    assert(views(before)[j + 1] == before[j + 1]@);
                    assert(all.subrange(c, n as int)[j + 1] == all[c + 1 + j]);
                }
                assert(views(records@) =~= all.subrange(c + 1, n as int));
                assert(all.subrange(0, c + 1).drop_last() =~= all.subrange(0, c));
            }
            store.upsert(server);
        }
        proof {
            assert(all.subrange(0, n as int) =~= all);
        }
        store
    }

    /// The records as they are written to the backing file: each server
    /// once, in name order.
    pub fn flush(&self) -> (r: RawServerStore)
        requires
            self.wf(),
        ensures
            written_form(self@, views(r.servers@)),
    {
        let mut out: Vec<Server> = Vec::new();
        let mut i: usize = 0;
        while i < self.servers.len()
            invariant
                i <= self.servers@.len(),
                out@.len() == i,
                views(out@) == views(self.servers@).subrange(0, i as int),
            decreases self.servers@.len() - i,
        {
            let copy = self.servers[i].duplicate();
            let ghost before = out@;
            out.push(copy);
            proof {
                assert(views(self.servers@)[i as int] == self.servers@[i as int]@);
                assert(out@ == before.push(copy));
                assert forall|j: int| 0 <= j < i implies #[trigger] views(out@)[j] == views(before)[j] by {
                    assert(out@[j] == before[j]);
                }
                assert(views(out@) =~= views(self.servers@).subrange(0, i + 1));
            }
            i = i + 1;
        }
        proof {
            assert(views(out@) =~= views(self.servers@));
        }
        RawServerStore { servers: out }
    }

    /// Checks that a candidate project's name and directory are both unused.
    pub fn validate_new_project(&self, project: &Project) -> (r: Result<(), ApplicationError>)
        requires
            self.wf(),
        ensures
            checked(self@, project.name@, project.dir@, r),
    {
        let (_, found) = self.position(project.name.as_str());
        if found {
            return Err(ApplicationError::DuplicateServerName(project.name.clone()));
        }
        let ghost s = views(self.servers@);
        proof {
            lemma_sorted_unique(s);
        }
        let mut i: usize = 0;
        while i < self.servers.len()
            invariant
                s == views(self.servers@),
                unique_names(s),
                !self@.contains_key(project.name@),
                i <= self.servers@.len(),
                forall|j: int| 0 <= j < i ==> (#[trigger] self.servers@[j]).dir@ != project.dir@,
            decreases self.servers@.len() - i,
        {
            if self.servers[i].dir == project.dir {
                proof {
                    lemma_index(s, i as int);
                    assert(s[i as int] == self.servers@[i as int]@);
                    assert(s[i as int].dir == project.dir@);
                    assert(self@[s[i as int].name].dir == project.dir@);
                    assert(dir_taken(self@, project.dir@));
                }
                let existing = self.servers[i].duplicate();
                return Err(ApplicationError::DuplicateServerDir { dir: project.dir.clone(), existing });
            }
            i = i + 1;
        }
        proof {
            assert forall|k: Seq<char>| self@.contains_key(k) implies #[trigger] self@[k].dir != project.dir@ by {
                let j = lemma_entry(s, k);
                assert(self.servers@[j].dir@ != project.dir@);
            }
        }
        Ok(())
    }

    /// Adds a server for `project`, started by `start_command`, with no
    /// usage yet, when the project's name and directory are both unused.
    pub fn add_server(&mut self, project: &Project, start_command: String) -> (r: Result<(), ApplicationError>)
        requires
            old(self).wf(),
        ensures
            final(self).wf(),
            final(self).path() == old(self).path(),
            checked(old(self)@, project.name@, project.dir@, r),
            r is Err ==> final(self)@ == old(self)@,
            r is Ok ==> final(self)@ == old(self)@.insert(
                project.name@,
                fresh_server(project.name@, project.dir@, start_command@),
            ),
            dirs_unique(old(self)@) ==> dirs_unique(final(self)@),
    {
        match self.validate_new_project(project) {
            Err(e) => Err(e),
            Ok(()) => {
                let server = Server::new(project.name.clone(), project.dir.clone(), start_command);
                proof {
                    if dirs_unique(old(self)@) {
                        lemma_dirs_unique_put(old(self)@, project.name@, project.name@, server@);
                        assert(old(self)@.remove(project.name@).insert(project.name@, server@) =~= old(self)@.insert(project.name@, server@));
                    }
                }
                self.upsert(server);
                Ok(())
            },
        }
    }

    /// Renames the server `server_name` to `new_name`.
    pub fn set_server_name(&mut self, server_name: &str, new_name: String) -> (r: Result<(), ApplicationError>)
        requires
            old(self).wf(),
        ensures
            final(self).wf(),
            final(self).path() == old(self).path(),
            new_name@.len() == 0 ==> r matches Err(ApplicationError::EmptyServerName),
            new_name@.len() > 0 && old(self)@.contains_key(new_name@) ==> (r matches Err(
                ApplicationError::DuplicateServerName(n),
            ) && n@ == new_name@),
            new_name@.len() > 0 && !old(self)@.contains_key(new_name@) && !old(self)@.contains_key(
                server_name@,
            ) ==> missing(r, server_name@),
            r is Ok <==> (new_name@.len() > 0 && !old(self)@.contains_key(new_name@)
                && old(self)@.contains_key(server_name@)),
            r is Err ==> final(self)@ == old(self)@,
            r is Ok ==> final(self)@ == old(self)@.remove(server_name@).insert(
                new_name@,
                renamed(old(self)@[server_name@], new_name@),
            ),
            dirs_unique(old(self)@) ==> dirs_unique(final(self)@),
    {
        if new_name.as_str().is_empty() {
            return Err(ApplicationError::EmptyServerName);
        }
        let (_, taken) = self.position(new_name.as_str());
        if taken {
            return Err(ApplicationError::DuplicateServerName(new_name));
        }
        let (p, found) = self.position(server_name);
        if !found {
            return Err(ApplicationError::NonExistentServer(server_name.to_owned()));
        }
        proof {
            if dirs_unique(old(self)@) {
                let m = old(self)@;
                assert forall|b: Seq<char>| m.contains_key(b) && b != server_name@ && b != new_name@ implies #[trigger] m[b].dir
                    != m[server_name@].dir by {
                    assert(m[b] == m[b] && m[server_name@] == m[server_name@]);
                }
                lemma_dirs_unique_put(m, server_name@, new_name@, renamed(m[server_name@], new_name@));
            }
        }
        let mut server = self.take_at(p);
        server.name = new_name;
        self.upsert(server);
        Ok(())
    }

    /// Sets the command that starts the server `server_name`.
    pub fn set_server_start_command(&mut self, server_name: &str, start_command: String) -> (r: Result<(), ApplicationError>)
        requires
            old(self).wf(),
        ensures
            final(self).wf(),
            final(self).path() == old(self).path(),
            r is Ok <==> old(self)@.contains_key(server_name@),
            r is Err ==> missing(r, server_name@) && final(self)@ == old(self)@,
            r is Ok ==> final(self)@ == old(self)@.insert(
                server_name@,
                with_command(old(self)@[server_name@], start_command@),
            ),
            dirs_unique(old(self)@) ==> dirs_unique(final(self)@),
    {
        let (p, found) = self.position(server_name);
        if !found {
            return Err(ApplicationError::NonExistentServer(server_name.to_owned()));
        }
        let mut server = self.take_at(p);
        server.start_command = start_command;
        self.upsert(server);
        proof {
            assert(old(self)@.remove(server_name@).insert(server_name@, server@) =~= old(self)@.insert(server_name@, server@));
        }
        Ok(())
    }

    /// Records a start of the server `server_name`, whose score becomes
    /// `frecency`: the score computed from its present one at the moment of
    /// the start.
    pub fn start_server(&mut self, server_name: &str, frecency: u64) -> (r: Result<(), ApplicationError>)
        requires
            old(self).wf(),
        ensures
            final(self).wf(),
            final(self).path() == old(self).path(),
            r is Ok <==> old(self)@.contains_key(server_name@),
            r is Err ==> missing(r, server_name@) && final(self)@ == old(self)@,
            r is Ok ==> final(self)@ == old(self)@.insert(
                server_name@,
                with_frecency(old(self)@[server_name@], frecency),
            ),
            dirs_unique(old(self)@) ==> dirs_unique(final(self)@),
    {
        let (p, found) = self.position(server_name);
        if !found {
            return Err(ApplicationError::NonExistentServer(server_name.to_owned()));
        }
        let mut server = self.take_at(p);
        server.frecency = frecency;
        self.upsert(server);
        proof {
            assert(old(self)@.remove(server_name@).insert(server_name@, server@) =~= old(self)@.insert(server_name@, server@));
        }
        Ok(())
    }

    /// Removes the server `server_name`; removing a name that is not there
    /// changes nothing and is no error.
    pub fn remove_server(&mut self, server_name: &str) -> (r: Result<(), ApplicationError>)
        requires
            old(self).wf(),
        ensures
            final(self).wf(),
            final(self).path() == old(self).path(),
            r is Ok,
            final(self)@ == old(self)@.remove(server_name@),
            !old(self)@.contains_key(server_name@) ==> final(self)@ == old(self)@,
            dirs_unique(old(self)@) ==> dirs_unique(final(self)@),
    {
        let (p, found) = self.position(server_name);
        if found {
            self.take_at(p);
        } else {
            proof {
                assert(old(self)@.remove(server_name@) =~= old(self)@);
            }
        }
        Ok(())
    }

    /// The server named `server_name`.
    pub fn get_one(&self, server_name: &str) -> (r: Result<&Server, ApplicationError>)
        requires
            self.wf(),
        ensures
            self@.contains_key(server_name@) ==> (r matches Ok(s) && s@ == self@[server_name@]),
            !self@.contains_key(server_name@) ==> (r matches Err(
                ApplicationError::NonExistentServer(n),
            ) && n@ == server_name@),
    {
        let (p, found) = self.position(server_name);
        if found {
            Ok(&self.servers[p])
        } else {
            Err(ApplicationError::NonExistentServer(server_name.to_owned()))
        }
    }

    /// Every server, each once.
    pub fn get_all(&self) -> (r: Vec<&Server>)
        requires
            self.wf(),
        ensures
            unique_names(ref_views(r@)),
            to_map(ref_views(r@)) == self@,
    {
        let mut out: Vec<&Server> = Vec::new();
        let mut i: usize = 0;
        while i < self.servers.len()
            invariant
                i <= self.servers@.len(),
                out@.len() == i,
                ref_views(out@) == views(self.servers@).subrange(0, i as int),
            decreases self.servers@.len() - i,
        {
            let ghost before = out@;
            out.push(&self.servers[i]);
            proof {
                assert(views(self.servers@)[i as int] == self.servers@[i as int]@);
                assert(out@ == before.push(&self.servers@[i as int]));
                assert forall|j: int| 0 <= j < i implies #[trigger] ref_views(out@)[j] == ref_views(before)[j] by {
                    assert(out@[j] == before[j]);
                }
                assert(ref_views(out@) =~= views(self.servers@).subrange(0, i + 1));
            }
            i = i + 1;
        }
        proof {
            assert(ref_views(out@) =~= views(self.servers@));
            lemma_sorted_unique(views(self.servers@));
        }
        out
    }

    /// The name of a server that resembles `server_name`, for suggesting a
    /// correction: one whenever there are servers, none when there are none.
    pub fn get_closest_server_name(&self, server_name: &str) -> (r: Option<String>)
        requires
            self.wf(),
        ensures
            r matches Some(t) ==> self@.contains_key(t@),
            self@ == Map::<Seq<char>, ServerView>::empty() <==> r is None,
    {
        let ghost s = views(self.servers@);
        proof {
            lemma_sorted_unique(s);
            if s.len() > 0 {
                lemma_index(s, 0);
            }
        }
        let mut names: Vec<String> = Vec::new();
        let mut i: usize = 0;
        while i < self.servers.len()
            invariant
                i <= self.servers@.len(),
                names@.len() == i,
                forall|j: int| 0 <= j < i ==> (#[trigger] names@[j])@ == self.servers@[j].name@,
            decreases self.servers@.len() - i,
        {
            names.push(self.servers[i].name.clone());
            i = i + 1;
        }
        let r = closest_text(&names, server_name);
        proof {
            if r is None {
                assert(views(self.servers@).len() == 0);
                assert(self@ =~= Map::<Seq<char>, ServerView>::empty());
            }
            if r is Some {
                let t = r->Some_0;
                let j = choose|j: int| 0 <= j < names@.len() && (#[trigger] names@[j])@ == t@;
                lemma_index(s, j);
                assert(s[j] == self.servers@[j]@);
            }
        }
        r
    }

    /// The path of the backing file.
    pub fn get_store_path(&self) -> (r: &String)
        ensures
            r@ == self.path(),
    {
        &self.store_path
    }
}

} // verus!

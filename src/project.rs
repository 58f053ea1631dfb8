//! A candidate project directory on disk.
use vstd::prelude::*;
use vstd::string::*;
use vstd::utf8::*;
use crate::error::ApplicationError;
use crate::names::compare_names;
use crate::script::Script;

verus! {

/// A JSON document as far as the library reads it: a top-level object's
/// members in order, each with the entries of its value when that value is
/// an object (each entry's value as compact JSON text); or any other value.
#[derive(Debug)]
pub enum JsonDoc {
    Object(Vec<(String, Option<Vec<(String, String)>>)>),
    Other,
}

/// The entries of an object, as (key, value text) pairs.
pub type Entries = Seq<(Seq<char>, Seq<char>)>;

/// What a `JsonDoc` holds, as mathematical values.
pub enum JsonDocView {
    Object(Seq<(Seq<char>, Option<Entries>)>),
    Other,
}

pub open spec fn pairs_view(v: Seq<(String, String)>) -> Entries {
    v.map_values(|e: (String, String)| (e.0@, e.1@))
}

pub open spec fn opt_pairs_view(o: Option<Vec<(String, String)>>) -> Option<Entries> {
    match o {
        Some(v) => Some(pairs_view(v@)),
        None => None,
    }
}

pub open spec fn members_view(v: Seq<(String, Option<Vec<(String, String)>>)>) -> Seq<(Seq<char>, Option<Entries>)> {
    v.map_values(|e: (String, Option<Vec<(String, String)>>)| (e.0@, opt_pairs_view(e.1)))
}

impl View for JsonDoc {
    type V = JsonDocView;

    open spec fn view(&self) -> JsonDocView {
        match self {
            JsonDoc::Object(m) => JsonDocView::Object(members_view(m@)),
            JsonDoc::Other => JsonDocView::Other,
        }
    }
}

/// The document a JSON text holds, if it is one.
pub uninterp spec fn json_doc(text: Seq<char>) -> Option<JsonDocView>;

/// Relies on `serde_json::from_str` into a `Value`: none when the text is
/// not JSON. An object's members come in the map's order; nested values are
/// written back with `Value`'s `Display` (compact JSON).
#[verifier::external_body]
fn parse_json(text: &str) -> (r: Option<JsonDoc>)
    ensures
        r is None <==> json_doc(text@) is None,
        r matches Some(d) ==> json_doc(text@) == Some(d@),
{
    match serde_json::from_str::<serde_json::Value>(text) {
        Err(_) => None,
        Ok(serde_json::Value::Object(m)) => Some(JsonDoc::Object(m.into_iter().map(|(k, v)| {
            let inner = match v {
                serde_json::Value::Object(o) => Some(o.into_iter().map(|(n, c)| (n, c.to_string())).collect()),
                _ => None,
            };
            (k, inner)
        }).collect())),
        Ok(_) => Some(JsonDoc::Other),
    }
}

/// The entries of the first member named `key`, when its value is an
/// object; none when there is no such member or its value is no object.
pub open spec fn object_member(ms: Seq<(Seq<char>, Option<Entries>)>, key: Seq<char>) -> Option<Entries>
    decreases ms.len(),
{
    if ms.len() == 0 {
        None
    } else if ms[0].0 == key {
        ms[0].1
    } else {
        object_member(ms.drop_first(), key)
    }
}

/// What a manifest text declares under `scripts`: none when the text is not
/// JSON; otherwise the entries of the `scripts` object, if there is one.
pub open spec fn manifest_scripts(text: Seq<char>) -> Option<Option<Entries>> {
    match json_doc(text) {
        None => None,
        Some(JsonDocView::Other) => Some(None),
        Some(JsonDocView::Object(ms)) => Some(object_member(ms, "scripts"@)),
    }
}

/// `r` is what a manifest at `path` whose `scripts` member has `entries`
/// gives: the scripts in entry order, or why there are none.
pub open spec fn scripts_read(path: Seq<char>, entries: Option<Entries>, r: Result<Vec<Script>, ApplicationError>) -> bool {
    match entries {
        None => malformed(r, path, "\"scripts\" property is not an object"@),
        Some(e) => if e.len() == 0 {
            malformed(r, path, "\"scripts\" is an empty object"@)
        } else {
            r matches Ok(v) && v@.len() == e.len() && forall|i: int|
                0 <= i < e.len() ==> (#[trigger] v@[i]).name@ == e[i].0 && v@[i].command@ == e[i].1
        },
    }
}

/// The segment of a path after its last `/`.
pub open spec fn tail_segment(p: Seq<char>) -> Seq<char>
    decreases p.len(),
{
    if p.len() == 0 || p.last() == '/' {
        Seq::empty()
    } else {
        tail_segment(p.drop_last()).push(p.last())
    }
}

/// The last component of a Unix path: trailing separators and `.`
/// segments are skipped; there is none when nothing is left or the last
/// segment is `..`.
pub open spec fn file_name_of(p: Seq<char>) -> Option<Seq<char>>
    decreases p.len(),
{
    if p.len() == 0 {
        None
    } else if p.last() == '/' {
        file_name_of(p.drop_last())
    } else if tail_segment(p) == seq!['.'] {
        file_name_of(p.drop_last())
    } else if tail_segment(p) == seq!['.', '.'] {
        None
    } else {
        Some(tail_segment(p))
    }
}

/// Relies on `Path::file_name`: the final component of the path, none when
/// the path ends in `..` or is a root or empty.
#[verifier::external_body]
fn file_name(path: &str) -> (r: Option<String>)
    ensures
        r is None <==> file_name_of(path@) is None,
        r matches Some(n) ==> file_name_of(path@) == Some(n@),
{
    std::path::Path::new(path).file_name().and_then(|n| n.to_str()).map(|n| n.to_string())
}

/// `r` reports the manifest at `path` as malformed, for `cause`.
pub open spec fn malformed<T>(r: Result<T, ApplicationError>, path: Seq<char>, cause: Seq<char>) -> bool {
    r matches Err(ApplicationError::MalformedPackageJson { path: p, cause: c }) && p@ == path && c@ == cause
}

#[derive(Debug, Clone)]
pub struct Project {
    pub name: String,
    pub dir: String,
}

/// The last byte of the path is a `/`.
pub open spec fn ends_with_separator(dir: Seq<char>) -> bool {
    let b = encode_utf8(dir);
    b.len() > 0 && b.last() == 47
}

/// The manifest file inside `dir`: a separator is put in between unless the
/// path is empty or already ends with one.
pub open spec fn package_json_path(dir: Seq<char>) -> Seq<char> {
    if dir.len() == 0 || ends_with_separator(dir) {
        dir + "package.json"@
    } else {
        dir + "/package.json"@
    }
}

impl Project {
    /// The project in the directory `project_path`, named after the path's
    /// last component; a path without one is refused.
    pub fn from_path(project_path: String) -> (r: Result<Project, ApplicationError>)
        ensures
            file_name_of(project_path@) is None ==> (r matches Err(ApplicationError::ParsePath(p))
                && p@ == project_path@),
            file_name_of(project_path@) matches Some(n) ==> (r matches Ok(project) && project.name@ == n
                && project.dir@ == project_path@),
    {
        match file_name(project_path.as_str()) {
            None => Err(ApplicationError::ParsePath(project_path)),
            Some(name) => Ok(Project { name, dir: project_path }),
        }
    }

    /// The path of the project's `package.json` file.
    pub fn get_package_json(&self) -> (r: String)
        ensures
            r@ == package_json_path(self.dir@),
    {
        let b = self.dir.as_str().as_bytes();
        if b.len() == 0 || b[b.len() - 1] == 47 {
            proof {
                if b@.len() == 0 && self.dir@.len() > 0 {
                    assert(encode_utf8(self.dir@) =~= encode_scalar(self.dir@[0] as u32) + encode_utf8(self.dir@.drop_first()));
                }
            }
            self.dir.clone().concat("package.json")
        } else {
            self.dir.clone().concat("/package.json")
        }
    }

    /// The project's scripts, read from the text of its manifest: they are
    /// the members of its `scripts` object, and there must be at least one.
    pub fn get_start_scripts(&self, package_json: &str) -> (r: Result<Vec<Script>, ApplicationError>)
        ensures
            manifest_scripts(package_json@) is None ==> malformed(r, package_json_path(self.dir@), "contains invalid JSON"@),
            manifest_scripts(package_json@) is Some ==> scripts_read(
                package_json_path(self.dir@),
                manifest_scripts(package_json@)->Some_0,
                r,
            ),
    {
        match parse_json(package_json) {
            None => Err(ApplicationError::MalformedPackageJson {
                path: self.get_package_json(),
                cause: String::from_str("contains invalid JSON"),
            }),
            Some(JsonDoc::Other) => self.scripts_from_object(None),
            Some(JsonDoc::Object(members)) => {
                let mut members = members;
                let ghost all = members_view(members@);
                proof {
                    assert(all.subrange(0, all.len() as int) =~= all);
                }
                let mut i: usize = 0;
                while i < members.len()
                    invariant
                        members_view(members@) == all,
                        json_doc(package_json@) == Some(JsonDocView::Object(all)),
                        i <= members@.len(),
                        object_member(all, "scripts"@) == object_member(all.subrange(i as int, all.len() as int), "scripts"@),
                    decreases members@.len() - i,
                {
                    proof {
                        let rest = all.subrange(i as int, all.len() as int);
                        assert(rest.drop_first() =~= all.subrange(i + 1, all.len() as int));
                        assert(rest[0] == all[i as int]);
                        assert(all[i as int].0 == members@[i as int].0@);
                    }
                    if matches!(compare_names(members[i].0.as_str(), "scripts"), core::cmp::Ordering::Equal) {
                        let (_, entries) = members.remove(i);
                        proof {
                            assert(all[i as int].1 == opt_pairs_view(entries));
                        }
                        return self.scripts_from_object(entries);
                    }
                    i = i + 1;
                }
                proof {
                    assert(all.subrange(i as int, all.len() as int).len() == 0);
                }
                self.scripts_from_object(None)
            },
        }
    }

    /// The scripts of a manifest whose `scripts` member has the given
    /// entries (name, command), in their order; none when that member is
    /// not an object.
    pub fn scripts_from_object(&self, entries: Option<Vec<(String, String)>>) -> (r: Result<Vec<Script>, ApplicationError>)
        ensures
            scripts_read(package_json_path(self.dir@), opt_pairs_view(entries), r),
    {
        match entries {
            None => Err(ApplicationError::MalformedPackageJson {
                path: self.get_package_json(),
                cause: String::from_str("\"scripts\" property is not an object"),
            }),
            Some(e) => {
                if e.len() == 0 {
                    return Err(ApplicationError::MalformedPackageJson {
                        path: self.get_package_json(),
                        cause: String::from_str("\"scripts\" is an empty object"),
                    });
                }
                let mut out: Vec<Script> = Vec::new();
                let mut i: usize = 0;
                while i < e.len()
                    invariant
                        i <= e@.len(),
                        out@.len() == i,
                        forall|j: int| 0 <= j < i ==> (#[trigger] out@[j]).name@ == e@[j].0@ && out@[j].command@ == e@[j].1@,
                    decreases e@.len() - i,
                {
                    let (name, command) = (e[i].0.clone(), e[i].1.clone());
                    out.push(Script { name, command });
                    i = i + 1;
                }
                proof {
                    let pv = pairs_view(e@);
                    assert forall|j: int| 0 <= j < pv.len() implies (#[trigger] out@[j]).name@ == pv[j].0
                        && out@[j].command@ == pv[j].1 by {
                        assert(pv[j] == (e@[j].0@, e@[j].1@));
                    }
                }
                Ok(out)
            },
        }
    }

    /// The script named `start_script` among the project's `scripts`: the
    /// first of that name.
    pub fn get_start_script(&self, scripts: Vec<Script>, start_script: String) -> (r: Result<Script, ApplicationError>)
        ensures
            r is Ok <==> exists|i: int| 0 <= i < scripts@.len() && (#[trigger] scripts@[i]).name@ == start_script@,
            r matches Ok(s) ==> exists|i: int| 0 <= i < scripts@.len() && #[trigger] scripts@[i] == s
                && s.name@ == start_script@ && forall|j: int| 0 <= j < i ==> (#[trigger] scripts@[j]).name@ != start_script@,
            r matches Err(e) ==> (e matches ApplicationError::NonExistentScript { project, script }
                && project.name@ == self.name@ && project.dir@ == self.dir@ && script@ == start_script@),
    {
        let mut i: usize = 0;
        while i < scripts.len()
            invariant
                i <= scripts@.len(),
                forall|j: int| 0 <= j < i ==> (#[trigger] scripts@[j]).name@ != start_script@,
            decreases scripts@.len() - i,
        {
            if scripts[i].name == start_script {
                let found = Script { name: scripts[i].name.clone(), command: scripts[i].command.clone() };
                proof {
                    assert(scripts@[i as int] == found);
                }
                return Ok(found);
            }
            i = i + 1;
        }
        Err(ApplicationError::NonExistentScript {
            project: Project { name: self.name.clone(), dir: self.dir.clone() },
            script: start_script,
        })
    }

    /// The text a project is shown as: its name.
    pub fn to_string(&self) -> (r: String)
        ensures
            r@ == self.name@,
    {
        self.name.clone()
    }
}

} // verus!

//! A named script of a project's manifest, and the order scripts are
//! offered in.
use vstd::prelude::*;
use vstd::string::*;
use crate::names::{compare_names, lemma_name_lt_irreflexive, lemma_name_lt_transitive, name_lt};

verus! {

#[derive(Debug, Clone)]
pub struct Script {
    pub name: String,
    pub command: String,
}

impl Script {
    /// The text a script is shown as: `name: command`.
    pub fn to_string(&self) -> (r: String)
        ensures
            r@ == self.name@ + ": "@ + self.command@,
    {
        let r = self.name.clone().concat(": ");
        r.concat(self.command.as_str())
    }
}

/// The script names that usually start a server.
pub open spec fn is_priority(name: Seq<char>) -> bool {
    name == "dev"@ || name == "run"@ || name == "start"@
}

/// A script named `a` is offered before one named `b`: the usual start
/// scripts come first, and names in order within each group.
pub open spec fn offered_before(a: Seq<char>, b: Seq<char>) -> bool {
    (is_priority(a) && !is_priority(b)) || (is_priority(a) == is_priority(b) && name_lt(a, b))
}

/// No script is followed by one that is offered before it.
pub open spec fn in_offer_order(s: Seq<Script>) -> bool {
    forall|i: int, j: int| #![trigger s[i], s[j]] 0 <= i < j < s.len() ==> !offered_before(s[j].name@, s[i].name@)
}

proof fn lemma_offered_transitive(a: Seq<char>, b: Seq<char>, c: Seq<char>)
    requires
        offered_before(a, b),
        offered_before(b, c),
    ensures
        offered_before(a, c),
{
    if is_priority(a) == is_priority(b) && is_priority(b) == is_priority(c) {
        lemma_name_lt_transitive(a, b, c);
    }
}

proof fn lemma_offered_irreflexive(a: Seq<char>)
    ensures
        !offered_before(a, a),
{
    lemma_name_lt_irreflexive(a);
}

/// Whether `name` is one of the usual start scripts.
pub fn is_priority_script(name: &str) -> (r: bool)
    ensures
        r == is_priority(name@),
{
    matches!(compare_names(name, "dev"), core::cmp::Ordering::Equal) || matches!(
        compare_names(name, "run"),
        core::cmp::Ordering::Equal,
    ) || matches!(compare_names(name, "start"), core::cmp::Ordering::Equal)
}

fn offered_first(a: &str, b: &str) -> (r: bool)
    ensures
        r == offered_before(a@, b@),
{
    let pa = is_priority_script(a);
    let pb = is_priority_script(b);
    if pa != pb {
        pa
    } else {
        matches!(compare_names(a, b), core::cmp::Ordering::Less)
    }
}

/// The scripts in the order they are offered to choose from: the usual
/// start scripts first, then by name.
pub fn rank_scripts(scripts: Vec<Script>) -> (r: Vec<Script>)
    ensures
        in_offer_order(r@),
        r@.to_multiset() == scripts@.to_multiset(),
{
    let ghost all = scripts@;
    let ghost n = all.len();
    let mut rest = scripts;
    let mut out: Vec<Script> = Vec::new();
    proof {
        assert(all.subrange(0, 0) =~= Seq::<Script>::empty());
        assert(rest@ =~= all.subrange(0, n as int));
    }
    while rest.len() > 0
        invariant
            all.len() == n,
            rest@.len() <= n,
            rest@ == all.subrange(n - rest@.len(), n as int),
            out@.to_multiset() == all.subrange(0, n - rest@.len()).to_multiset(),
            in_offer_order(out@),
        decreases rest@.len(),
    {
        let ghost c = n - rest@.len();
        let ghost before_rest = rest@;
        let x = rest.remove(0);
        proof {
            assert(x == all[c]);
            assert(rest@ =~= all.subrange(c + 1, n as int));
            assert(all.subrange(0, c + 1) =~= all.subrange(0, c).push(x));
            all.subrange(0, c).to_multiset_ensures();
        }
        let mut p: usize = 0;
        while p < out.len() && !offered_first(x.name.as_str(), out[p].name.as_str())
            invariant
                p <= out@.len(),
                forall|k: int| 0 <= k < p ==> !offered_before(x.name@, #[trigger] out@[k].name@),
            decreases out@.len() - p,
        {
            p = p + 1;
        }
        let ghost prev = out@;
        proof {
            assert forall|k: int| p <= k < prev.len() implies !offered_before(#[trigger] prev[k].name@, x.name@) by {
                assert(offered_before(x.name@, prev[p as int].name@));
                if offered_before(prev[k].name@, x.name@) {
                    lemma_offered_transitive(prev[k].name@, x.name@, prev[p as int].name@);
                    if k == p {
                        lemma_offered_irreflexive(prev[k].name@);
                    } else {
                        assert(prev[p as int] == prev[p as int] && prev[k] == prev[k]);
                    }
                }
            }
        }
        out.insert(p, x);
        proof {
            let t = out@;
            assert(t.remove(p as int) =~= prev);
            assert(t[p as int] == x);
            assert(t.to_multiset() =~= prev.to_multiset().insert(x)) by {
                t.to_multiset_ensures();
                assert(t.remove(p as int).to_multiset() =~= t.to_multiset().remove(t[p as int]));
                assert(t.contains(x)) by {
                    assert(t[p as int] == x);
                }
                assert(t.to_multiset().count(x) > 0);
            }
            assert forall|i: int, j: int| 0 <= i < j < t.len() implies !offered_before(
                (#[trigger] t[j]).name@,
                (#[trigger] t[i]).name@,
            ) by {
                if j < p {
                    assert(prev[i] == prev[i] && prev[j] == prev[j]);
                } else if j == p {
                    assert(!offered_before(x.name@, prev[i].name@));
                } else if i < p {
                    assert(t[j] == prev[j - 1]);
                    assert(prev[i] == prev[i] && prev[j - 1] == prev[j - 1]);
                } else if i == p {
                    assert(!offered_before(prev[j - 1].name@, x.name@));
                } else {
                    assert(prev[i - 1] == prev[i - 1] && prev[j - 1] == prev[j - 1]);
                }
            }
        }
    }
    proof {
        assert(all.subrange(0, n as int) =~= all);
    }
    out
}

/// The shell command that runs the manifest script `script_name`.
pub fn npm_run_command(script_name: &str) -> (r: String)
    ensures
        r@ == "npm run "@ + script_name@,
{
    String::from_str("npm run ").concat(script_name)
}

} // verus!

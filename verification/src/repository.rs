//! The rules of the project folder that are not file access: which environment names
//! can become file names, and that an environment is listed once.
//!
//! A project is a folder of YAML files; each environment is a file named by its slug,
//! readable in a diff. A slug that is not normalised could hold `../` and leave the
//! folder, so such a name is refused before anything is written.

use vstd::prelude::*;
use crate::{Project, ProjectView};
use crate::environment::EnvironmentView;
use crate::order::text_eq;
use crate::slug::{is_normalized, slug_of, slugify};
use crate::text::concat3;

verus! {

pub open spec fn is_slug(s: Seq<char>) -> bool {
    s.len() > 0 && slug_of(s) == s
}

/// The first environment whose name cannot be a file name, with the suggested name.
pub open spec fn bad_slug_spec(envs: Seq<EnvironmentView>) -> Option<(Seq<char>, Seq<char>)>
    decreases envs.len(),
{
    if envs.len() == 0 {
        None
    } else {
        match bad_slug_spec(envs.drop_last()) {
            Some(x) => Some(x),
            None => if is_slug(envs.last().slug) { None } else { Some((envs.last().slug, slug_of(envs.last().slug))) },
        }
    }
}

/// The first environment of the project whose name cannot be a file name, with the
/// name suggested in its place; `None` when every name can.
pub fn bad_environment_slug(project: &Project) -> (r: Option<(String, String)>)
    ensures
        match bad_slug_spec(project@.environments) {
            Some(x) => r matches Some(y) && y.0@ == x.0 && y.1@ == x.1,
            None => r is None,
        },
{
    let ghost es = project@.environments;
    let mut i: usize = 0;
    while i < project.environments.len()
        invariant
            i <= project.environments@.len(),
            es == project@.environments,
            bad_slug_spec(es.take(i as int)) is None,
        decreases project.environments.len() - i,
    {
        let slug = project.environments[i].slug.as_str();
        proof {
            assert(es.take(i + 1).drop_last() =~= es.take(i as int));
            assert(es.take(i + 1).last() == project.environments@[i as int]@);
        }
        if !is_normalized(slug) {
            proof {
                crate::repository::lemma_bad_slug_stays(es, i as int + 1);
            }
            return Some((slug.to_string(), slugify(slug)));
        }
        i += 1;
    }
    assert(es.take(i as int) =~= es);
    None
}

proof fn lemma_bad_slug_stays(es: Seq<EnvironmentView>, k: int)
    requires
        0 <= k <= es.len(),
        bad_slug_spec(es.take(k)) is Some,
    ensures
        bad_slug_spec(es) == bad_slug_spec(es.take(k)),
    decreases es.len() - k,
{
    if k < es.len() {
        assert(es.take(k + 1).drop_last() =~= es.take(k));
        lemma_bad_slug_stays(es, k + 1);
    } else {
        assert(es.take(k) =~= es);
    }
}

/// The first name listed a second time.
pub open spec fn first_repeat(s: Seq<Seq<char>>) -> Option<Seq<char>>
    decreases s.len(),
{
    if s.len() == 0 {
        None
    } else {
        match first_repeat(s.drop_last()) {
            Some(x) => Some(x),
            None => if s.drop_last().contains(s.last()) { Some(s.last()) } else { None },
        }
    }
}

pub open spec fn texts_view(s: Seq<String>) -> Seq<Seq<char>> {
    s.map_values(|x: String| x@)
}

/// The first environment name listed twice in the project file; such a file is refused.
pub fn first_duplicate(names: &Vec<String>) -> (r: Option<String>)
    ensures
        match first_repeat(texts_view(names@)) {
            Some(x) => r matches Some(y) && y@ == x,
            None => r is None,
        },
{
    let ghost s = texts_view(names@);
    let mut i: usize = 0;
    while i < names.len()
        invariant
            i <= names@.len(),
            s == texts_view(names@),
            first_repeat(s.take(i as int)) is None,
        decreases names.len() - i,
    {
        let mut j: usize = 0;
        let mut seen = false;
        while j < i
            invariant
                j <= i,
                i < names@.len(),
                s == texts_view(names@),
                seen == s.take(j as int).contains(s[i as int]),
            decreases i - j,
        {
            proof {
                assert(s.take(j + 1) =~= s.take(j as int).push(s[j as int]));
                assert(s[j as int] == names@[j as int]@);
                assert(s[i as int] == names@[i as int]@);
            }
            let hit = text_eq(names[j].as_str(), names[i].as_str());
            if hit {
                seen = true;
            }
            proof {
                let t = s.take(j + 1);
                if hit {
                    assert(t[j as int] == s[i as int]);
                } else if t.contains(s[i as int]) {
                    let k = choose|k: int| 0 <= k < t.len() && t[k] == s[i as int];
                    assert(k < j);
                    assert(s.take(j as int)[k] == s[i as int]);
                }
            }
            j += 1;
        }
        proof {
            let t = s.take(i + 1);
            assert(t.drop_last() =~= s.take(i as int));
            assert(t.last() == s[i as int]);
            assert(s[i as int] == names@[i as int]@);
        }
        if seen {
            proof {
                crate::repository::lemma_repeat_stays(s, i as int + 1);
            }
            return Some(names[i].clone());
        }
        i += 1;
    }
    assert(s.take(i as int) =~= s);
    None
}

proof fn lemma_repeat_stays(s: Seq<Seq<char>>, k: int)
    requires
        0 <= k <= s.len(),
        first_repeat(s.take(k)) is Some,
    ensures
        first_repeat(s) == first_repeat(s.take(k)),
    decreases s.len() - k,
{
    if k < s.len() {
        assert(s.take(k + 1).drop_last() =~= s.take(k));
        lemma_repeat_stays(s, k + 1);
    } else {
        assert(s.take(k) =~= s);
    }
}

/// Where an environment is kept in the project folder.
pub fn environment_file(env_slug: &str) -> (r: String)
    ensures
        r@ == "environments/"@ + env_slug@ + ".yaml"@,
{
    concat3("environments/", env_slug, ".yaml")
}

} // verus!

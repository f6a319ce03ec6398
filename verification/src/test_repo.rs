//! Parsing of a flat text repository fixture: one `package: dep dep`
//! line per package, into a package→dependencies mapping.  Reading the
//! text from disk is the caller's concern.

use crate::graph::{lemma_first_index, names_of, GraphView};
use crate::text::{
    spec_lines, spec_split_once, spec_trim, spec_ws_split, split_lines, split_once_char,
    split_whitespace_str, trim_str, trim_string,
};
use vstd::prelude::*;
use vstd::string::*;

verus! {

/// What can go wrong while loading the repository fixture.
#[derive(Debug)]
pub enum TestRepoError {
    /// The fixture file could not be read.
    ReadError(String),
    /// A line does not have the `package: deps` shape.
    ParseError(String),
}

/// `entries` with `key` mapped to `val`: the value of an existing key
/// is replaced in place, a new key is appended.
pub open spec fn upsert(entries: GraphView, key: Seq<char>, val: Seq<Seq<char>>) -> GraphView {
    match names_of(entries).index_of_first(key) {
        Option::Some(i) => entries.update(i, (key, val)),
        Option::None => entries.push((key, val)),
    }
}

/// The entries parsed from the given trimmed-line fold, or the first
/// offending trimmed line: blank lines are skipped, and each other
/// line must split at a colon into a package name and its
/// whitespace-separated dependencies.
pub open spec fn repo_entries(ls: Seq<Seq<char>>, acc: GraphView) -> Result<GraphView, Seq<char>>
    decreases ls.len(),
{
    if ls.len() == 0 {
        Result::Ok(acc)
    } else {
        let t = spec_trim(ls[0]);
        if t.len() == 0 {
            repo_entries(ls.drop_first(), acc)
        } else {
            match spec_split_once(t, ':') {
                Option::Some(p) => repo_entries(
                    ls.drop_first(),
                    upsert(acc, spec_trim(p.0), spec_ws_split(p.1)),
                ),
                Option::None => Result::Err(t),
            }
        }
    }
}

/// The package→dependencies entries of repository text, or the first
/// line that does not parse.
pub open spec fn spec_parse_repo(s: Seq<char>) -> Result<GraphView, Seq<char>> {
    repo_entries(spec_lines(s), Seq::empty())
}

/// Inserts or replaces one parsed entry.
fn upsert_entry(v: &mut Vec<(String, Vec<String>)>, key: String, deps: Vec<String>)
    ensures
        final(v).deep_view() == upsert(old(v).deep_view(), key@, deps.deep_view()),
{
    let ghost dv = old(v).deep_view();
    let mut i: usize = 0;
    while i < v.len()
        invariant
            v == old(v),
            dv == old(v).deep_view(),
            i <= v@.len(),
            forall|m: int| 0 <= m < i ==> (#[trigger] dv[m].0) != key@,
        decreases v@.len() - i,
    {
        proof {
            assert(dv[i as int] == (v@[i as int].0@, v@[i as int].1.deep_view()));
        }
        if v[i].0.eq(&key) {
            proof {
                lemma_first_index(dv, key@);
                assert(names_of(dv)[i as int] == key@);
                let k = names_of(dv).index_of_first(key@).unwrap();
                if k < i {
                    assert(dv[k].0 != key@);
                }
                if (i as int) < k {
                    assert(dv[i as int].0 == key@);
                }
            }
            v.remove(i);
            v.insert(i, (key, deps));
            proof {
                assert(v.deep_view() =~= dv.update(i as int, (key@, deps.deep_view())));
            }
            return ;
        }
        i = i + 1;
    }
    proof {
        lemma_first_index(dv, key@);
        if names_of(dv).index_of_first(key@) is Some {
            let k = names_of(dv).index_of_first(key@).unwrap();
            assert(dv[k].0 == key@);
        }
    }
    v.push((key, deps));
    proof {
        assert(v.deep_view() =~= dv.push((key@, deps.deep_view())));
    }
}

/// Parses repository text into its package→dependencies entries: one
/// `package: dep dep` line per package, blank lines skipped, a later
/// line for a package replacing the earlier one; the error names the
/// first line without a colon.
pub fn parse_repo_map(content: &str) -> (r: Result<Vec<(String, Vec<String>)>, TestRepoError>)
    ensures
        match r {
            Result::Ok(v) => spec_parse_repo(content@) == Result::<GraphView, Seq<char>>::Ok(
                v.deep_view(),
            ),
            Result::Err(e) => match (spec_parse_repo(content@), e) {
                (Result::Err(line), TestRepoError::ParseError(m)) => m@ == "Invalid line format: '"@
                    + line + "'"@,
                _ => false,
            },
        },
{
    let lines = split_lines(content);
    let ghost lv = spec_lines(content@);
    let ghost full = repo_entries(lv, Seq::empty());
    let mut out: Vec<(String, Vec<String>)> = Vec::new();
    let mut i: usize = 0;
    proof {
        assert(lv.skip(0) =~= lv);
        assert(out.deep_view() =~= Seq::<(Seq<char>, Seq<Seq<char>>)>::empty());
    }
    while i < lines.len()
        invariant
            lines.deep_view() == lv,
            lv == spec_lines(content@),
            full == repo_entries(lv, Seq::empty()),
            i <= lines@.len(),
            full == repo_entries(lv.skip(i as int), out.deep_view()),
        decreases lines@.len() - i,
    {
        let ghost rest = lv.skip(i as int);
        proof {
            assert(lines.deep_view()[i as int] == lines@[i as int]@);
            assert(rest[0] == lv[i as int]);
            assert(rest.drop_first() =~= lv.skip(i + 1));
        }
        let t = trim_str(lines[i].as_str());
        if !t.is_empty() {
            match split_once_char(t, ':') {
                Some(p) => {
                    let key = trim_string(p.0.as_str());
                    let deps = split_whitespace_str(p.1.as_str());
                    upsert_entry(&mut out, key, deps);
                },
                None => {
                    proof {
                        assert(repo_entries(rest, out.deep_view()) == Result::<
                            GraphView,
                            Seq<char>,
                        >::Err(t@));
                    }
                    let mut msg = String::from_str("Invalid line format: '");
                    msg.append(t);
                    msg.append("'");
                    return Err(TestRepoError::ParseError(msg));
                },
            }
        }
        i = i + 1;
    }
    proof {
        assert(lv.skip(lv.len() as int) =~= Seq::<Seq<char>>::empty());
    }
    Ok(out)
}

} // verus!

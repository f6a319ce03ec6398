//! Extraction of a package's direct dependency names from manifest
//! text, and derivation of the raw-manifest URL for a repository
//! source.  Fetching the text from a file or over the network is the
//! caller's concern.

use crate::text::{
    ends_with_str, spec_lines, spec_split_once, spec_strip_prefix, spec_strip_suffix, spec_trim,
    split_lines, split_once_char, strip_prefix_str, strip_suffix_str, trim_string,
};
use vstd::prelude::*;
use vstd::string::*;

verus! {

/// What can go wrong while obtaining or reading manifest text.
#[derive(Debug, PartialEq, Eq)]
pub enum CargoParseError {
    /// The manifest could not be fetched from its URL.
    NetworkError(String),
    /// The manifest could not be read from its path.
    FileError(String),
    /// The text holds no dependency section.
    ParseError,
}

/// The trimmed lines of the dependency section: every line after the
/// `[dependencies]` header up to the next section header.  `in_deps`
/// says whether the fold is currently inside the section.
pub open spec fn section_lines(ls: Seq<Seq<char>>, in_deps: bool) -> Seq<Seq<char>>
    decreases ls.len(),
{
    if ls.len() == 0 {
        Seq::empty()
    } else {
        let t = ls[0];
        if in_deps && t.len() > 0 && t[0] == '[' && t != "[dependencies]"@ {
            Seq::empty()
        } else {
            let cont = section_lines(ls.drop_first(), in_deps || t == "[dependencies]"@);
            if in_deps {
                seq![t] + cont
            } else {
                cont
            }
        }
    }
}

/// The dependency section of manifest text, its lines trimmed and
/// joined with newlines; nothing where the section is absent or
/// empty.
pub open spec fn spec_deps_section(s: Seq<char>) -> Option<Seq<char>> {
    let acc = section_lines(spec_lines(s).map_values(|l: Seq<char>| spec_trim(l)), false);
    if acc.len() == 0 {
        Option::None
    } else {
        Option::Some(spec_join_nl(acc))
    }
}

/// Lines joined with a newline between each two.
pub open spec fn spec_join_nl(ls: Seq<Seq<char>>) -> Seq<char>
    decreases ls.len(),
{
    if ls.len() == 0 {
        Seq::empty()
    } else if ls.len() == 1 {
        ls[0]
    } else {
        spec_join_nl(ls.drop_last()) + "\n"@ + ls.last()
    }
}

/// Finds the `[dependencies]` section and returns its trimmed lines
/// joined with newlines; the error where the text has no such section
/// or an empty one.
pub fn extract_dependencies_section(cargo_toml: &str) -> (r: Result<String, CargoParseError>)
    ensures
        match r {
            Result::Ok(sec) => spec_deps_section(cargo_toml@) == Option::Some(sec@),
            Result::Err(e) => spec_deps_section(cargo_toml@) is None && e
                == CargoParseError::ParseError,
        },
{
    let lines = split_lines(cargo_toml);
    let header = String::from_str("[dependencies]");
    let ghost trimmed = spec_lines(cargo_toml@).map_values(|l: Seq<char>| spec_trim(l));
    let ghost full = section_lines(trimmed, false);
    let mut collected: Vec<String> = Vec::new();
    let mut in_deps = false;
    let mut broke = false;
    let mut i: usize = 0;
    proof {
        assert(trimmed.skip(0) =~= trimmed);
        assert(collected.deep_view() =~= Seq::<Seq<char>>::empty());
        assert(collected.deep_view() + section_lines(trimmed, false) =~= section_lines(
            trimmed,
            false,
        ));
    }
    while i < lines.len() && !broke
        invariant
            lines.deep_view() == spec_lines(cargo_toml@),
            trimmed == spec_lines(cargo_toml@).map_values(|l: Seq<char>| spec_trim(l)),
            full == section_lines(trimmed, false),
            header@ == "[dependencies]"@,
            i <= lines@.len(),
            full == collected.deep_view() + (if broke {
                Seq::<Seq<char>>::empty()
            } else {
                section_lines(trimmed.skip(i as int), in_deps)
            }),
        decreases lines@.len() - i + (if broke {
            0int
        } else {
            1int
        }),
    {
        let t = trim_string(lines[i].as_str());
        let ghost rest = trimmed.skip(i as int);
        proof {
            assert(lines.deep_view()[i as int] == lines@[i as int]@);
            assert(rest[0] == trimmed[i as int]);
            assert(trimmed[i as int] == spec_trim(lines.deep_view()[i as int]));
            assert(rest.drop_first() =~= trimmed.skip(i + 1));
        }
        let t_starts_bracket = if t.as_str().unicode_len() > 0 {
            t.as_str().get_char(0) == '['
        } else {
            false
        };
        let is_header = t.eq(&header);
        if t_starts_bracket && in_deps && !is_header {
            broke = true;
            proof {
                assert(section_lines(rest, in_deps) =~= Seq::<Seq<char>>::empty());
            }
        } else {
            if in_deps {
                let ghost before = collected.deep_view();
                collected.push(t.clone());
                proof {
                    assert(collected.deep_view() =~= before.push(t@));
                    assert(before.push(t@) =~= before + seq![t@]);
                    assert((before + seq![t@]) + section_lines(rest.drop_first(), true)
                        =~= before + (seq![t@] + section_lines(rest.drop_first(), true)));
                }
            }
            let next_in = in_deps || is_header;
            proof {
                assert(section_lines(rest, in_deps) == if in_deps {
                    seq![rest[0]] + section_lines(rest.drop_first(), next_in)
                } else {
                    section_lines(rest.drop_first(), next_in)
                });
            }
            in_deps = next_in;
        }
        i = i + 1;
    }
    proof {
        if !broke {
            assert(trimmed.skip(trimmed.len() as int) =~= Seq::<Seq<char>>::empty());
            assert(section_lines(Seq::<Seq<char>>::empty(), in_deps) =~= Seq::<Seq<char>>::empty());
        }
        assert(collected.deep_view() + Seq::<Seq<char>>::empty() =~= collected.deep_view());
        assert(full == collected.deep_view());
    }
    if collected.len() == 0 {
        return Err(CargoParseError::ParseError);
    }
    let mut out = collected[0].clone();
    let mut j: usize = 1;
    proof {
        assert(collected.deep_view().take(1) =~= seq![collected.deep_view()[0]]);
        assert(spec_join_nl(collected.deep_view().take(1)) == collected.deep_view()[0]);
    }
    while j < collected.len()
        invariant
            full == collected.deep_view(),
            1 <= j <= collected@.len(),
            collected@.len() == collected.deep_view().len(),
            out@ == spec_join_nl(collected.deep_view().take(j as int)),
        decreases collected@.len() - j,
    {
        out.append("\n");
        out.append(collected[j].as_str());
        proof {
            let cv = collected.deep_view();
            assert(cv[j as int] == collected@[j as int]@);
            assert(cv.take(j + 1).drop_last() =~= cv.take(j as int));
            assert(cv.take(j + 1).last() == cv[j as int]);
            assert(out@ =~= spec_join_nl(cv.take(j + 1)));
        }
        j = j + 1;
    }
    proof {
        assert(collected.deep_view().take(collected.deep_view().len() as int) =~= collected.deep_view());
    }
    Ok(out)
}

/// The dependency names parsed from section text: for each line of the
/// form `name = ...`, the trimmed name where it is non-empty.
pub open spec fn spec_parse_deps(ls: Seq<Seq<char>>) -> Seq<Seq<char>>
    decreases ls.len(),
{
    if ls.len() == 0 {
        Seq::empty()
    } else {
        let rest = spec_parse_deps(ls.drop_first());
        match spec_split_once(ls[0], '=') {
            Option::Some(p) => {
                let nm = spec_trim(p.0);
                if nm.len() > 0 {
                    seq![nm] + rest
                } else {
                    rest
                }
            },
            Option::None => rest,
        }
    }
}

/// Parses dependency names out of section text, one per `name = ...`
/// line.
pub fn parse_dependencies(section: &str) -> (r: Vec<String>)
    ensures
        r.deep_view() == spec_parse_deps(spec_lines(section@)),
{
    let lines = split_lines(section);
    let ghost lv = spec_lines(section@);
    let ghost full = spec_parse_deps(lv);
    let mut out: Vec<String> = Vec::new();
    let mut i: usize = 0;
    proof {
        assert(lv.skip(0) =~= lv);
        assert(out.deep_view() =~= Seq::<Seq<char>>::empty());
        assert(out.deep_view() + spec_parse_deps(lv) =~= spec_parse_deps(lv));
    }
    while i < lines.len()
        invariant
            lines.deep_view() == lv,
            full == spec_parse_deps(lv),
            i <= lines@.len(),
            full == out.deep_view() + spec_parse_deps(lv.skip(i as int)),
        decreases lines@.len() - i,
    {
        let ghost rest = lv.skip(i as int);
        proof {
            assert(lines.deep_view()[i as int] == lines@[i as int]@);
            assert(rest[0] == lv[i as int]);
            assert(rest.drop_first() =~= lv.skip(i + 1));
        }
        match split_once_char(lines[i].as_str(), '=') {
            Some(p) => {
                let nm = trim_string(p.0.as_str());
                if nm.as_str().unicode_len() > 0 {
                    let ghost before = out.deep_view();
                    out.push(nm);
                    proof {
                        assert(out.deep_view() =~= before.push(spec_trim(
                            spec_split_once(rest[0], '=').unwrap().0,
                        )));
                        assert(before.push(spec_trim(spec_split_once(rest[0], '=').unwrap().0))
                            =~= before + seq![
                            spec_trim(spec_split_once(rest[0], '=').unwrap().0),
                        ]);
                        assert((before + seq![spec_trim(spec_split_once(rest[0], '=').unwrap().0)])
                            + spec_parse_deps(rest.drop_first()) =~= before + (seq![
                            spec_trim(spec_split_once(rest[0], '=').unwrap().0),
                        ] + spec_parse_deps(rest.drop_first())));
                    }
                }
            },
            None => {},
        }
        i = i + 1;
    }
    proof {
        assert(lv.skip(lv.len() as int) =~= Seq::<Seq<char>>::empty());
        assert(spec_parse_deps(Seq::<Seq<char>>::empty()) =~= Seq::<Seq<char>>::empty());
        assert(out.deep_view() + Seq::<Seq<char>>::empty() =~= out.deep_view());
    }
    out
}

/// The URL of the raw manifest for a repository source: a `.git` URL
/// loses its suffix and gains the master manifest path; any other
/// source is taken as a repository page whose host prefix and
/// trailing slashes are stripped.
pub open spec fn spec_manifest_url(s: Seq<char>) -> Seq<char> {
    if ".git"@.is_suffix_of(s) {
        spec_strip_suffix(s, ".git"@) + "/master/Cargo.toml"@
    } else {
        "https://raw.githubusercontent.com/"@ + spec_strip_suffix(
            spec_strip_prefix(s, "https://github.com/"@),
            "/"@,
        ) + "/master/Cargo.toml"@
    }
}

/// Derives the raw-manifest URL from a repository source.
pub fn manifest_url(repo_source: &str) -> (r: String)
    ensures
        r@ == spec_manifest_url(repo_source@),
{
    if ends_with_str(repo_source, ".git") {
        let base = strip_suffix_str(repo_source, ".git");
        let mut out = String::from_str(base);
        out.append("/master/Cargo.toml");
        out
    } else {
        let tail = strip_suffix_str(strip_prefix_str(repo_source, "https://github.com/"), "/");
        let mut out = String::from_str("https://raw.githubusercontent.com/");
        out.append(tail);
        out.append("/master/Cargo.toml");
        out
    }
}

} // verus!

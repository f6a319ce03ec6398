//! Validation of the application configuration: five tagged text
//! fields, read from a configuration document by the caller, checked
//! and shaped into a configuration record here.

use crate::text::{spec_trim, trim_string};
use vstd::prelude::*;
use vstd::string::*;

verus! {

/// The validated application configuration.
#[derive(Debug)]
pub struct AppConfig {
    pub package_name: String,
    pub repo_source: String,
    pub mode: String,
    pub ascii_tree: bool,
    pub exclude_filter: String,
}

/// What can go wrong while reading or validating a configuration.
#[derive(Debug)]
pub enum ConfigError {
    /// The configuration document could not be read.
    ReadError(String),
    /// The document is not well-formed markup.
    XmlError(String),
    /// A required field is absent or holds only whitespace.
    MissingField(String),
    /// A field holds a value outside its domain.
    InvalidValue { field: String, msg: String },
}

/// The text of the last pair naming `tag`, if any: a later value for
/// the same tag overwrites an earlier one.
pub open spec fn last_tag_value(ps: Seq<(Seq<char>, Seq<char>)>, tag: Seq<char>) -> Option<
    Seq<char>,
>
    decreases ps.len(),
{
    if ps.len() == 0 {
        Option::None
    } else if ps.last().0 == tag {
        Option::Some(ps.last().1)
    } else {
        last_tag_value(ps.drop_last(), tag)
    }
}

/// A required field that is absent or holds only whitespace.
pub open spec fn blank(v: Option<Seq<char>>) -> bool {
    v is None || spec_trim(v.unwrap()).len() == 0
}

/// The boolean that trimmed field text stands for, if any.
pub open spec fn bool_of(m: Seq<char>) -> Option<bool> {
    if m == "true"@ || m == "True"@ || m == "TRUE"@ {
        Option::Some(true)
    } else if m == "false"@ || m == "False"@ || m == "FALSE"@ {
        Option::Some(false)
    } else {
        Option::None
    }
}

/// Whether trimmed mode text names a supported mode.
pub open spec fn mode_ok(m: Seq<char>) -> bool {
    m == "real"@ || m == "test"@
}

/// Checks the tagged text fields of a configuration document, in
/// document order with a later duplicate tag overriding an earlier,
/// and builds the configuration record: the package name and the
/// repository source must not be blank, the mode must be `real` or
/// `test`, the tree flag must be a boolean in one of three spellings,
/// and a missing exclusion filter defaults to empty.
pub fn validate_config(pairs: &Vec<(String, String)>) -> (r: Result<AppConfig, ConfigError>)
    ensures
        ({
            let ps = pairs.deep_view();
            let pn = last_tag_value(ps, "PackageName"@);
            let rs = last_tag_value(ps, "RepoSource"@);
            let md = last_tag_value(ps, "Mode"@);
            let at = last_tag_value(ps, "AsciiTree"@);
            let ef = last_tag_value(ps, "ExcludeFilter"@);
            match r {
                Result::Ok(c) => {
                    &&& !blank(pn)
                    &&& !blank(rs)
                    &&& md is Some
                    &&& mode_ok(spec_trim(md.unwrap()))
                    &&& at is Some
                    &&& bool_of(spec_trim(at.unwrap())) is Some
                    &&& c.package_name@ == pn.unwrap()
                    &&& c.repo_source@ == rs.unwrap()
                    &&& c.mode@ == spec_trim(md.unwrap())
                    &&& c.ascii_tree == bool_of(spec_trim(at.unwrap())).unwrap()
                    &&& c.exclude_filter@ == if ef is Some {
                        ef.unwrap()
                    } else {
                        Seq::<char>::empty()
                    }
                },
                Result::Err(e) => match e {
                    ConfigError::MissingField(f) => (f@ == "PackageName"@ && blank(pn)) || (f@
                        == "RepoSource"@ && !blank(pn) && blank(rs)) || (f@ == "Mode"@ && !blank(pn)
                        && !blank(rs) && md is None) || (f@ == "AsciiTree"@ && !blank(pn) && !blank(
                        rs,
                    ) && md is Some && mode_ok(spec_trim(md.unwrap())) && at is None),
                    ConfigError::InvalidValue { field, msg } => (field@ == "Mode"@ && !blank(pn)
                        && !blank(rs) && md is Some && !mode_ok(spec_trim(md.unwrap())) && msg@
                        == "expected 'real' or 'test'"@) || (field@ == "AsciiTree"@ && !blank(pn)
                        && !blank(rs) && md is Some && mode_ok(spec_trim(md.unwrap()))
                        && at is Some && bool_of(spec_trim(at.unwrap())) is None && msg@
                        == "expected true/false, got '"@ + spec_trim(at.unwrap()) + "'"@),
                    _ => false,
                },
            }
        }),
{
    let ghost ps = pairs.deep_view();
    let key_pn = String::from_str("PackageName");
    let key_rs = String::from_str("RepoSource");
    let key_md = String::from_str("Mode");
    let key_at = String::from_str("AsciiTree");
    let key_ef = String::from_str("ExcludeFilter");
    let mut pn: Option<String> = None;
    let mut rs: Option<String> = None;
    let mut md: Option<String> = None;
    let mut at: Option<String> = None;
    let mut ef: Option<String> = None;
    let mut i: usize = 0;
    proof {
        assert(ps.take(0) =~= Seq::<(Seq<char>, Seq<char>)>::empty());
    }
    while i < pairs.len()
        invariant
            ps == pairs.deep_view(),
            i <= pairs@.len(),
            key_pn@ == "PackageName"@,
            key_rs@ == "RepoSource"@,
            key_md@ == "Mode"@,
            key_at@ == "AsciiTree"@,
            key_ef@ == "ExcludeFilter"@,
            opt_view(pn) == last_tag_value(ps.take(i as int), "PackageName"@),
            opt_view(rs) == last_tag_value(ps.take(i as int), "RepoSource"@),
            opt_view(md) == last_tag_value(ps.take(i as int), "Mode"@),
            opt_view(at) == last_tag_value(ps.take(i as int), "AsciiTree"@),
            opt_view(ef) == last_tag_value(ps.take(i as int), "ExcludeFilter"@),
        decreases pairs@.len() - i,
    {
        proof {
            reveal_strlit("PackageName");
            reveal_strlit("RepoSource");
            reveal_strlit("Mode");
            reveal_strlit("AsciiTree");
            reveal_strlit("ExcludeFilter");
            assert("PackageName"@.len() == 11);
            assert("RepoSource"@.len() == 10);
            assert("Mode"@.len() == 4);
            assert("AsciiTree"@.len() == 9);
            assert("ExcludeFilter"@.len() == 13);
            assert(ps[i as int] == (pairs@[i as int].0@, pairs@[i as int].1@));
            assert(ps.take(i + 1).drop_last() =~= ps.take(i as int));
            assert(ps.take(i + 1).last() == ps[i as int]);
        }
        if pairs[i].0.eq(&key_pn) {
            pn = Some(pairs[i].1.clone());
        } else if pairs[i].0.eq(&key_rs) {
            rs = Some(pairs[i].1.clone());
        } else if pairs[i].0.eq(&key_md) {
            md = Some(pairs[i].1.clone());
        } else if pairs[i].0.eq(&key_at) {
            at = Some(pairs[i].1.clone());
        } else if pairs[i].0.eq(&key_ef) {
            ef = Some(pairs[i].1.clone());
        }
        i = i + 1;
    }
    proof {
        assert(ps.take(ps.len() as int) =~= ps);
    }
    let pn_s = match pn {
        Some(v) => v,
        None => {
            return Err(ConfigError::MissingField(String::from_str("PackageName")));
        },
    };
    if trim_string(pn_s.as_str()).as_str().is_empty() {
        return Err(ConfigError::MissingField(String::from_str("PackageName")));
    }
    let rs_s = match rs {
        Some(v) => v,
        None => {
            return Err(ConfigError::MissingField(String::from_str("RepoSource")));
        },
    };
    if trim_string(rs_s.as_str()).as_str().is_empty() {
        return Err(ConfigError::MissingField(String::from_str("RepoSource")));
    }
    let md_s = match md {
        Some(v) => v,
        None => {
            return Err(ConfigError::MissingField(String::from_str("Mode")));
        },
    };
    let md_t = trim_string(md_s.as_str());
    if !(md_t.eq(&String::from_str("real")) || md_t.eq(&String::from_str("test"))) {
        return Err(
            ConfigError::InvalidValue {
                field: String::from_str("Mode"),
                msg: String::from_str("expected 'real' or 'test'"),
            },
        );
    }
    let at_s = match at {
        Some(v) => v,
        None => {
            return Err(ConfigError::MissingField(String::from_str("AsciiTree")));
        },
    };
    let at_t = trim_string(at_s.as_str());
    let ascii_tree: bool;
    if at_t.eq(&String::from_str("true")) || at_t.eq(&String::from_str("True")) || at_t.eq(
        &String::from_str("TRUE"),
    ) {
        ascii_tree = true;
    } else if at_t.eq(&String::from_str("false")) || at_t.eq(&String::from_str("False"))
        || at_t.eq(&String::from_str("FALSE")) {
        ascii_tree = false;
    } else {
        let mut msg = String::from_str("expected true/false, got '");
        msg.append(at_t.as_str());
        msg.append("'");
        return Err(
            ConfigError::InvalidValue { field: String::from_str("AsciiTree"), msg },
        );
    }
    let exclude_filter = match ef {
        Some(v) => v,
        None => String::new(),
    };
    Ok(
        AppConfig {
            package_name: pn_s,
            repo_source: rs_s,
            mode: md_t,
            ascii_tree,
            exclude_filter,
        },
    )
}

/// The text a held option stands for.
pub open spec fn opt_view(o: Option<String>) -> Option<Seq<char>> {
    match o {
        Option::Some(s) => Option::Some(s@),
        Option::None => Option::None,
    }
}

} // verus!

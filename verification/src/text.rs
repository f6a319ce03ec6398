//! Character and string helpers shared by the graph, the traversal
//! output, and the manifest parsers: whitespace trimming, substring
//! search, and line splitting, each verified against a spec-level
//! definition over `Seq<char>`.

use vstd::prelude::*;
use vstd::string::*;

verus! {

/// The characters with the Unicode `White_Space` property, the set that
/// `char::is_whitespace` recognizes.
pub open spec fn is_space(c: char) -> bool {
    let u = c as u32;
    u == 9 || u == 10 || u == 11 || u == 12 || u == 13 || u == 32 || u == 0x85 || u == 0xA0
        || u == 0x1680 || (0x2000 <= u && u <= 0x200A) || u == 0x2028 || u == 0x2029 || u == 0x202F
        || u == 0x205F || u == 0x3000
}

/// Runtime test for [`is_space`].
pub fn is_space_char(c: char) -> (b: bool)
    ensures
        b == is_space(c),
{
    let u = c as u32;
    u == 9 || u == 10 || u == 11 || u == 12 || u == 13 || u == 32 || u == 0x85 || u == 0xA0
        || u == 0x1680 || (0x2000 <= u && u <= 0x200A) || u == 0x2028 || u == 0x2029 || u == 0x202F
        || u == 0x205F || u == 0x3000
}

/// `needle` occurs contiguously somewhere in `hay` (always true for an
/// empty needle).
pub open spec fn is_substring(hay: Seq<char>, needle: Seq<char>) -> bool {
    exists|i: int|
        0 <= i && i + needle.len() <= hay.len() && #[trigger] hay.subrange(i, i + needle.len())
            == needle
}

/// Substring search by direct comparison at every starting offset.
pub fn contains_substr(hay: &str, needle: &str) -> (r: bool)
    ensures
        r == is_substring(hay@, needle@),
{
    let hay_len = hay.unicode_len();
    let needle_len = needle.unicode_len();
    if needle_len > hay_len {
        return false;
    }
    let mut i: usize = 0;
    while i <= hay_len - needle_len
        invariant
            needle_len <= hay_len,
            hay_len == hay@.len(),
            needle_len == needle@.len(),
            i <= hay_len - needle_len + 1,
            forall|k: int|
                0 <= k < i ==> #[trigger] hay@.subrange(k, k + needle@.len()) != needle@,
        decreases hay_len - needle_len - i + 1,
    {
        let mut j: usize = 0;
        let mut all_match = true;
        while j < needle_len
            invariant
                needle_len <= hay_len,
                hay_len == hay@.len(),
                needle_len == needle@.len(),
                i <= hay_len - needle_len,
                j <= needle_len,
                all_match == (forall|m: int| 0 <= m < j ==> hay@[i + m] == #[trigger] needle@[m]),
            decreases needle_len - j,
        {
            if hay.get_char(i + j) != needle.get_char(j) {
                all_match = false;
                j = needle_len;
            } else {
                j = j + 1;
            }
        }
        if all_match {
            proof {
                assert(hay@.subrange(i as int, i + needle@.len()) =~= needle@);
            }
            return true;
        }
        proof {
            assert(hay@.subrange(i as int, i + needle@.len()) != needle@) by {
                assert(forall|m: int|
                    0 <= m < needle@.len() ==> #[trigger] hay@.subrange(
                        i as int,
                        i + needle@.len(),
                    )[m] == hay@[i + m]);
                if hay@.subrange(i as int, i + needle@.len()) == needle@ {
                    assert(forall|m: int| 0 <= m < needle@.len() ==> hay@[i + m] == needle@[m]);
                }
            }
        }
        i = i + 1;
    }
    false
}

/// `s` with any leading whitespace removed.
pub open spec fn trim_front(s: Seq<char>) -> Seq<char>
    decreases s.len(),
{
    if s.len() == 0 {
        s
    } else if is_space(s[0]) {
        trim_front(s.drop_first())
    } else {
        s
    }
}

/// `s` with any trailing whitespace removed.
pub open spec fn trim_back(s: Seq<char>) -> Seq<char>
    decreases s.len(),
{
    if s.len() == 0 {
        s
    } else if is_space(s.last()) {
        trim_back(s.drop_last())
    } else {
        s
    }
}

/// `s` with leading and trailing whitespace removed, the meaning of
/// `str::trim`.
pub open spec fn spec_trim(s: Seq<char>) -> Seq<char> {
    trim_back(trim_front(s))
}

proof fn lemma_trim_front_skip(s: Seq<char>, k: int)
    requires
        0 <= k <= s.len(),
        forall|m: int| 0 <= m < k ==> is_space(s[m]),
    ensures
        trim_front(s) == trim_front(s.skip(k)),
    decreases k,
{
    if k > 0 {
        assert(is_space(s[0]));
        assert(trim_front(s) == trim_front(s.drop_first()));
        assert(s.drop_first() =~= s.skip(1));
        lemma_trim_front_skip(s.skip(1), k - 1);
        assert(s.skip(1).skip(k - 1) =~= s.skip(k));
    } else {
        assert(s.skip(0) =~= s);
    }
}

proof fn lemma_trim_back_take(s: Seq<char>, k: int)
    requires
        0 <= k <= s.len(),
        forall|m: int| k <= m < s.len() ==> is_space(s[m]),
    ensures
        trim_back(s) == trim_back(s.take(k)),
    decreases s.len() - k,
{
    if k < s.len() {
        assert(is_space(s.last()));
        assert(trim_back(s) == trim_back(s.drop_last()));
        assert(s.drop_last() =~= s.take(s.len() - 1));
        lemma_trim_back_take(s.take(s.len() - 1), k);
        assert(s.take(s.len() - 1).take(k) =~= s.take(k));
    } else {
        assert(s.take(s.len() as int) =~= s);
    }
}

/// Whitespace trimming on string slices, the behaviour of `str::trim`.
pub fn trim_str<'a>(s: &'a str) -> (r: &'a str)
    ensures
        r@ == spec_trim(s@),
{
    let len = s.unicode_len();
    let mut lo: usize = 0;
    while lo < len && is_space_char(s.get_char(lo))
        invariant
            len == s@.len(),
            lo <= len,
            forall|m: int| 0 <= m < lo ==> is_space(s@[m]),
        decreases len - lo,
    {
        lo = lo + 1;
    }
    let mut hi: usize = len;
    while hi > lo && is_space_char(s.get_char(hi - 1))
        invariant
            len == s@.len(),
            lo <= hi <= len,
            forall|m: int| 0 <= m < lo ==> is_space(s@[m]),
            forall|m: int| hi <= m < len ==> is_space(s@[m]),
        decreases hi,
    {
        hi = hi - 1;
    }
    let r = s.substring_char(lo, hi);
    proof {
        lemma_trim_front_skip(s@, lo as int);
        let t = s@.skip(lo as int);
        assert(trim_front(t) == t) by {
            if t.len() > 0 {
                assert(t[0] == s@[lo as int]);
                assert(!is_space(t[0]));
            }
        }
        lemma_trim_back_take(t, hi - lo);
        let u = t.take(hi - lo);
        assert(trim_back(u) == u) by {
            if u.len() > 0 {
                assert(u.last() == s@[hi - 1]);
                assert(!is_space(u.last()));
            }
        }
        assert(u =~= s@.subrange(lo as int, hi as int));
    }
    r
}

/// Owned variant of [`trim_str`], convenient where an owned value is
/// compared afterwards.
pub fn trim_string(s: &str) -> (r: String)
    ensures
        r@ == spec_trim(s@),
{
    String::from_str(trim_str(s))
}

/// Relies on `String::push`: appends the given character to the end of
/// the string.
#[verifier::external_body]
pub fn push_char(s: &mut String, c: char)
    ensures
        final(s)@ == old(s)@.push(c),
{
    s.push(c)
}

/// A line with a final carriage return removed, as `str::lines` does at
/// a `\r\n` line ending.
pub open spec fn strip_tail_cr(line: Seq<char>) -> Seq<char> {
    if line.len() > 0 && line.last() == '\r' {
        line.drop_last()
    } else {
        line
    }
}

/// The lines of `s` when `cur` holds the partial line read so far:
/// pieces split at `\n`, each stripped of a final `\r`, with no empty
/// piece after a trailing line ending.
pub open spec fn lines_from(s: Seq<char>, cur: Seq<char>) -> Seq<Seq<char>>
    decreases s.len(),
{
    if s.len() == 0 {
        if cur.len() == 0 {
            Seq::empty()
        } else {
            seq![cur]
        }
    } else if s[0] == '\n' {
        seq![strip_tail_cr(cur)] + lines_from(s.drop_first(), Seq::empty())
    } else {
        lines_from(s.drop_first(), cur.push(s[0]))
    }
}

/// The lines of `s`, the meaning of `str::lines`.
pub open spec fn spec_lines(s: Seq<char>) -> Seq<Seq<char>> {
    lines_from(s, Seq::empty())
}

/// Splits `s` into its lines.
pub fn split_lines(s: &str) -> (r: Vec<String>)
    ensures
        r.deep_view() == spec_lines(s@),
{
    let len = s.unicode_len();
    let mut out: Vec<String> = Vec::new();
    let mut start: usize = 0;
    let mut i: usize = 0;
    proof {
        assert(s@.skip(0) =~= s@);
        assert(s@.subrange(0, 0) =~= Seq::<char>::empty());
        assert(out.deep_view() =~= Seq::<Seq<char>>::empty());
        assert(out.deep_view() + lines_from(s@, Seq::empty()) =~= lines_from(s@, Seq::empty()));
    }
    while i < len
        invariant
            len == s@.len(),
            start <= i <= len,
            spec_lines(s@) == out.deep_view() + lines_from(
                s@.skip(i as int),
                s@.subrange(start as int, i as int),
            ),
        decreases len - i,
    {
        let ghost rest = s@.skip(i as int);
        let ghost cur = s@.subrange(start as int, i as int);
        if s.get_char(i) == '\n' {
            let line_end = if i > start && s.get_char(i - 1) == '\r' {
                i - 1
            } else {
                i
            };
            let line = String::from_str(s.substring_char(start, line_end));
            out.push(line);
            proof {
                assert(rest[0] == '\n');
                assert(strip_tail_cr(cur) =~= s@.subrange(start as int, line_end as int));
                assert(rest.drop_first() =~= s@.skip(i + 1));
                assert(lines_from(rest, cur) == seq![strip_tail_cr(cur)] + lines_from(
                    s@.skip(i + 1),
                    Seq::empty(),
                ));
                assert(s@.subrange(i + 1, i + 1) =~= Seq::<char>::empty());
            }
            start = i + 1;
        } else {
            proof {
                assert(rest[0] == s@[i as int]);
                assert(rest.drop_first() =~= s@.skip(i + 1));
                assert(cur.push(s@[i as int]) =~= s@.subrange(start as int, i + 1));
                assert(lines_from(rest, cur) == lines_from(
                    s@.skip(i + 1),
                    s@.subrange(start as int, i + 1),
                ));
            }
        }
        i = i + 1;
    }
    if start < len {
        let line = String::from_str(s.substring_char(start, len));
        out.push(line);
    }
    proof {
        assert(s@.skip(len as int) =~= Seq::<char>::empty());
    }
    out
}

/// The whitespace-separated pieces of `s` when `cur` holds the partial
/// piece read so far: maximal runs of non-whitespace characters, the
/// meaning of `str::split_whitespace`.
pub open spec fn ws_pieces_from(s: Seq<char>, cur: Seq<char>) -> Seq<Seq<char>>
    decreases s.len(),
{
    if s.len() == 0 {
        if cur.len() == 0 {
            Seq::empty()
        } else {
            seq![cur]
        }
    } else if is_space(s[0]) {
        (if cur.len() == 0 {
            Seq::<Seq<char>>::empty()
        } else {
            seq![cur]
        }) + ws_pieces_from(s.drop_first(), Seq::empty())
    } else {
        ws_pieces_from(s.drop_first(), cur.push(s[0]))
    }
}

/// The whitespace-separated pieces of `s`.
pub open spec fn spec_ws_split(s: Seq<char>) -> Seq<Seq<char>> {
    ws_pieces_from(s, Seq::empty())
}

/// Splits `s` at whitespace runs into its non-empty pieces.
pub fn split_whitespace_str(s: &str) -> (r: Vec<String>)
    ensures
        r.deep_view() == spec_ws_split(s@),
{
    let len = s.unicode_len();
    let mut out: Vec<String> = Vec::new();
    let mut start: usize = 0;
    let mut i: usize = 0;
    proof {
        assert(s@.skip(0) =~= s@);
        assert(s@.subrange(0, 0) =~= Seq::<char>::empty());
        assert(out.deep_view() =~= Seq::<Seq<char>>::empty());
        assert(out.deep_view() + ws_pieces_from(s@, Seq::empty()) =~= ws_pieces_from(
            s@,
            Seq::empty(),
        ));
    }
    while i < len
        invariant
            len == s@.len(),
            start <= i <= len,
            spec_ws_split(s@) == out.deep_view() + ws_pieces_from(
                s@.skip(i as int),
                s@.subrange(start as int, i as int),
            ),
        decreases len - i,
    {
        let ghost rest = s@.skip(i as int);
        let ghost cur = s@.subrange(start as int, i as int);
        if is_space_char(s.get_char(i)) {
            if i > start {
                let piece = String::from_str(s.substring_char(start, i));
                out.push(piece);
            }
            proof {
                assert(is_space(rest[0]));
                assert(rest.drop_first() =~= s@.skip(i + 1));
                assert(s@.subrange(i + 1, i + 1) =~= Seq::<char>::empty());
            }
            start = i + 1;
        } else {
            proof {
                assert(rest[0] == s@[i as int]);
                assert(rest.drop_first() =~= s@.skip(i + 1));
                assert(cur.push(s@[i as int]) =~= s@.subrange(start as int, i + 1));
            }
        }
        i = i + 1;
    }
    if start < len {
        let piece = String::from_str(s.substring_char(start, len));
        out.push(piece);
    }
    proof {
        assert(s@.skip(len as int) =~= Seq::<char>::empty());
    }
    out
}

/// The text before and after the first occurrence of `c` in `s`, the
/// meaning of `str::split_once` with a character pattern.
pub open spec fn spec_split_once(s: Seq<char>, c: char) -> Option<(Seq<char>, Seq<char>)>
    decreases s.len(),
{
    if s.len() == 0 {
        None
    } else if s[0] == c {
        Some((Seq::empty(), s.drop_first()))
    } else {
        match spec_split_once(s.drop_first(), c) {
            None => None,
            Some(p) => Some((seq![s[0]] + p.0, p.1)),
        }
    }
}

proof fn lemma_split_once_found(s: Seq<char>, c: char, i: int)
    requires
        0 <= i < s.len(),
        s[i] == c,
        forall|m: int| 0 <= m < i ==> s[m] != c,
    ensures
        spec_split_once(s, c) == Some((s.take(i), s.skip(i + 1))),
    decreases i,
{
    if i == 0 {
        assert(s.take(0) =~= Seq::<char>::empty());
        assert(s.skip(1) =~= s.drop_first());
    } else {
        let t = s.drop_first();
        assert(forall|m: int| 0 <= m < i - 1 ==> t[m] != c);
        lemma_split_once_found(t, c, i - 1);
        assert(seq![s[0]] + t.take(i - 1) =~= s.take(i));
        assert(t.skip(i) =~= s.skip(i + 1));
    }
}

proof fn lemma_split_once_missing(s: Seq<char>, c: char)
    requires
        forall|m: int| 0 <= m < s.len() ==> s[m] != c,
    ensures
        spec_split_once(s, c) is None,
    decreases s.len(),
{
    if s.len() > 0 {
        lemma_split_once_missing(s.drop_first(), c);
    }
}

/// Splits `s` at the first occurrence of `c`, if any.
pub fn split_once_char(s: &str, c: char) -> (r: Option<(String, String)>)
    ensures
        match r {
            Some(p) => spec_split_once(s@, c) == Some((p.0@, p.1@)),
            None => spec_split_once(s@, c) is None,
        },
{
    let len = s.unicode_len();
    let mut i: usize = 0;
    while i < len
        invariant
            len == s@.len(),
            i <= len,
            forall|m: int| 0 <= m < i ==> s@[m] != c,
        decreases len - i,
    {
        if s.get_char(i) == c {
            let before = String::from_str(s.substring_char(0, i));
            let after = String::from_str(s.substring_char(i + 1, len));
            proof {
                lemma_split_once_found(s@, c, i as int);
                assert(s@.take(i as int) =~= s@.subrange(0, i as int));
                assert(s@.skip(i + 1) =~= s@.subrange(i + 1, len as int));
            }
            return Some((before, after));
        }
        i = i + 1;
    }
    proof {
        lemma_split_once_missing(s@, c);
    }
    None
}

/// Whether the value sequence of `v` holds `key`.
pub fn vec_contains_string(v: &Vec<String>, key: &String) -> (r: bool)
    ensures
        r == v.deep_view().contains(key@),
{
    let mut i: usize = 0;
    while i < v.len()
        invariant
            i <= v.len(),
            forall|m: int| 0 <= m < i ==> v.deep_view()[m] != key@,
        decreases v.len() - i,
    {
        assert(v.deep_view()[i as int] == v@[i as int]@);
        if v[i].eq(key) {
            return true;
        }
        i = i + 1;
    }
    false
}

/// Whether `pat` occurs in `s` exactly at offset `lo`.
fn eq_range(s: &str, lo: usize, pat: &str) -> (r: bool)
    requires
        lo + pat@.len() <= s@.len(),
    ensures
        r == (s@.subrange(lo as int, lo + pat@.len()) == pat@),
{
    let sl = s.unicode_len();
    let n = pat.unicode_len();
    let mut j: usize = 0;
    while j < n
        invariant
            sl == s@.len(),
            n == pat@.len(),
            lo + n <= s@.len(),
            j <= n,
            forall|m: int| 0 <= m < j ==> s@[lo + m] == #[trigger] pat@[m],
        decreases n - j,
    {
        if s.get_char(lo + j) != pat.get_char(j) {
            proof {
                assert(s@.subrange(lo as int, lo + pat@.len())[j as int] == s@[lo + j]);
            }
            return false;
        }
        j = j + 1;
    }
    proof {
        assert(s@.subrange(lo as int, lo + pat@.len()) =~= pat@);
    }
    true
}

/// Whether `s` ends with `p`, the meaning of `str::ends_with`.
pub fn ends_with_str(s: &str, p: &str) -> (r: bool)
    ensures
        r == p@.is_suffix_of(s@),
{
    let sl = s.unicode_len();
    let pl = p.unicode_len();
    if pl > sl {
        return false;
    }
    let r = eq_range(s, sl - pl, p);
    proof {
        if r {
            assert(p@ =~= s@.subrange(s@.len() - p@.len(), s@.len() as int));
        }
        if p@.is_suffix_of(s@) {
            assert(p@ =~= s@.subrange(s@.len() - p@.len(), s@.len() as int));
        }
    }
    r
}

/// `s` with every copy of `suf` removed from the end, the meaning of
/// `str::trim_end_matches` with a string pattern.
pub open spec fn spec_strip_suffix(s: Seq<char>, suf: Seq<char>) -> Seq<char>
    decreases s.len(),
{
    if suf.len() > 0 && suf.is_suffix_of(s) {
        spec_strip_suffix(s.take(s.len() - suf.len()), suf)
    } else {
        s
    }
}

/// `s` with every copy of `pre` removed from the start, the meaning of
/// `str::trim_start_matches` with a string pattern.
pub open spec fn spec_strip_prefix(s: Seq<char>, pre: Seq<char>) -> Seq<char>
    decreases s.len(),
{
    if pre.len() > 0 && pre.is_prefix_of(s) {
        spec_strip_prefix(s.skip(pre.len() as int), pre)
    } else {
        s
    }
}

/// Strips every trailing copy of `suf` from `s`.
pub fn strip_suffix_str<'a>(s: &'a str, suf: &str) -> (r: &'a str)
    ensures
        r@ == spec_strip_suffix(s@, suf@),
{
    let sl = s.unicode_len();
    let n = suf.unicode_len();
    let mut end: usize = sl;
    proof {
        assert(s@.take(sl as int) =~= s@);
    }
    while n > 0 && end >= n && eq_range(s, end - n, suf)
        invariant
            sl == s@.len(),
            n == suf@.len(),
            end <= sl,
            spec_strip_suffix(s@, suf@) == spec_strip_suffix(s@.take(end as int), suf@),
        decreases end,
    {
        proof {
            let cur = s@.take(end as int);
            assert(suf@ =~= cur.subrange(cur.len() - suf@.len(), cur.len() as int)) by {
                assert(forall|m: int|
                    0 <= m < suf@.len() ==> #[trigger] cur.subrange(
                        cur.len() - suf@.len(),
                        cur.len() as int,
                    )[m] == s@[end - n + m]);
                assert(forall|m: int|
                    0 <= m < suf@.len() ==> #[trigger] s@.subrange(end - n, end as int)[m] == s@[
                        end - n + m]);
            }
            assert(suf@.is_suffix_of(cur));
            assert(cur.take(cur.len() - suf@.len()) =~= s@.take(end - n));
        }
        end = end - n;
    }
    proof {
        let cur = s@.take(end as int);
        if n > 0 && end >= n {
            // the loop stopped on a mismatch, so no further copy ends here
            assert(s@.subrange(end - n, end as int) != suf@);
            if suf@.is_suffix_of(cur) {
                assert(suf@ =~= cur.subrange(cur.len() - suf@.len(), cur.len() as int));
                assert(s@.subrange(end - n, end as int) =~= cur.subrange(
                    cur.len() - suf@.len(),
                    cur.len() as int,
                ));
            }
        } else {
            if suf@.len() > 0 && suf@.is_suffix_of(cur) {
                assert(cur.len() >= suf@.len());
            }
        }
        assert(spec_strip_suffix(cur, suf@) == cur);
    }
    s.substring_char(0, end)
}

/// Strips every leading copy of `pre` from `s`.
pub fn strip_prefix_str<'a>(s: &'a str, pre: &str) -> (r: &'a str)
    ensures
        r@ == spec_strip_prefix(s@, pre@),
{
    let sl = s.unicode_len();
    let n = pre.unicode_len();
    let mut start: usize = 0;
    proof {
        assert(s@.skip(0) =~= s@);
    }
    while n > 0 && n <= sl && start <= sl - n && eq_range(s, start, pre)
        invariant
            sl == s@.len(),
            n == pre@.len(),
            start <= sl,
            spec_strip_prefix(s@, pre@) == spec_strip_prefix(s@.skip(start as int), pre@),
        decreases sl - start,
    {
        proof {
            let cur = s@.skip(start as int);
            assert(pre@ =~= cur.subrange(0, pre@.len() as int)) by {
                assert(forall|m: int|
                    0 <= m < pre@.len() ==> #[trigger] cur.subrange(0, pre@.len() as int)[m]
                        == s@[start + m]);
                assert(forall|m: int|
                    0 <= m < pre@.len() ==> #[trigger] s@.subrange(start as int, start + n)[m]
                        == s@[start + m]);
            }
            assert(pre@.is_prefix_of(cur));
            assert(cur.skip(pre@.len() as int) =~= s@.skip(start + n));
        }
        start = start + n;
    }
    proof {
        let cur = s@.skip(start as int);
        if n > 0 && start + n <= sl {
            assert(s@.subrange(start as int, start + n) != pre@);
            if pre@.is_prefix_of(cur) {
                assert(pre@ =~= cur.subrange(0, pre@.len() as int));
                assert(s@.subrange(start as int, start + n) =~= cur.subrange(
                    0,
                    pre@.len() as int,
                ));
            }
        } else {
            if pre@.len() > 0 && pre@.is_prefix_of(cur) {
                assert(cur.len() >= pre@.len());
            }
        }
        assert(spec_strip_prefix(cur, pre@) == cur);
    }
    s.substring_char(start, sl)
}

} // verus!

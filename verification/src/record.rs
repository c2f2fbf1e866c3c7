//! The `OsRelease` record and the verified parser that fills it.

use crate::model::apply_line;
use crate::model::assoc_map;
use crate::model::build_record;
use crate::model::canonical_pair;
use crate::model::empty_record;
use crate::model::eq_pos;
use crate::model::extra_wf;
use crate::model::extract_value;
use crate::model::is_prefix;
use crate::model::is_quoted;
use crate::model::is_ws;
use crate::model::joined;
use crate::model::key_at;
use crate::model::lemma_assoc_push;
use crate::model::lemma_assoc_update;
use crate::model::lemma_eq_pos_at;
use crate::model::lemma_eq_pos_some;
use crate::model::lemma_match_from_skip;
use crate::model::lemma_match_from_some;
use crate::model::lemma_matched_is;
use crate::model::lemma_trim_ws_ends;
use crate::model::matched_key;
use crate::model::pairs_view;
use crate::model::set_field;
use crate::model::trim_end;
use crate::model::trim_start;
use crate::model::trim_ws;
use crate::model::unique_keys;
use crate::model::RecordView;
use vstd::prelude::*;
use vstd::string::StrSliceExecFns;

verus! {

/// Contents of an os-release file: one string per well-known key, plus the
/// overflow list for every other `KEY=value` assignment, in order of first
/// appearance.  All fields default to empty.
#[derive(Clone, Debug, PartialEq)]
pub struct OsRelease {
    /// ANSI color code for the distribution.
    pub ansi_color: String,
    /// Build identifier, e.g. "rolling" on a rolling release.
    pub build_id: String,
    /// URL of the bug reporting system.
    pub bug_report_url: String,
    /// URL of the distribution's documentation.
    pub documentation_url: String,
    /// Assignments whose key is not one of the well-known keys.
    pub extra: Vec<(String, String)>,
    /// Homepage of the distribution.
    pub home_url: String,
    /// Identifier of the distribution, e.g. "arch".
    pub id: String,
    /// Identifier of the parent distribution, if derived from one.
    pub id_like: String,
    /// Name of the distribution's logo.
    pub logo: String,
    /// Name of the operating system.
    pub name: String,
    /// Pretty name of the operating system.
    pub pretty_name: String,
    /// URL of the distribution's privacy policy.
    pub privacy_policy_url: String,
    /// Version of the distribution.
    pub version: String,
    /// Version codename of the distribution.
    pub version_codename: String,
    /// Version identifier of the distribution.
    pub version_id: String,
    /// URL of the distribution's support forum.
    pub support_url: String,
}

impl View for OsRelease {
    type V = RecordView;

    open spec fn view(&self) -> RecordView {
        RecordView {
            ansi_color: self.ansi_color@,
            build_id: self.build_id@,
            bug_report_url: self.bug_report_url@,
            documentation_url: self.documentation_url@,
            home_url: self.home_url@,
            id: self.id@,
            id_like: self.id_like@,
            logo: self.logo@,
            name: self.name@,
            pretty_name: self.pretty_name@,
            privacy_policy_url: self.privacy_policy_url@,
            support_url: self.support_url@,
            version: self.version@,
            version_id: self.version_id@,
            version_codename: self.version_codename@,
            extra: assoc_map(pairs_view(self.extra@)),
        }
    }
}

impl OsRelease {
    /// The overflow list never repeats a key and only holds entries the
    /// parser can produce.
    pub open spec fn wf(&self) -> bool {
        extra_wf(pairs_view(self.extra@))
    }
}

impl Default for OsRelease {
    /// The empty record: every field empty, no overflow entries.
    fn default() -> (r: Self)
        ensures
            r@ == empty_record(),
            r.wf(),
    {
        let r = OsRelease {
            ansi_color: String::new(),
            build_id: String::new(),
            bug_report_url: String::new(),
            documentation_url: String::new(),
            extra: Vec::new(),
            home_url: String::new(),
            id: String::new(),
            id_like: String::new(),
            logo: String::new(),
            name: String::new(),
            pretty_name: String::new(),
            privacy_policy_url: String::new(),
            version: String::new(),
            version_codename: String::new(),
            version_id: String::new(),
            support_url: String::new(),
        };
        proof {
            assert(pairs_view(r.extra@) =~= Seq::empty());
            assert(r@ =~~= empty_record());
        }
        r
    }
}

/// Whether `line` both starts and ends with the character `pattern`.
pub fn is_enclosed_with(line: &str, pattern: char) -> (r: bool)
    ensures
        r == (line@.len() > 0 && line@[0] == pattern && line@.last() == pattern),
{
    let n: usize = line.unicode_len();
    if n == 0 {
        false
    } else {
        line.get_char(0) == pattern && line.get_char(n - 1) == pattern
    }
}

/// Whether `c` is one of the whitespace characters the parser strips.
fn is_ws_char(c: char) -> (r: bool)
    ensures
        r == is_ws(c),
{
    c == ' ' || c == '\t' || c == '\n' || c == '\r' || c == '\x0b' || c == '\x0c'
}

/// `s` with surrounding whitespace removed.
fn trim_str<'a>(s: &'a str) -> (r: &'a str)
    ensures
        r@ == trim_ws(s@),
{
    let n: usize = s.unicode_len();
    let mut start: usize = 0;
    proof {
        assert(s@.skip(0) =~= s@);
    }
    while start < n && is_ws_char(s.get_char(start))
        invariant
            start <= n,
            n == s@.len(),
            trim_start(s@) == trim_start(s@.skip(start as int)),
        decreases n - start,
    {
        proof {
            assert(s@.skip(start as int)[0] == s@[start as int]);
            assert(s@.skip(start as int).drop_first() =~= s@.skip(start as int + 1));
        }
        start = start + 1;
    }
    proof {
        if start == n {
            assert(s@.skip(start as int) =~= Seq::<char>::empty());
        } else {
            assert(s@.skip(start as int)[0] == s@[start as int]);
        }
        assert(trim_start(s@) == s@.skip(start as int));
        assert(s@.skip(start as int) =~= s@.subrange(start as int, n as int));
    }
    let mut end: usize = n;
    while end > start && is_ws_char(s.get_char(end - 1))
        invariant
            start <= end <= n,
            n == s@.len(),
            trim_end(s@.skip(start as int)) == trim_end(s@.subrange(start as int, end as int)),
        decreases end,
    {
        proof {
            assert(s@.subrange(start as int, end as int).last() == s@[end as int - 1]);
            assert(s@.subrange(start as int, end as int).drop_last() =~= s@.subrange(
                start as int,
                end as int - 1,
            ));
        }
        end = end - 1;
    }
    proof {
        if end > start {
            assert(s@.subrange(start as int, end as int).last() == s@[end as int - 1]);
        }
        assert(trim_end(s@.subrange(start as int, end as int)) == s@.subrange(
            start as int,
            end as int,
        ));
    }
    s.substring_char(start, end)
}

/// Whether `s` starts with the prefix `p`.
fn starts_with_key(s: &str, p: &str) -> (r: bool)
    ensures
        r == is_prefix(p@, s@),
{
    let np: usize = p.unicode_len();
    let ns: usize = s.unicode_len();
    if np > ns {
        return false;
    }
    let mut i: usize = 0;
    while i < np
        invariant
            i <= np,
            np == p@.len(),
            np <= s@.len(),
            forall|m: int| 0 <= m < i ==> #[trigger] s@[m] == p@[m],
        decreases np - i,
    {
        if s.get_char(i) != p.get_char(i) {
            proof {
                assert(s@[i as int] != p@[i as int]);
            }
            return false;
        }
        i = i + 1;
    }
    true
}

/// The well-known prefixes, in the order they are tested.
fn key_literal(j: usize) -> (r: &'static str)
    requires
        j < 15,
    ensures
        r@ == key_at(j as int),
{
    match j {
        0 => "ANSI_COLOR=",
        1 => "BUILD_ID=",
        2 => "BUG_REPORT_URL=",
        3 => "DOCUMENTATION_URL=",
        4 => "HOME_URL=",
        5 => "ID=",
        6 => "ID_LIKE=",
        7 => "LOGO=",
        8 => "NAME=",
        9 => "PRETTY_NAME=",
        10 => "PRIVACY_POLICY_URL=",
        11 => "SUPPORT_URL=",
        12 => "VERSION=",
        13 => "VERSION_ID=",
        _ => "VERSION_CODENAME=",
    }
}

/// The first well-known prefix that matches the trimmed line `t`, if any.
fn find_key(t: &str) -> (r: Option<usize>)
    ensures
        match r {
            Some(j) => j < 15 && matched_key(t@) == Some(j as int),
            None => matched_key(t@) is None,
        },
{
    let mut j: usize = 0;
    while j < 15
        invariant
            j <= 15,
            forall|m: int| 0 <= m < j ==> !is_prefix(#[trigger] key_at(m), t@),
        decreases 15 - j,
    {
        if starts_with_key(t, key_literal(j)) {
            proof {
                lemma_matched_is(t@, j as int);
            }
            return Some(j);
        }
        j = j + 1;
    }
    proof {
        lemma_match_from_skip(t@, 0, 15);
    }
    None
}

/// Position of the first `=` character in `t`, if any.
fn find_eq(t: &str) -> (r: Option<usize>)
    ensures
        match r {
            Some(p) => p < t@.len() && eq_pos(t@) == Some(p as int),
            None => eq_pos(t@) is None,
        },
{
    let n: usize = t.unicode_len();
    let mut i: usize = 0;
    while i < n
        invariant
            i <= n,
            n == t@.len(),
            forall|m: int| 0 <= m < i ==> #[trigger] t@[m] != '=',
        decreases n - i,
    {
        if t.get_char(i) == '=' {
            proof {
                lemma_eq_pos_at(t@, i as int);
            }
            return Some(i);
        }
        i = i + 1;
    }
    proof {
        match eq_pos(t@) {
            Some(p) => {
                lemma_eq_pos_some(t@, p);
            },
            None => {},
        }
    }
    None
}

/// The value of a recognized line: the text after the first `skip`
/// characters, trimmed, with one layer of matching quotes removed.
pub fn parse_line<'a>(line: &'a str, skip: usize) -> (r: &'a str)
    requires
        skip <= line@.len(),
    ensures
        r@ == extract_value(line@, skip as int),
{
    let rest = line.substring_char(skip, line.unicode_len());
    let t = trim_str(rest);
    let n: usize = t.unicode_len();
    if n >= 2 && (is_enclosed_with(t, '"') || is_enclosed_with(t, '\'')) {
        proof {
            assert(is_quoted(t@));
        }
        t.substring_char(1, n - 1)
    } else {
        proof {
            assert(!is_quoted(t@));
        }
        t
    }
}

/// Inserts `k = v` into the overflow list, overwriting the value of an
/// existing entry for `k` in place.
fn insert_extra(ps: &mut Vec<(String, String)>, k: String, v: String)
    requires
        extra_wf(pairs_view(old(ps)@)),
        canonical_pair(k@, v@),
    ensures
        extra_wf(pairs_view(final(ps)@)),
        assoc_map(pairs_view(final(ps)@)) == assoc_map(pairs_view(old(ps)@)).insert(k@, v@),
{
    let ghost pv = pairs_view(ps@);
    proof {
        assert(pv.len() == ps@.len());
    }
    let n: usize = ps.len();
    let mut i: usize = 0;
    while i < n
        invariant
            i <= n,
            n == ps@.len(),
            ps@ == old(ps)@,
            pv == pairs_view(ps@),
            extra_wf(pv),
            canonical_pair(k@, v@),
            forall|m: int| 0 <= m < i ==> (#[trigger] pairs_view(ps@)[m]).0 != k@,
        decreases n - i,
    {
        if ps[i].0 == k {
            proof {
                assert(pv[i as int] == (ps@[i as int].0@, ps@[i as int].1@));
                assert(pv[i as int].0 == k@);
            }
            ps[i] = (k, v);
            proof {
                assert(pairs_view(ps@) =~= pv.update(i as int, (pv[i as int].0, v@)));
                lemma_assoc_update(pv, i as int, v@);
                assert forall|m: int| 0 <= m < pairs_view(ps@).len() implies canonical_pair(
                    (#[trigger] pairs_view(ps@)[m]).0,
                    pairs_view(ps@)[m].1,
                ) by {
                    if m != i {
                        assert(pairs_view(ps@)[m] == pv[m]);
                    }
                }
            }
            return;
        }
        i = i + 1;
    }
    ps.push((k, v));
    proof {
        assert(pairs_view(ps@) =~= pv.push((k@, v@)));
        lemma_assoc_push(pv, k@, v@);
        assert(unique_keys(pairs_view(ps@))) by {
            assert forall|a: int, b: int|
                0 <= a < b < pairs_view(ps@).len() implies (#[trigger] pairs_view(ps@)[a]).0 != (
            #[trigger] pairs_view(ps@)[b]).0 by {
                if b < pv.len() {
                    assert(pv[a].0 != pv[b].0);
                } else {
                    assert(pairs_view(ps@)[a] == pv[a]);
                    assert(pv[a].0 != k@);
                }
            }
        }
        assert forall|m: int| 0 <= m < pairs_view(ps@).len() implies canonical_pair(
            (#[trigger] pairs_view(ps@)[m]).0,
            pairs_view(ps@)[m].1,
        ) by {
            if m < pv.len() {
                assert(pairs_view(ps@)[m] == pv[m]);
            }
        }
    }
}

/// Overwrites the field that prefix `j` assigns.
fn set_field_by_idx(os: &mut OsRelease, j: usize, v: String)
    requires
        j < 15,
    ensures
        final(os)@ == set_field(old(os)@, j as int, v@),
        final(os).extra@ == old(os).extra@,
{
    match j {
        0 => os.ansi_color = v,
        1 => os.build_id = v,
        2 => os.bug_report_url = v,
        3 => os.documentation_url = v,
        4 => os.home_url = v,
        5 => os.id = v,
        6 => os.id_like = v,
        7 => os.logo = v,
        8 => os.name = v,
        9 => os.pretty_name = v,
        10 => os.privacy_policy_url = v,
        11 => os.support_url = v,
        12 => os.version = v,
        13 => os.version_id = v,
        _ => os.version_codename = v,
    }
    proof {
        assert(os@ =~~= set_field(old(os)@, j as int, v@));
    }
}

impl OsRelease {
    /// Builds a record from the given lines, applied in order.
    pub fn from_iter(lines: Vec<String>) -> (r: OsRelease)
        ensures
            r.wf(),
            r@ == build_record(lines.deep_view()),
    {
        let mut os = OsRelease::default();
        proof {
            assert(lines.deep_view().take(0) =~= Seq::<Seq<char>>::empty());
        }
        let mut idx: usize = 0;
        while idx < lines.len()
            invariant
                idx <= lines@.len(),
                os.wf(),
                os@ == build_record(lines.deep_view().take(idx as int)),
            decreases lines@.len() - idx,
        {
            let ghost pre = os@;
            let line: &String = &lines[idx];
            proof {
                assert(lines.deep_view()[idx as int] == line@);
            }
            let t = trim_str(line.as_str());
            match find_key(t) {
                Some(j) => {
                    proof {
                        lemma_match_from_some(t@, 0, j as int);
                    }
                    let klen: usize = key_literal(j).unicode_len();
                    let value = parse_line(t, klen);
                    let owned = value.to_owned();
                    set_field_by_idx(&mut os, j, owned);
                    proof {
                        assert(os@ == apply_line(pre, line@));
                    }
                },
                None => {
                    let n: usize = t.unicode_len();
                    match find_eq(t) {
                        Some(p) => {
                            if p + 1 < n {
                                proof {
                                    lemma_eq_pos_some(t@, p as int);
                                    lemma_trim_ws_ends(line@);
                                }
                                let key_s = t.substring_char(0, p).to_owned();
                                let val_s = t.substring_char(p + 1, n).to_owned();
                                proof {
                                    assert forall|m: int| 0 <= m < key_s@.len() implies #[trigger]
                                    key_s@[m] != '=' by {
                                        assert(t@[m] != '=');
                                    }
                                    assert(val_s@.last() == t@.last());
                                    assert(joined(key_s@, val_s@) =~= t@);
                                    assert(canonical_pair(key_s@, val_s@));
                                }
                                insert_extra(&mut os.extra, key_s, val_s);
                                proof {
                                    assert(os@ =~~= apply_line(pre, line@));
                                }
                            } else {
                                proof {
                                    assert(os@ == apply_line(pre, line@));
                                }
                            }
                        },
                        None => {
                            proof {
                                assert(os@ == apply_line(pre, line@));
                            }
                        },
                    }
                },
            }
            proof {
                assert(lines.deep_view().take(idx as int + 1).drop_last() =~= lines.deep_view()
                    .take(idx as int));
                assert(lines.deep_view().take(idx as int + 1).last() == line@);
                assert(os@ == build_record(lines.deep_view().take(idx as int + 1)));
            }
            idx = idx + 1;
        }
        proof {
            assert(lines.deep_view().take(lines@.len() as int) =~= lines.deep_view());
        }
        os
    }
}

} // verus!

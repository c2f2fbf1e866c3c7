//! Mathematical model of the os-release line format.
//!
//! Everything here is specification-level: sequences of characters stand for
//! lines, a [`RecordView`] stands for a parsed record, and [`build_record`]
//! folds a sequence of lines into a record exactly as the executable parser
//! in [`crate::record`] does.

use vstd::prelude::*;

verus! {

/// Characters stripped from the ends of a line or of a value.
pub open spec fn is_ws(c: char) -> bool {
    c == ' ' || c == '\t' || c == '\n' || c == '\r' || c == '\x0b' || c == '\x0c'
}

/// `s` with leading whitespace removed.
pub open spec fn trim_start(s: Seq<char>) -> Seq<char>
    decreases s.len(),
{
    if s.len() > 0 && is_ws(s[0]) {
        trim_start(s.drop_first())
    } else {
        s
    }
}

/// `s` with trailing whitespace removed.
pub open spec fn trim_end(s: Seq<char>) -> Seq<char>
    decreases s.len(),
{
    if s.len() > 0 && is_ws(s.last()) {
        trim_end(s.drop_last())
    } else {
        s
    }
}

/// `s` with surrounding whitespace removed.
pub open spec fn trim_ws(s: Seq<char>) -> Seq<char> {
    trim_end(trim_start(s))
}

pub open spec fn is_quote(c: char) -> bool {
    c == '"' || c == '\''
}

/// Whether `s` is wrapped in a single matching pair of quote characters.
pub open spec fn is_quoted(s: Seq<char>) -> bool {
    s.len() >= 2 && s[0] == s.last() && is_quote(s[0])
}

/// One layer of matching outer quotes removed; interior content untouched.
pub open spec fn unquote(s: Seq<char>) -> Seq<char> {
    if is_quoted(s) {
        s.subrange(1, s.len() - 1)
    } else {
        s
    }
}

/// Number of well-known `KEY=` prefixes.
pub open spec fn key_count() -> int {
    15
}

/// The well-known prefixes, in the order the parser tests them.
pub open spec fn key_at(j: int) -> Seq<char> {
    if j == 0 {
        "ANSI_COLOR="@
    } else if j == 1 {
        "BUILD_ID="@
    } else if j == 2 {
        "BUG_REPORT_URL="@
    } else if j == 3 {
        "DOCUMENTATION_URL="@
    } else if j == 4 {
        "HOME_URL="@
    } else if j == 5 {
        "ID="@
    } else if j == 6 {
        "ID_LIKE="@
    } else if j == 7 {
        "LOGO="@
    } else if j == 8 {
        "NAME="@
    } else if j == 9 {
        "PRETTY_NAME="@
    } else if j == 10 {
        "PRIVACY_POLICY_URL="@
    } else if j == 11 {
        "SUPPORT_URL="@
    } else if j == 12 {
        "VERSION="@
    } else if j == 13 {
        "VERSION_ID="@
    } else if j == 14 {
        "VERSION_CODENAME="@
    } else {
        Seq::empty()
    }
}

/// Whether `p` is a prefix of `s`.
pub open spec fn is_prefix(p: Seq<char>, s: Seq<char>) -> bool {
    p.len() <= s.len() && forall|i: int| 0 <= i < p.len() ==> #[trigger] s[i] == p[i]
}

/// First well-known prefix at or after index `j` that matches `t`.
pub open spec fn match_from(t: Seq<char>, j: int) -> Option<int>
    decreases key_count() - j,
{
    if j < 0 || j >= key_count() {
        None
    } else if is_prefix(key_at(j), t) {
        Some(j)
    } else {
        match_from(t, j + 1)
    }
}

/// The well-known prefix a trimmed line is recognized under, if any.
pub open spec fn matched_key(t: Seq<char>) -> Option<int> {
    match_from(t, 0)
}

/// Position of the first `=` character in `s`, if any.
pub open spec fn eq_pos(s: Seq<char>) -> Option<int>
    decreases s.len(),
{
    if s.len() == 0 {
        None
    } else if s[0] == '=' {
        Some(0)
    } else {
        match eq_pos(s.drop_first()) {
            None => None,
            Some(p) => Some(p + 1),
        }
    }
}

/// The value a recognized line assigns: the text after the prefix, trimmed,
/// with one layer of matching quotes removed.
pub open spec fn extract_value(t: Seq<char>, skip: int) -> Seq<char>
    recommends
        0 <= skip <= t.len(),
{
    unquote(trim_ws(t.subrange(skip, t.len() as int)))
}

/// The key/value pair an unrecognized trimmed line contributes to the
/// overflow mapping: split at the first `=`, value taken raw; nothing when
/// there is no `=` or the value would be empty.
pub open spec fn overflow_pair(t: Seq<char>) -> Option<(Seq<char>, Seq<char>)> {
    match eq_pos(t) {
        Some(p) => if p + 1 < t.len() {
            Some((t.subrange(0, p), t.subrange(p + 1, t.len() as int)))
        } else {
            None
        },
        None => None,
    }
}

/// Specification-level record: one sequence of characters per well-known
/// field, and a map for the overflow entries.
#[verifier::ext_equal]
pub ghost struct RecordView {
    pub ansi_color: Seq<char>,
    pub build_id: Seq<char>,
    pub bug_report_url: Seq<char>,
    pub documentation_url: Seq<char>,
    pub home_url: Seq<char>,
    pub id: Seq<char>,
    pub id_like: Seq<char>,
    pub logo: Seq<char>,
    pub name: Seq<char>,
    pub pretty_name: Seq<char>,
    pub privacy_policy_url: Seq<char>,
    pub support_url: Seq<char>,
    pub version: Seq<char>,
    pub version_id: Seq<char>,
    pub version_codename: Seq<char>,
    pub extra: Map<Seq<char>, Seq<char>>,
}

/// The record every build starts from: all fields empty, no overflow entries.
pub open spec fn empty_record() -> RecordView {
    RecordView {
        ansi_color: Seq::empty(),
        build_id: Seq::empty(),
        bug_report_url: Seq::empty(),
        documentation_url: Seq::empty(),
        home_url: Seq::empty(),
        id: Seq::empty(),
        id_like: Seq::empty(),
        logo: Seq::empty(),
        name: Seq::empty(),
        pretty_name: Seq::empty(),
        privacy_policy_url: Seq::empty(),
        support_url: Seq::empty(),
        version: Seq::empty(),
        version_id: Seq::empty(),
        version_codename: Seq::empty(),
        extra: Map::empty(),
    }
}

/// The field that prefix `j` assigns.
pub open spec fn field_value(r: RecordView, j: int) -> Seq<char> {
    if j == 0 {
        r.ansi_color
    } else if j == 1 {
        r.build_id
    } else if j == 2 {
        r.bug_report_url
    } else if j == 3 {
        r.documentation_url
    } else if j == 4 {
        r.home_url
    } else if j == 5 {
        r.id
    } else if j == 6 {
        r.id_like
    } else if j == 7 {
        r.logo
    } else if j == 8 {
        r.name
    } else if j == 9 {
        r.pretty_name
    } else if j == 10 {
        r.privacy_policy_url
    } else if j == 11 {
        r.support_url
    } else if j == 12 {
        r.version
    } else if j == 13 {
        r.version_id
    } else if j == 14 {
        r.version_codename
    } else {
        Seq::empty()
    }
}

/// `r` with the field of prefix `j` overwritten by `v`.
pub open spec fn set_field(r: RecordView, j: int, v: Seq<char>) -> RecordView {
    if j == 0 {
        RecordView { ansi_color: v, ..r }
    } else if j == 1 {
        RecordView { build_id: v, ..r }
    } else if j == 2 {
        RecordView { bug_report_url: v, ..r }
    } else if j == 3 {
        RecordView { documentation_url: v, ..r }
    } else if j == 4 {
        RecordView { home_url: v, ..r }
    } else if j == 5 {
        RecordView { id: v, ..r }
    } else if j == 6 {
        RecordView { id_like: v, ..r }
    } else if j == 7 {
        RecordView { logo: v, ..r }
    } else if j == 8 {
        RecordView { name: v, ..r }
    } else if j == 9 {
        RecordView { pretty_name: v, ..r }
    } else if j == 10 {
        RecordView { privacy_policy_url: v, ..r }
    } else if j == 11 {
        RecordView { support_url: v, ..r }
    } else if j == 12 {
        RecordView { version: v, ..r }
    } else if j == 13 {
        RecordView { version_id: v, ..r }
    } else if j == 14 {
        RecordView { version_codename: v, ..r }
    } else {
        r
    }
}

/// One step of the parser: trim the line, assign a well-known field if a
/// prefix matches, otherwise try the overflow mapping, otherwise ignore.
pub open spec fn apply_line(r: RecordView, line: Seq<char>) -> RecordView {
    let t = trim_ws(line);
    match matched_key(t) {
        Some(j) => set_field(r, j, extract_value(t, key_at(j).len() as int)),
        None => match overflow_pair(t) {
            Some(kv) => RecordView { extra: r.extra.insert(kv.0, kv.1), ..r },
            None => r,
        },
    }
}

/// The record obtained by applying every line of `lines`, in order, to `r`.
pub open spec fn build_from(r: RecordView, lines: Seq<Seq<char>>) -> RecordView
    decreases lines.len(),
{
    if lines.len() == 0 {
        r
    } else {
        apply_line(build_from(r, lines.drop_last()), lines.last())
    }
}

/// The record the parser produces for `lines`.
pub open spec fn build_record(lines: Seq<Seq<char>>) -> RecordView {
    build_from(empty_record(), lines)
}

/// The overflow list as sequences of characters.
pub open spec fn pairs_view(ps: Seq<(String, String)>) -> Seq<(Seq<char>, Seq<char>)> {
    ps.map_values(|p: (String, String)| (p.0@, p.1@))
}

/// The map an association list denotes; a later entry for the same key wins.
pub open spec fn assoc_map(ps: Seq<(Seq<char>, Seq<char>)>) -> Map<Seq<char>, Seq<char>>
    decreases ps.len(),
{
    if ps.len() == 0 {
        Map::empty()
    } else {
        assoc_map(ps.drop_last()).insert(ps.last().0, ps.last().1)
    }
}

/// No two entries of the association list share a key.
pub open spec fn unique_keys(ps: Seq<(Seq<char>, Seq<char>)>) -> bool {
    forall|i: int, j: int| 0 <= i < j < ps.len() ==> (#[trigger] ps[i]).0 != (#[trigger] ps[j]).0
}

/// `k`, `=`, `v` joined into one line.
pub open spec fn joined(k: Seq<char>, v: Seq<char>) -> Seq<char> {
    k + seq!['='] + v
}

/// Shape of every overflow entry the parser produces: the key holds no `=`
/// and does not start with whitespace, the value is non-empty and does not
/// end with whitespace, and re-joining the two matches no well-known prefix.
/// Entries of this shape survive a round trip through the parser.
pub open spec fn canonical_pair(k: Seq<char>, v: Seq<char>) -> bool {
    &&& forall|i: int| 0 <= i < k.len() ==> #[trigger] k[i] != '='
    &&& k.len() > 0 ==> !is_ws(k[0])
    &&& v.len() > 0
    &&& !is_ws(v.last())
    &&& matched_key(joined(k, v)) is None
}

/// Well-formedness of the overflow list: unique keys, every entry canonical.
pub open spec fn extra_wf(ps: Seq<(Seq<char>, Seq<char>)>) -> bool {
    &&& unique_keys(ps)
    &&& forall|i: int| 0 <= i < ps.len() ==> canonical_pair(
        (#[trigger] ps[i]).0,
        ps[i].1,
    )
}

/// A trimmed-at-the-front sequence does not start with whitespace.
pub proof fn lemma_trim_start_first(s: Seq<char>)
    ensures
        trim_start(s).len() > 0 ==> !is_ws(trim_start(s)[0]),
    decreases s.len(),
{
    if s.len() > 0 && is_ws(s[0]) {
        lemma_trim_start_first(s.drop_first());
    }
}

/// A trimmed-at-the-back sequence does not end with whitespace.
pub proof fn lemma_trim_end_last(s: Seq<char>)
    ensures
        trim_end(s).len() > 0 ==> !is_ws(trim_end(s).last()),
    decreases s.len(),
{
    if s.len() > 0 && is_ws(s.last()) {
        lemma_trim_end_last(s.drop_last());
    }
}

/// Trimming at the back leaves the first character in place.
pub proof fn lemma_trim_end_first(s: Seq<char>)
    ensures
        trim_end(s).len() > 0 ==> trim_end(s)[0] == s[0],
    decreases s.len(),
{
    if s.len() > 0 && is_ws(s.last()) {
        lemma_trim_end_first(s.drop_last());
    }
}

/// A non-empty trimmed line neither starts nor ends with whitespace.
pub proof fn lemma_trim_ws_ends(s: Seq<char>)
    ensures
        trim_ws(s).len() > 0 ==> !is_ws(trim_ws(s)[0]) && !is_ws(trim_ws(s).last()),
{
    lemma_trim_start_first(s);
    lemma_trim_end_first(trim_start(s));
    lemma_trim_end_last(trim_start(s));
}

/// Trimming a sequence with no outer whitespace changes nothing.
pub proof fn lemma_trim_ws_noop(s: Seq<char>)
    requires
        s.len() == 0 || (!is_ws(s[0]) && !is_ws(s.last())),
    ensures
        trim_ws(s) == s,
{
}

/// What the position of the first `=` means.
pub proof fn lemma_eq_pos_some(s: Seq<char>, p: int)
    requires
        eq_pos(s) == Some(p),
    ensures
        0 <= p < s.len(),
        s[p] == '=',
        forall|i: int| 0 <= i < p ==> s[i] != '=',
    decreases s.len(),
{
    if s.len() > 0 && s[0] != '=' {
        match eq_pos(s.drop_first()) {
            None => {},
            Some(q) => {
                lemma_eq_pos_some(s.drop_first(), q);
                assert forall|i: int| 0 <= i < p implies s[i] != '=' by {
                    if i > 0 {
                        assert(s.drop_first()[i - 1] != '=');
                    }
                }
            },
        }
    }
}

/// When there is no `=`, no position holds one.
pub proof fn lemma_eq_pos_none(s: Seq<char>)
    requires
        eq_pos(s) is None,
    ensures
        forall|i: int| 0 <= i < s.len() ==> s[i] != '=',
    decreases s.len(),
{
    if s.len() > 0 && s[0] != '=' {
        lemma_eq_pos_none(s.drop_first());
        assert forall|i: int| 0 <= i < s.len() implies s[i] != '=' by {
            if i > 0 {
                assert(s.drop_first()[i - 1] != '=');
            }
        }
    }
}

/// The first `=` is found where the first `=` stands.
pub proof fn lemma_eq_pos_at(s: Seq<char>, p: int)
    requires
        0 <= p < s.len(),
        s[p] == '=',
        forall|i: int| 0 <= i < p ==> s[i] != '=',
    ensures
        eq_pos(s) == Some(p),
    decreases s.len(),
{
    if p > 0 {
        assert(s.drop_first()[p - 1] == s[p]);
        assert forall|i: int| 0 <= i < p - 1 implies s.drop_first()[i] != '=' by {
            assert(s[i + 1] != '=');
        }
        lemma_eq_pos_at(s.drop_first(), p - 1);
    }
}

/// Scanning skips prefixes that do not match.
pub proof fn lemma_match_from_skip(t: Seq<char>, i: int, j: int)
    requires
        0 <= i <= j <= key_count(),
        forall|m: int| i <= m < j ==> !is_prefix(#[trigger] key_at(m), t),
    ensures
        match_from(t, i) == match_from(t, j),
    decreases j - i,
{
    if i < j {
        lemma_match_from_skip(t, i + 1, j);
    }
}

/// What a successful scan means.
pub proof fn lemma_match_from_some(t: Seq<char>, i: int, j: int)
    requires
        0 <= i,
        match_from(t, i) == Some(j),
    ensures
        i <= j < key_count(),
        is_prefix(key_at(j), t),
    decreases key_count() - i,
{
    if i < key_count() && !is_prefix(key_at(i), t) {
        lemma_match_from_some(t, i + 1, j);
    }
}

/// Every well-known prefix ends in `=`, starts with a non-whitespace
/// character, and is at least three characters long.
pub proof fn lemma_key_shape(j: int)
    requires
        0 <= j < key_count(),
    ensures
        3 <= key_at(j).len(),
        key_at(j).last() == '=',
        !is_ws(key_at(j)[0]),
        forall|i: int| 0 <= i < key_at(j).len() - 1 ==> #[trigger] key_at(j)[i] != '=',
{
    reveal_strlit("ANSI_COLOR=");
    reveal_strlit("BUILD_ID=");
    reveal_strlit("BUG_REPORT_URL=");
    reveal_strlit("DOCUMENTATION_URL=");
    reveal_strlit("HOME_URL=");
    reveal_strlit("ID=");
    reveal_strlit("ID_LIKE=");
    reveal_strlit("LOGO=");
    reveal_strlit("NAME=");
    reveal_strlit("PRETTY_NAME=");
    reveal_strlit("PRIVACY_POLICY_URL=");
    reveal_strlit("SUPPORT_URL=");
    reveal_strlit("VERSION=");
    reveal_strlit("VERSION_ID=");
    reveal_strlit("VERSION_CODENAME=");
}

/// No two distinct well-known prefixes match the same line: no recognized
/// prefix is a prefix of another.
pub proof fn lemma_keys_distinct(t: Seq<char>, j1: int, j2: int)
    requires
        0 <= j1 < key_count(),
        0 <= j2 < key_count(),
        is_prefix(key_at(j1), t),
        is_prefix(key_at(j2), t),
    ensures
        j1 == j2,
{
    reveal_strlit("ANSI_COLOR=");
    reveal_strlit("BUILD_ID=");
    reveal_strlit("BUG_REPORT_URL=");
    reveal_strlit("DOCUMENTATION_URL=");
    reveal_strlit("HOME_URL=");
    reveal_strlit("ID=");
    reveal_strlit("ID_LIKE=");
    reveal_strlit("LOGO=");
    reveal_strlit("NAME=");
    reveal_strlit("PRETTY_NAME=");
    reveal_strlit("PRIVACY_POLICY_URL=");
    reveal_strlit("SUPPORT_URL=");
    reveal_strlit("VERSION=");
    reveal_strlit("VERSION_ID=");
    reveal_strlit("VERSION_CODENAME=");
    let k1 = key_at(j1);
    let k2 = key_at(j2);
    // The prefixes pairwise differ at index 0, 2, 7 or 8; pinning those
    // characters of `t` refutes every mixed pair.
    assert(t[0] == k1[0] && t[0] == k2[0]);
    assert(t[2] == k1[2] && t[2] == k2[2]);
    assert(7 < k1.len() && 7 < k2.len() ==> t[7] == k1[7] && t[7] == k2[7]);
    assert(8 < k1.len() && 8 < k2.len() ==> t[8] == k1[8] && t[8] == k2[8]);
}

/// A line that carries a well-known prefix is recognized under it.
pub proof fn lemma_matched_is(t: Seq<char>, j: int)
    requires
        0 <= j < key_count(),
        is_prefix(key_at(j), t),
    ensures
        matched_key(t) == Some(j),
{
    assert forall|m: int| 0 <= m < j implies !is_prefix(#[trigger] key_at(m), t) by {
        if is_prefix(key_at(m), t) {
            lemma_keys_distinct(t, m, j);
        }
    }
    lemma_match_from_skip(t, 0, j);
}

/// A line without `=` is recognized under no well-known prefix.
pub proof fn lemma_no_eq_no_match(t: Seq<char>)
    requires
        forall|i: int| 0 <= i < t.len() ==> #[trigger] t[i] != '=',
    ensures
        matched_key(t) is None,
{
    match matched_key(t) {
        Some(j) => {
            lemma_match_from_some(t, 0, j);
            lemma_key_shape(j);
            let k = key_at(j);
            assert(t[k.len() - 1] == k[k.len() - 1]);
        },
        None => {},
    }
}

/// Appending a pair inserts its key.
pub proof fn lemma_assoc_push(ps: Seq<(Seq<char>, Seq<char>)>, k: Seq<char>, v: Seq<char>)
    ensures
        assoc_map(ps.push((k, v))) == assoc_map(ps).insert(k, v),
{
    let q = ps.push((k, v));
    assert(q.drop_last() =~= ps);
    assert(q.last() == (k, v));
}

/// Overwriting the value of an existing key inserts over it.
pub proof fn lemma_assoc_update(ps: Seq<(Seq<char>, Seq<char>)>, i: int, v: Seq<char>)
    requires
        unique_keys(ps),
        0 <= i < ps.len(),
    ensures
        assoc_map(ps.update(i, (ps[i].0, v))) == assoc_map(ps).insert(ps[i].0, v),
    decreases ps.len(),
{
    let k = ps[i].0;
    let q = ps.update(i, (k, v));
    if i == ps.len() - 1 {
        assert(q.drop_last() =~= ps.drop_last());
        assert(assoc_map(ps.drop_last()).insert(k, ps.last().1).insert(k, v) =~= assoc_map(
            ps.drop_last(),
        ).insert(k, v));
    } else {
        assert(unique_keys(ps.drop_last())) by {
            assert forall|a: int, b: int|
                0 <= a < b < ps.drop_last().len() implies (#[trigger] ps.drop_last()[a]).0 != (
            #[trigger] ps.drop_last()[b]).0 by {
                assert(ps[a].0 != ps[b].0);
            }
        }
        lemma_assoc_update(ps.drop_last(), i, v);
        assert(q.drop_last() =~= ps.drop_last().update(i, (k, v)));
        assert(q.last() == ps.last());
        let m = assoc_map(ps.drop_last());
        assert(k != ps.last().0);
        assert(m.insert(k, v).insert(ps.last().0, ps.last().1) =~= m.insert(
            ps.last().0,
            ps.last().1,
        ).insert(k, v));
    }
}

} // verus!

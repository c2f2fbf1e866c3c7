//! General properties of the parser, stated and proved against the model.
//!
//! Each proof function here is a law of the whole parser: a statement over
//! arbitrary line sequences or records, proved from the definitions in
//! [`crate::model`] alone.

use crate::model::apply_line;
use crate::model::build_from;
use crate::model::build_record;
use crate::model::canonical_pair;
use crate::model::empty_record;
use crate::model::eq_pos;
use crate::model::extract_value;
use crate::model::extra_wf;
use crate::model::field_value;
use crate::model::is_prefix;
use crate::model::is_quoted;
use crate::model::joined;
use crate::model::key_at;
use crate::model::key_count;
use crate::model::lemma_eq_pos_at;
use crate::model::lemma_eq_pos_none;
use crate::model::lemma_key_shape;
use crate::model::lemma_matched_is;
use crate::model::lemma_no_eq_no_match;
use crate::model::lemma_trim_ws_noop;
use crate::model::matched_key;
use crate::model::overflow_pair;
use crate::model::pairs_view;
use crate::model::assoc_map;
use crate::model::set_field;
use crate::model::trim_ws;
use crate::model::unquote;
use crate::model::RecordView;
use crate::record::OsRelease;
use vstd::prelude::*;

verus! {

/// A line with no `=` character affects no field and no overflow entry.
pub proof fn lemma_line_without_eq_ignored(r: RecordView, line: Seq<char>)
    requires
        eq_pos(trim_ws(line)) is None,
    ensures
        apply_line(r, line) == r,
{
    lemma_eq_pos_none(trim_ws(line));
    lemma_no_eq_no_match(trim_ws(line));
}

/// A line whose key is not well-known and whose value is empty is ignored:
/// nothing is inserted into the overflow mapping.
pub proof fn lemma_empty_value_ignored(r: RecordView, line: Seq<char>, p: int)
    requires
        matched_key(trim_ws(line)) is None,
        eq_pos(trim_ws(line)) == Some(p),
        p + 1 >= trim_ws(line).len(),
    ensures
        apply_line(r, line) == r,
{
}

/// A line with an unknown key adds exactly its pair to the overflow mapping
/// and leaves every well-known field unchanged.
pub proof fn lemma_unknown_key_goes_to_overflow(
    r: RecordView,
    line: Seq<char>,
    k: Seq<char>,
    v: Seq<char>,
)
    requires
        matched_key(trim_ws(line)) is None,
        overflow_pair(trim_ws(line)) == Some((k, v)),
    ensures
        apply_line(r, line).extra == r.extra.insert(k, v),
        forall|j: int|
            0 <= j < key_count() ==> field_value(apply_line(r, line), j) == field_value(r, j),
{
}

/// A line recognized under a well-known prefix sets that field to its
/// extracted value, and the last such line in sequence order wins: when no
/// later line is recognized under prefix `j`, the field of `j` holds the
/// value extracted from line `i`.
pub proof fn lemma_last_assignment_wins(lines: Seq<Seq<char>>, i: int, j: int)
    requires
        0 <= j < key_count(),
        0 <= i < lines.len(),
        matched_key(trim_ws(lines[i])) == Some(j),
        forall|i2: int|
            i < i2 < lines.len() ==> matched_key(trim_ws(#[trigger] lines[i2])) != Some(j),
    ensures
        field_value(build_record(lines), j) == extract_value(
            trim_ws(lines[i]),
            key_at(j).len() as int,
        ),
    decreases lines.len(),
{
    let last = lines.last();
    let t = trim_ws(last);
    let prev = build_record(lines.drop_last());
    if i == lines.len() - 1 {
        assert(field_value(
            set_field(prev, j, extract_value(t, key_at(j).len() as int)),
            j,
        ) == extract_value(t, key_at(j).len() as int));
    } else {
        assert forall|i2: int|
            i < i2 < lines.drop_last().len() implies matched_key(
            trim_ws(#[trigger] lines.drop_last()[i2]),
        ) != Some(j) by {
            assert(lines.drop_last()[i2] == lines[i2]);
        }
        assert(lines.drop_last()[i] == lines[i]);
        lemma_last_assignment_wins(lines.drop_last(), i, j);
        match matched_key(t) {
            Some(j2) => {
                assert(j2 != j);
                assert(field_value(
                    set_field(prev, j2, extract_value(t, key_at(j2).len() as int)),
                    j,
                ) == field_value(prev, j));
            },
            None => {},
        }
    }
}

/// A line recognized under a well-known prefix exactly once sets that field
/// to its extracted value: surrounding whitespace removed, one layer of
/// matching quotes stripped.
pub proof fn lemma_single_assignment_sets_field(lines: Seq<Seq<char>>, i: int, j: int)
    requires
        0 <= j < key_count(),
        0 <= i < lines.len(),
        matched_key(trim_ws(lines[i])) == Some(j),
        forall|i2: int|
            0 <= i2 < lines.len() && i2 != i ==> matched_key(trim_ws(#[trigger] lines[i2]))
                != Some(j),
    ensures
        field_value(build_record(lines), j) == extract_value(
            trim_ws(lines[i]),
            key_at(j).len() as int,
        ),
{
    lemma_last_assignment_wins(lines, i, j);
}

/// A well-known field that no line is recognized under stays empty.
pub proof fn lemma_unmatched_field_empty(lines: Seq<Seq<char>>, j: int)
    requires
        0 <= j < key_count(),
        forall|i: int|
            0 <= i < lines.len() ==> matched_key(trim_ws(#[trigger] lines[i])) != Some(j),
    ensures
        field_value(build_record(lines), j) == Seq::<char>::empty(),
    decreases lines.len(),
{
    if lines.len() > 0 {
        let t = trim_ws(lines.last());
        let prev = build_record(lines.drop_last());
        assert forall|i2: int|
            0 <= i2 < lines.drop_last().len() implies matched_key(
            trim_ws(#[trigger] lines.drop_last()[i2]),
        ) != Some(j) by {
            assert(lines.drop_last()[i2] == lines[i2]);
        }
        lemma_unmatched_field_empty(lines.drop_last(), j);
        match matched_key(t) {
            Some(j2) => {
                assert(j2 != j);
                assert(field_value(
                    set_field(prev, j2, extract_value(t, key_at(j2).len() as int)),
                    j,
                ) == field_value(prev, j));
            },
            None => {},
        }
    }
}

/// Whether a line contributes an overflow entry under key `k`.
pub open spec fn overflow_sets(line: Seq<char>, k: Seq<char>) -> bool {
    &&& matched_key(trim_ws(line)) is None
    &&& match overflow_pair(trim_ws(line)) {
        Some(kv) => kv.0 == k,
        None => false,
    }
}

/// Duplicate overflow keys: the last assignment in sequence order wins.
pub proof fn lemma_overflow_last_wins(lines: Seq<Seq<char>>, i: int, k: Seq<char>, v: Seq<char>)
    requires
        0 <= i < lines.len(),
        matched_key(trim_ws(lines[i])) is None,
        overflow_pair(trim_ws(lines[i])) == Some((k, v)),
        forall|i2: int| i < i2 < lines.len() ==> !overflow_sets(#[trigger] lines[i2], k),
    ensures
        build_record(lines).extra.contains_key(k),
        build_record(lines).extra[k] == v,
    decreases lines.len(),
{
    let last = lines.last();
    let t = trim_ws(last);
    if i == lines.len() - 1 {
    } else {
        assert forall|i2: int|
            i < i2 < lines.drop_last().len() implies !overflow_sets(
            #[trigger] lines.drop_last()[i2],
            k,
        ) by {
            assert(lines.drop_last()[i2] == lines[i2]);
        }
        assert(lines.drop_last()[i] == lines[i]);
        lemma_overflow_last_wins(lines.drop_last(), i, k, v);
        if matched_key(t) is None {
            match overflow_pair(t) {
                Some(kv) => {
                    assert(!overflow_sets(last, k));
                    assert(kv.0 != k);
                },
                None => {},
            }
        }
    }
}

/// The line that re-emits the value `v` under prefix `j`: `KEY="v"`.
pub open spec fn quoted(v: Seq<char>) -> Seq<char> {
    seq!['"'] + v + seq!['"']
}

/// The re-serialization of the well-known fields of `w`, one `KEY="value"`
/// line per field, in prefix order.
pub open spec fn field_lines(w: RecordView) -> Seq<Seq<char>> {
    Seq::new(key_count() as nat, |j: int| key_at(j) + quoted(field_value(w, j)))
}

/// The re-serialization of an overflow list, one `key=value` line per entry.
pub open spec fn extra_lines(ps: Seq<(Seq<char>, Seq<char>)>) -> Seq<Seq<char>> {
    ps.map_values(|kv: (Seq<char>, Seq<char>)| joined(kv.0, kv.1))
}

/// The conceptual re-serialization of a record: every well-known field as
/// `KEY="value"`, then every overflow entry as `key=value`.
pub open spec fn reserialize(os: OsRelease) -> Seq<Seq<char>> {
    field_lines(os@) + extra_lines(pairs_view(os.extra@))
}

/// Applying a re-emitted field line sets exactly that field back.
proof fn lemma_apply_field_line(r: RecordView, j: int, v: Seq<char>)
    requires
        0 <= j < key_count(),
    ensures
        apply_line(r, key_at(j) + quoted(v)) == set_field(r, j, v),
{
    let l = key_at(j) + quoted(v);
    lemma_key_shape(j);
    assert(l[0] == key_at(j)[0]);
    assert(l.last() == '"');
    lemma_trim_ws_noop(l);
    assert(is_prefix(key_at(j), l));
    lemma_matched_is(l, j);
    let q = l.subrange(key_at(j).len() as int, l.len() as int);
    assert(q =~= quoted(v));
    assert(quoted(v)[0] == '"');
    assert(quoted(v).last() == '"');
    lemma_trim_ws_noop(quoted(v));
    assert(is_quoted(quoted(v)));
    assert(unquote(quoted(v)) =~= v);
}

/// Applying a re-emitted canonical overflow line inserts exactly that pair.
proof fn lemma_apply_extra_line(r: RecordView, k: Seq<char>, v: Seq<char>)
    requires
        canonical_pair(k, v),
    ensures
        apply_line(r, joined(k, v)) == (RecordView { extra: r.extra.insert(k, v), ..r }),
{
    let l = joined(k, v);
    assert(l.last() == v.last());
    if k.len() > 0 {
        assert(l[0] == k[0]);
    } else {
        assert(l[0] == '=');
    }
    lemma_trim_ws_noop(l);
    assert(l[k.len() as int] == '=');
    assert forall|m: int| 0 <= m < k.len() implies l[m] != '=' by {
        assert(l[m] == k[m]);
    }
    lemma_eq_pos_at(l, k.len() as int);
    assert(l.subrange(0, k.len() as int) =~= k);
    assert(l.subrange(k.len() as int + 1, l.len() as int) =~= v);
}

/// Folding a concatenation folds the two parts in turn.
proof fn lemma_build_from_app(r: RecordView, a: Seq<Seq<char>>, b: Seq<Seq<char>>)
    ensures
        build_from(r, a + b) == build_from(build_from(r, a), b),
    decreases b.len(),
{
    if b.len() == 0 {
        assert(a + b =~= a);
    } else {
        lemma_build_from_app(r, a, b.drop_last());
        assert((a + b).drop_last() =~= a + b.drop_last());
        assert((a + b).last() == b.last());
    }
}

/// Folding the first `n` re-emitted field lines of `w` over `r` restores
/// fields `0..n` of `w`, keeps the rest of `r`, and leaves the overflow
/// mapping alone.
proof fn lemma_build_field_lines(r: RecordView, w: RecordView, n: int)
    requires
        0 <= n <= key_count(),
    ensures
        forall|j: int|
            0 <= j < n ==> field_value(build_from(r, field_lines(w).take(n)), j) == field_value(
                w,
                j,
            ),
        forall|j: int|
            n <= j < key_count() ==> field_value(build_from(r, field_lines(w).take(n)), j)
                == field_value(r, j),
        build_from(r, field_lines(w).take(n)).extra == r.extra,
    decreases n,
{
    let s = field_lines(w).take(n);
    if n == 0 {
        assert(s =~= Seq::<Seq<char>>::empty());
    } else {
        lemma_build_field_lines(r, w, n - 1);
        assert(s.drop_last() =~= field_lines(w).take(n - 1));
        assert(s.last() == key_at(n - 1) + quoted(field_value(w, n - 1)));
        let prev = build_from(r, field_lines(w).take(n - 1));
        lemma_apply_field_line(prev, n - 1, field_value(w, n - 1));
    }
}

/// The overflow mapping after folding `ps` over a map `m`, in order.
pub open spec fn insert_all(
    m: Map<Seq<char>, Seq<char>>,
    ps: Seq<(Seq<char>, Seq<char>)>,
) -> Map<Seq<char>, Seq<char>>
    decreases ps.len(),
{
    if ps.len() == 0 {
        m
    } else {
        insert_all(m, ps.drop_last()).insert(ps.last().0, ps.last().1)
    }
}

/// Folding into the empty map is the association-list map.
proof fn lemma_insert_all_empty(ps: Seq<(Seq<char>, Seq<char>)>)
    ensures
        insert_all(Map::<Seq<char>, Seq<char>>::empty(), ps) == assoc_map(ps),
    decreases ps.len(),
{
    if ps.len() > 0 {
        lemma_insert_all_empty(ps.drop_last());
    }
}

/// Folding the re-emitted overflow lines inserts exactly the pairs, in
/// order, and leaves every well-known field alone.
proof fn lemma_build_extra_lines(r: RecordView, ps: Seq<(Seq<char>, Seq<char>)>)
    requires
        forall|m: int| 0 <= m < ps.len() ==> canonical_pair((#[trigger] ps[m]).0, ps[m].1),
    ensures
        forall|j: int|
            0 <= j < key_count() ==> field_value(build_from(r, extra_lines(ps)), j) == field_value(
                r,
                j,
            ),
        build_from(r, extra_lines(ps)).extra == insert_all(r.extra, ps),
    decreases ps.len(),
{
    let s = extra_lines(ps);
    if ps.len() == 0 {
        assert(s =~= Seq::<Seq<char>>::empty());
    } else {
        assert forall|m: int|
            0 <= m < ps.drop_last().len() implies canonical_pair(
            (#[trigger] ps.drop_last()[m]).0,
            ps.drop_last()[m].1,
        ) by {
            assert(ps.drop_last()[m] == ps[m]);
        }
        lemma_build_extra_lines(r, ps.drop_last());
        assert(s.drop_last() =~= extra_lines(ps.drop_last()));
        assert(s.last() == joined(ps.last().0, ps.last().1));
        let prev = build_from(r, extra_lines(ps.drop_last()));
        assert(canonical_pair(ps.last().0, ps.last().1));
        lemma_apply_extra_line(prev, ps.last().0, ps.last().1);
    }
}

/// Round-trip idempotence: feeding the conceptual re-serialization of a
/// well-formed record back through the parser reproduces the record.
pub proof fn lemma_round_trip(os: OsRelease)
    requires
        os.wf(),
    ensures
        build_record(reserialize(os)) == os@,
{
    let w = os@;
    let ps = pairs_view(os.extra@);
    let fl = field_lines(w);
    let el = extra_lines(ps);
    lemma_build_from_app(empty_record(), fl, el);
    assert(fl.take(key_count()) =~= fl);
    lemma_build_field_lines(empty_record(), w, key_count());
    let mid = build_from(empty_record(), fl);
    assert forall|m: int|
        0 <= m < ps.len() implies canonical_pair((#[trigger] ps[m]).0, ps[m].1) by {
        assert(extra_wf(ps));
    }
    lemma_build_extra_lines(mid, ps);
    lemma_insert_all_empty(ps);
    let out = build_from(mid, el);
    assert(mid.extra == Map::<Seq<char>, Seq<char>>::empty());
    assert(out.extra == w.extra);
    assert(field_value(out, 0) == field_value(w, 0));
    assert(field_value(out, 1) == field_value(w, 1));
    assert(field_value(out, 2) == field_value(w, 2));
    assert(field_value(out, 3) == field_value(w, 3));
    assert(field_value(out, 4) == field_value(w, 4));
    assert(field_value(out, 5) == field_value(w, 5));
    assert(field_value(out, 6) == field_value(w, 6));
    assert(field_value(out, 7) == field_value(w, 7));
    assert(field_value(out, 8) == field_value(w, 8));
    assert(field_value(out, 9) == field_value(w, 9));
    assert(field_value(out, 10) == field_value(w, 10));
    assert(field_value(out, 11) == field_value(w, 11));
    assert(field_value(out, 12) == field_value(w, 12));
    assert(field_value(out, 13) == field_value(w, 13));
    assert(field_value(out, 14) == field_value(w, 14));
    assert(out =~~= w);
}

} // verus!

use vstd::prelude::*;
use vstd::seq_lib::group_to_multiset_ensures;
use vstd::seq_lib::lemma_multiset_commutative;

use crate::record::{models_of, RecordModel, TypeSizeRecord};

verus! {

/// Lexicographic order on character sequences, by code point: `a` comes
/// no later than `b`.
pub open spec fn lex_le(a: Seq<char>, b: Seq<char>) -> bool
    decreases a.len(),
{
    if a.len() == 0 {
        true
    } else if b.len() == 0 {
        false
    } else if (a[0] as u32) < (b[0] as u32) {
        true
    } else if (a[0] as u32) > (b[0] as u32) {
        false
    } else {
        lex_le(a.drop_first(), b.drop_first())
    }
}

/// The report's total order: larger sizes first; among equal sizes,
/// names in lexicographic order.
pub open spec fn record_le(a: RecordModel, b: RecordModel) -> bool {
    a.size > b.size || (a.size == b.size && lex_le(a.name, b.name))
}

/// A sequence ordered by `record_le`.
pub open spec fn sorted(s: Seq<RecordModel>) -> bool {
    forall|i: int, j: int| 0 <= i < j < s.len() ==> record_le(#[trigger] s[i], #[trigger] s[j])
}

/// Any two names are comparable.
pub proof fn lemma_lex_le_total(a: Seq<char>, b: Seq<char>)
    ensures
        lex_le(a, b) || lex_le(b, a),
    decreases a.len(),
{
    if a.len() > 0 && b.len() > 0 && a[0] as u32 == b[0] as u32 {
        lemma_lex_le_total(a.drop_first(), b.drop_first());
    }
}

/// Any two records are comparable, so the sort order is total.
pub proof fn lemma_record_le_total(a: RecordModel, b: RecordModel)
    ensures
        record_le(a, b) || record_le(b, a),
{
    if a.size == b.size {
        lemma_lex_le_total(a.name, b.name);
    }
}

/// `x` placed into an ordered sequence, before the first element it
/// precedes or equals.
pub open spec fn insert_sorted(x: RecordModel, s: Seq<RecordModel>) -> Seq<RecordModel>
    decreases s.len(),
{
    if s.len() == 0 {
        seq![x]
    } else if record_le(x, s[0]) {
        seq![x] + s
    } else {
        seq![s[0]] + insert_sorted(x, s.drop_first())
    }
}

/// The records in sort order: size descending, names ascending among
/// equal sizes.
pub open spec fn sort_spec(s: Seq<RecordModel>) -> Seq<RecordModel>
    decreases s.len(),
{
    if s.len() == 0 {
        Seq::empty()
    } else {
        insert_sorted(s.last(), sort_spec(s.drop_last()))
    }
}

/// Every element of `insert_sorted(x, s)` is `x` or an element of `s`.
proof fn lemma_insert_sorted_elems(x: RecordModel, s: Seq<RecordModel>)
    ensures
        forall|k: int|
            0 <= k < insert_sorted(x, s).len() ==> #[trigger] insert_sorted(x, s)[k] == x
                || s.contains(insert_sorted(x, s)[k]),
    decreases s.len(),
{
    if s.len() == 0 {
    } else if record_le(x, s[0]) {
    } else {
        lemma_insert_sorted_elems(x, s.drop_first());
        assert forall|k: int| 0 <= k < insert_sorted(x, s).len() implies #[trigger] insert_sorted(
            x,
            s,
        )[k] == x || s.contains(insert_sorted(x, s)[k]) by {
            if k == 0 {
                assert(s.contains(s[0]));
            } else {
                let t = insert_sorted(x, s.drop_first());
                let e = t[k - 1];
                assert(insert_sorted(x, s)[k] == e);
                if e != x {
                    let m = choose|m: int|
                        0 <= m < s.drop_first().len() && s.drop_first()[m] == e;
                    assert(s[m + 1] == e);
                }
            }
        }
    }
}

/// Inserting into an ordered sequence keeps it ordered.
proof fn lemma_insert_sorted_keeps_sorted(x: RecordModel, s: Seq<RecordModel>)
    requires
        sorted(s),
    ensures
        sorted(insert_sorted(x, s)),
    decreases s.len(),
{
    if s.len() == 0 {
    } else if record_le(x, s[0]) {
        let r = seq![x] + s;
        assert forall|i: int, j: int| 0 <= i < j < r.len() implies record_le(r[i], r[j]) by {
            if i == 0 {
                if j == 1 {
                    assert(r[j] == s[0]);
                } else {
                    assert(record_le(s[0], s[j - 1]));
                    lemma_record_le_trans(x, s[0], s[j - 1]);
                }
            } else {
                assert(r[i] == s[i - 1] && r[j] == s[j - 1]);
            }
        }
    } else {
        lemma_record_le_total(x, s[0]);
        assert(sorted(s.drop_first())) by {
            assert forall|i: int, j: int|
                0 <= i < j < s.drop_first().len() implies record_le(
                #[trigger] s.drop_first()[i],
                #[trigger] s.drop_first()[j],
            ) by {
                assert(record_le(s[i + 1], s[j + 1]));
            }
        }
        lemma_insert_sorted_keeps_sorted(x, s.drop_first());
        lemma_insert_sorted_elems(x, s.drop_first());
        let t = insert_sorted(x, s.drop_first());
        let r = seq![s[0]] + t;
        assert forall|i: int, j: int| 0 <= i < j < r.len() implies record_le(r[i], r[j]) by {
            if i == 0 {
                assert(r[j] == t[j - 1]);
                if t[j - 1] == x {
                } else {
                    let m = choose|m: int|
                        0 <= m < s.drop_first().len() && s.drop_first()[m] == t[j - 1];
                    assert(record_le(s[0], s[m + 1]));
                }
            } else {
                assert(r[i] == t[i - 1] && r[j] == t[j - 1]);
            }
        }
    }
}

/// The order is transitive.
pub proof fn lemma_lex_le_trans(a: Seq<char>, b: Seq<char>, c: Seq<char>)
    requires
        lex_le(a, b),
        lex_le(b, c),
    ensures
        lex_le(a, c),
    decreases a.len(),
{
    if a.len() > 0 && b.len() > 0 && c.len() > 0 && a[0] as u32 == b[0] as u32 && b[0] as u32 == c[
        0
    ] as u32 {
        lemma_lex_le_trans(a.drop_first(), b.drop_first(), c.drop_first());
    }
}

/// The record order is transitive.
pub proof fn lemma_record_le_trans(a: RecordModel, b: RecordModel, c: RecordModel)
    requires
        record_le(a, b),
        record_le(b, c),
    ensures
        record_le(a, c),
{
    if a.size == b.size && b.size == c.size {
        lemma_lex_le_trans(a.name, b.name, c.name);
    }
}

/// Sorting yields an ordered sequence.
pub proof fn lemma_sort_spec_sorted(s: Seq<RecordModel>)
    ensures
        sorted(sort_spec(s)),
    decreases s.len(),
{
    if s.len() > 0 {
        lemma_sort_spec_sorted(s.drop_last());
        lemma_insert_sorted_keeps_sorted(s.last(), sort_spec(s.drop_last()));
    }
}

/// Inserting adds exactly the inserted record to the collection.
proof fn lemma_insert_sorted_multiset(x: RecordModel, s: Seq<RecordModel>)
    ensures
        insert_sorted(x, s).to_multiset() == s.to_multiset().insert(x),
    decreases s.len(),
{
    broadcast use group_to_multiset_ensures;

    if s.len() == 0 {
        assert(seq![x] =~= Seq::<RecordModel>::empty().push(x));
    } else if record_le(x, s[0]) {
        lemma_multiset_commutative(seq![x], s);
        assert(seq![x] =~= Seq::<RecordModel>::empty().push(x));
        assert((seq![x] + s).to_multiset() =~= s.to_multiset().insert(x));
    } else {
        lemma_insert_sorted_multiset(x, s.drop_first());
        lemma_multiset_commutative(seq![s[0]], insert_sorted(x, s.drop_first()));
        assert(seq![s[0]] =~= Seq::<RecordModel>::empty().push(s[0]));
        lemma_multiset_commutative(seq![s[0]], s.drop_first());
        assert(seq![s[0]] + s.drop_first() =~= s);
        assert(insert_sorted(x, s).to_multiset() =~= s.to_multiset().insert(x));
    }
}

/// Compares two names in the order `lex_le` describes.
pub fn lex_le_exec(a: &str, b: &str) -> (r: bool)
    ensures
        r == lex_le(a@, b@),
{
    let alen = a.unicode_len();
    let blen = b.unicode_len();
    let mut i: usize = 0;
    proof {
        assert(a@.skip(0) =~= a@);
        assert(b@.skip(0) =~= b@);
    }
    while i < alen && i < blen
        invariant
            i <= alen,
            i <= blen,
            alen == a@.len(),
            blen == b@.len(),
            lex_le(a@, b@) == lex_le(a@.skip(i as int), b@.skip(i as int)),
            lex_le(b@, a@) == lex_le(b@.skip(i as int), a@.skip(i as int)),
        decreases alen - i,
    {
        let ca = a.get_char(i) as u32;
        let cb = b.get_char(i) as u32;
        if ca < cb {
            return true;
        }
        if ca > cb {
            return false;
        }
        proof {
            assert(a@.skip(i as int).drop_first() =~= a@.skip(i + 1));
            assert(b@.skip(i as int).drop_first() =~= b@.skip(i + 1));
        }
        i = i + 1;
    }
    proof {
        if i >= alen {
            assert(a@.skip(i as int).len() == 0);
        } else {
            assert(b@.skip(i as int).len() == 0);
            assert(a@.skip(i as int).len() > 0);
        }
    }
    i >= alen
}

/// Compares two records in the report's order: larger size first, then
/// name.
pub fn record_le_exec(a: &TypeSizeRecord, b: &TypeSizeRecord) -> (r: bool)
    ensures
        r == record_le(a@, b@),
{
    if a.size > b.size {
        true
    } else if a.size == b.size {
        lex_le_exec(a.name.as_str(), b.name.as_str())
    } else {
        false
    }
}

/// `insert_sorted` splits the sequence at the first position whose
/// element the new record precedes or equals.
proof fn lemma_insert_sorted_at(x: RecordModel, s: Seq<RecordModel>, p: int)
    requires
        0 <= p <= s.len(),
        forall|k: int| 0 <= k < p ==> !record_le(x, #[trigger] s[k]),
        p < s.len() ==> record_le(x, s[p]),
    ensures
        insert_sorted(x, s) == s.insert(p, x),
    decreases s.len(),
{
    if p == 0 {
        if s.len() == 0 {
            assert(insert_sorted(x, s) =~= s.insert(0, x));
        } else {
            assert(seq![x] + s =~= s.insert(0, x));
        }
    } else {
        assert(!record_le(x, s[0]));
        assert forall|k: int| 0 <= k < p - 1 implies !record_le(
            x,
            #[trigger] s.drop_first()[k],
        ) by {
            assert(s.drop_first()[k] == s[k + 1]);
        }
        lemma_insert_sorted_at(x, s.drop_first(), p - 1);
        assert(seq![s[0]] + s.drop_first().insert(p - 1, x) =~= s.insert(p, x));
    }
}

/// Places one record into an already ordered vector, keeping the order.
fn insert_record(v: &mut Vec<TypeSizeRecord>, x: TypeSizeRecord)
    ensures
        models_of(final(v)@) == insert_sorted(x@, models_of(old(v)@)),
{
    let ghost ms = models_of(v@);
    let mut p: usize = 0;
    loop
        invariant
            p <= v@.len(),
            ms == models_of(v@),
            forall|k: int| 0 <= k < p ==> !record_le(x@, #[trigger] ms[k]),
        ensures
            p <= v@.len(),
            ms == models_of(v@),
            forall|k: int| 0 <= k < p ==> !record_le(x@, #[trigger] ms[k]),
            p < ms.len() ==> record_le(x@, ms[p as int]),
        decreases v@.len() - p,
    {
        if p >= v.len() {
            break ;
        }
        if record_le_exec(&x, &v[p]) {
            break ;
        }
        p = p + 1;
    }
    proof {
        lemma_insert_sorted_at(x@, ms, p as int);
    }
    v.insert(p, x);
    proof {
        assert(models_of(v@) =~= ms.insert(p as int, x@));
    }
}

/// Sorts the records: size descending, names ascending among equal
/// sizes.
pub fn sort_records(records: Vec<TypeSizeRecord>) -> (r: Vec<TypeSizeRecord>)
    ensures
        models_of(r@) == sort_spec(models_of(records@)),
{
    let ghost all = models_of(records@);
    let mut rest = records;
    let mut out: Vec<TypeSizeRecord> = Vec::new();
    while rest.len() > 0
        invariant
            rest@.len() <= all.len(),
            models_of(rest@) == all.skip(all.len() - rest@.len()),
            models_of(out@) == sort_spec(all.take(all.len() - rest@.len())),
        decreases rest@.len(),
    {
        let ghost done = all.len() - rest@.len();
        let ghost prev = rest@;
        let x = rest.remove(0);
        proof {
            assert forall|k: int| 0 <= k < rest@.len() implies #[trigger] models_of(rest@)[k]
                == all.skip(done + 1)[k] by {
                assert(rest@[k] == prev[k + 1]);
                assert(models_of(prev)[k + 1] == prev[k + 1]@);
            }
            assert(models_of(rest@) =~= all.skip(done + 1));
            assert(models_of(prev)[0] == prev[0]@);
            assert(x@ == all[done]);
            assert(all.take(done + 1).drop_last() =~= all.take(done));
            assert(all.take(done + 1).last() == all[done]);
        }
        insert_record(&mut out, x);
    }
    proof {
        assert(all.take(all.len() as int) =~= all);
    }
    out
}

/// Sorting permutes the records: none is added, none is lost.
pub proof fn lemma_sort_spec_permutes(s: Seq<RecordModel>)
    ensures
        sort_spec(s).to_multiset() == s.to_multiset(),
    decreases s.len(),
{
    broadcast use group_to_multiset_ensures;

    if s.len() > 0 {
        lemma_sort_spec_permutes(s.drop_last());
        lemma_insert_sorted_multiset(s.last(), sort_spec(s.drop_last()));
        assert(s.drop_last().push(s.last()) =~= s);
    }
}

/// Characters with the same code point are the same character.
proof fn lemma_char_code_injective(a: char, b: char)
    requires
        a as u32 == b as u32,
    ensures
        a == b,
{
}

/// The order is antisymmetric: names that precede each other are equal.
pub proof fn lemma_lex_le_antisymm(a: Seq<char>, b: Seq<char>)
    requires
        lex_le(a, b),
        lex_le(b, a),
    ensures
        a == b,
    decreases a.len(),
{
    if a.len() == 0 {
        assert(b.len() == 0);
        assert(a =~= b);
    } else {
        assert(b.len() > 0);
        assert(a[0] as u32 == b[0] as u32) by {
            if (a[0] as u32) < (b[0] as u32) {
                assert(!lex_le(b, a));
            }
            if (a[0] as u32) > (b[0] as u32) {
                assert(!lex_le(a, b));
            }
        }
        lemma_char_code_injective(a[0], b[0]);
        assert(a[0] == b[0]);
        lemma_lex_le_antisymm(a.drop_first(), b.drop_first());
        assert(a.len() == b.len());
        assert forall|i: int| 0 <= i < a.len() implies a[i] == b[i] by {
            if i > 0 {
                assert(a.drop_first()[i - 1] == b.drop_first()[i - 1]);
            }
        }
        assert(a =~= b);
    }
}

/// The record order is antisymmetric: records that precede each other
/// agree on name and size.
pub proof fn lemma_record_le_antisymm(a: RecordModel, b: RecordModel)
    requires
        record_le(a, b),
        record_le(b, a),
    ensures
        a == b,
{
    assert(a.size == b.size);
    lemma_lex_le_antisymm(a.name, b.name);
}

/// The sequence with each run of adjacent equal records collapsed to
/// one.
pub open spec fn dedup_spec(s: Seq<RecordModel>) -> Seq<RecordModel>
    decreases s.len(),
{
    if s.len() <= 1 {
        s
    } else if s[s.len() - 2] == s.last() {
        dedup_spec(s.drop_last())
    } else {
        dedup_spec(s.drop_last()).push(s.last())
    }
}

/// Collapsing keeps the last record, and empties nothing that was not
/// empty.
pub proof fn lemma_dedup_last(s: Seq<RecordModel>)
    requires
        s.len() > 0,
    ensures
        dedup_spec(s).len() > 0,
        dedup_spec(s).last() == s.last(),
    decreases s.len(),
{
    if s.len() > 1 && s[s.len() - 2] == s.last() {
        lemma_dedup_last(s.drop_last());
    }
}

/// After collapsing, no two adjacent records are equal.
pub proof fn lemma_dedup_no_adjacent(s: Seq<RecordModel>)
    ensures
        forall|i: int|
            0 <= i < dedup_spec(s).len() - 1 ==> #[trigger] dedup_spec(s)[i] != dedup_spec(s)[i
                + 1],
    decreases s.len(),
{
    if s.len() <= 1 {
    } else if s[s.len() - 2] == s.last() {
        lemma_dedup_no_adjacent(s.drop_last());
    } else {
        lemma_dedup_no_adjacent(s.drop_last());
        lemma_dedup_last(s.drop_last());
        let d = dedup_spec(s.drop_last());
        assert forall|i: int| 0 <= i < dedup_spec(s).len() - 1 implies #[trigger] dedup_spec(s)[i]
            != dedup_spec(s)[i + 1] by {
            if i < d.len() - 1 {
                assert(dedup_spec(s)[i] == d[i] && dedup_spec(s)[i + 1] == d[i + 1]);
            } else {
                assert(dedup_spec(s)[i] == d.last() && dedup_spec(s)[i + 1] == s.last());
                assert(d.last() == s[s.len() - 2]);
            }
        }
    }
}

/// Collapsing invents no record: everything kept was there.
proof fn lemma_dedup_elems(s: Seq<RecordModel>)
    ensures
        forall|k: int| 0 <= k < dedup_spec(s).len() ==> s.contains(#[trigger] dedup_spec(s)[k]),
    decreases s.len(),
{
    if s.len() <= 1 {
        assert forall|k: int| 0 <= k < dedup_spec(s).len() implies s.contains(
            #[trigger] dedup_spec(s)[k],
        ) by {
            assert(s[k] == dedup_spec(s)[k]);
        }
    } else {
        lemma_dedup_elems(s.drop_last());
        assert forall|k: int| 0 <= k < dedup_spec(s).len() implies s.contains(
            #[trigger] dedup_spec(s)[k],
        ) by {
            let e = dedup_spec(s)[k];
            if s[s.len() - 2] == s.last() || k < dedup_spec(s.drop_last()).len() {
                assert(s.drop_last().contains(e));
                let m = choose|m: int| 0 <= m < s.drop_last().len() && s.drop_last()[m] == e;
                assert(s[m] == e);
            } else {
                assert(e == s.last());
            }
        }
    }
}

/// Collapsing keeps the records in the order they stood in.
pub proof fn lemma_dedup_keeps_sorted(s: Seq<RecordModel>)
    requires
        sorted(s),
    ensures
        sorted(dedup_spec(s)),
    decreases s.len(),
{
    if s.len() <= 1 {
    } else {
        assert(sorted(s.drop_last())) by {
            assert forall|i: int, j: int|
                0 <= i < j < s.drop_last().len() implies record_le(
                #[trigger] s.drop_last()[i],
                #[trigger] s.drop_last()[j],
            ) by {
                assert(record_le(s[i], s[j]));
            }
        }
        lemma_dedup_keeps_sorted(s.drop_last());
        if s[s.len() - 2] == s.last() {
        } else {
            lemma_dedup_elems(s.drop_last());
            let d = dedup_spec(s.drop_last());
            let r = d.push(s.last());
            assert forall|i: int, j: int| 0 <= i < j < r.len() implies record_le(r[i], r[j]) by {
                if j < d.len() {
                    assert(r[i] == d[i] && r[j] == d[j]);
                    assert(record_le(d[i], d[j]));
                } else {
                    assert(r[j] == s.last());
                    assert(r[i] == d[i]);
                    assert(s.drop_last().contains(d[i]));
                    let m = choose|m: int|
                        0 <= m < s.drop_last().len() && s.drop_last()[m] == d[i];
                    assert(record_le(s[m], s[s.len() - 1]));
                }
            }
        }
    }
}

/// A sequence without adjacent equal records is left unchanged.
pub proof fn lemma_dedup_of_distinct(s: Seq<RecordModel>)
    requires
        forall|i: int| 0 <= i < s.len() - 1 ==> #[trigger] s[i] != s[i + 1],
    ensures
        dedup_spec(s) == s,
    decreases s.len(),
{
    if s.len() <= 1 {
    } else {
        assert(s[s.len() - 2] != s[s.len() - 1]);
        assert forall|i: int| 0 <= i < s.drop_last().len() - 1 implies #[trigger] s.drop_last()[i]
            != s.drop_last()[i + 1] by {
            assert(s[i] != s[i + 1]);
        }
        lemma_dedup_of_distinct(s.drop_last());
        assert(dedup_spec(s) =~= s);
    }
}

/// Collapsing adjacent duplicates is idempotent: done twice, it gives
/// what it gave once.
pub proof fn lemma_dedup_idempotent(s: Seq<RecordModel>)
    ensures
        dedup_spec(dedup_spec(s)) == dedup_spec(s),
{
    lemma_dedup_no_adjacent(s);
    lemma_dedup_of_distinct(dedup_spec(s));
}

/// Collapses each run of adjacent equal records to a single record.
pub fn dedup_records(records: Vec<TypeSizeRecord>) -> (r: Vec<TypeSizeRecord>)
    ensures
        models_of(r@) == dedup_spec(models_of(records@)),
{
    let ghost all = models_of(records@);
    let mut rest = records;
    let mut out: Vec<TypeSizeRecord> = Vec::new();
    while rest.len() > 0
        invariant
            rest@.len() <= all.len(),
            models_of(rest@) == all.skip(all.len() - rest@.len()),
            models_of(out@) == dedup_spec(all.take(all.len() - rest@.len())),
        decreases rest@.len(),
    {
        let ghost done = all.len() - rest@.len();
        let ghost prev = rest@;
        let x = rest.remove(0);
        proof {
            assert forall|k: int| 0 <= k < rest@.len() implies #[trigger] models_of(rest@)[k]
                == all.skip(done + 1)[k] by {
                assert(rest@[k] == prev[k + 1]);
                assert(models_of(prev)[k + 1] == prev[k + 1]@);
            }
            assert(models_of(rest@) =~= all.skip(done + 1));
            assert(models_of(prev)[0] == prev[0]@);
            assert(x@ == all[done]);
            assert(all.take(done + 1).drop_last() =~= all.take(done));
            assert(all.take(done + 1).last() == all[done]);
        }
        let ghost out_before = out@;
        if out.len() == 0 {
            proof {
                if done > 0 {
                    lemma_dedup_last(all.take(done as int));
                }
                assert(done == 0);
                assert(all.take(1) =~= Seq::<RecordModel>::empty().push(all[0]));
            }
            out.push(x);
            proof {
                assert(models_of(out@) =~= models_of(out_before).push(x@));
            }
        } else {
            proof {
                lemma_dedup_last(all.take(done as int));
            }
            let dup = out[out.len() - 1].same_as(&x);
            if !dup {
                out.push(x);
                proof {
                    assert(models_of(out@) =~= models_of(out_before).push(x@));
                }
            } else {
                proof {
                    assert(models_of(out_before)[out_before.len() - 1] == out_before[out_before.len()
                        - 1]@);
                    assert(all.take(done + 1)[done - 1] == all.take(done as int).last());
                }
            }
        }
    }
    proof {
        assert(all.take(all.len() as int) =~= all);
    }
    out
}

} // verus!

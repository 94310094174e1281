use vstd::prelude::*;

use crate::digits::{decimal_of, decimal_string};
use crate::order::{
    dedup_records, dedup_spec, lemma_dedup_keeps_sorted, lemma_dedup_no_adjacent,
    lemma_record_le_antisymm, lemma_sort_spec_sorted, record_le, sort_records, sort_spec, sorted,
};
use crate::parser::{parse_lines, spec_parsed_records};
use crate::record::{models_of, RecordModel, TypeSizeRecord};

verus! {

/// The full report of a build's output: the records of the recognized
/// lines, in sort order, with exact duplicates collapsed.
pub open spec fn generate_report(lines: Seq<Seq<char>>) -> Seq<RecordModel> {
    dedup_spec(sort_spec(spec_parsed_records(lines)))
}

/// Extracts the type-size records from the captured build output, one
/// candidate per line, sorted by size descending then name ascending,
/// with exact duplicates collapsed.
pub fn parse_output(lines: &Vec<String>) -> (r: Vec<TypeSizeRecord>)
    ensures
        models_of(r@) == generate_report(lines@.map_values(|l: String| l@)),
{
    let parsed = parse_lines(lines);
    let in_order = sort_records(parsed);
    dedup_records(in_order)
}

/// After generation the records are a set with respect to name and
/// size, held in the report's order: no two records of the report agree
/// on both.
pub proof fn lemma_report_is_ordered_set(lines: Seq<Seq<char>>)
    ensures
        sorted(generate_report(lines)),
        forall|i: int, j: int|
            0 <= i < j < generate_report(lines).len() ==> generate_report(lines)[i]
                != generate_report(lines)[j],
{
    let p = sort_spec(spec_parsed_records(lines));
    lemma_sort_spec_sorted(spec_parsed_records(lines));
    lemma_dedup_keeps_sorted(p);
    lemma_dedup_no_adjacent(p);
    let d = dedup_spec(p);
    assert forall|i: int, j: int| 0 <= i < j < d.len() implies d[i] != d[j] by {
        if d[i] == d[j] {
            assert(record_le(d[i], d[i + 1]));
            if i + 1 < j {
                assert(record_le(d[i + 1], d[j]));
            } else {
                crate::order::lemma_record_le_total(d[i + 1], d[j]);
            }
            lemma_record_le_antisymm(d[i], d[i + 1]);
            assert(false);
        }
    }
}

/// One line of the listing: the name, a tab, the size, a newline.
pub open spec fn line_of(r: RecordModel) -> Seq<char> {
    r.name + seq!['\t'] + decimal_of(r.size) + seq!['\n']
}

/// The listing of the records, one line each, in the given order.
pub open spec fn listing_of(rs: Seq<RecordModel>) -> Seq<char>
    decreases rs.len(),
{
    if rs.len() == 0 {
        Seq::empty()
    } else {
        listing_of(rs.drop_last()) + line_of(rs.last())
    }
}

/// Renders the listing: for each record, in order, its name and size
/// separated by a tab, one record per line.
pub fn render_listing(records: &Vec<TypeSizeRecord>) -> (s: String)
    ensures
        s@ == listing_of(models_of(records@)),
{
    let ghost ms = models_of(records@);
    let mut out = String::new();
    let mut i: usize = 0;
    proof {
        assert(ms.take(0) =~= Seq::<RecordModel>::empty());
    }
    while i < records.len()
        invariant
            i <= records@.len(),
            ms == models_of(records@),
            out@ == listing_of(ms.take(i as int)),
        decreases records@.len() - i,
    {
        let r = &records[i];
        out.append(r.name.as_str());
        out.append("\t");
        let d = decimal_string(r.size);
        out.append(d.as_str());
        out.append("\n");
        proof {
            reveal_strlit("\t");
            reveal_strlit("\n");
            assert(ms.take(i + 1).drop_last() =~= ms.take(i as int));
            assert(ms.take(i + 1).last() == ms[i as int]);
            assert(ms[i as int] == records@[i as int]@);
            assert(out@ =~= listing_of(ms.take(i as int)) + line_of(ms[i as int]));
        }
        i = i + 1;
    }
    proof {
        assert(ms.take(records@.len() as int) =~= ms);
    }
    out
}

/// The error of threshold mode: the first record, in report order, at
/// least as large as the configured maximum.
pub struct TypeTooLargeError {
    pub t: TypeSizeRecord,
    pub max_size: usize,
}

/// The message the error carries: the offending type's name, its size,
/// and the configured maximum.
pub open spec fn message_of(t: RecordModel, max_size: nat) -> Seq<char> {
    "Type `"@ + t.name + "` is "@ + decimal_of(t.size) + " bytes large, which is larger than "@
        + decimal_of(max_size) + " bytes.\n"@
}

impl TypeTooLargeError {
    /// Writes out the error, as `message_of` says.
    pub fn message(&self) -> (s: String)
        ensures
            s@ == message_of(self.t@, self.max_size as nat),
    {
        let mut s = String::from_str("Type `");
        s.append(self.t.name.as_str());
        s.append("` is ");
        let size_str = decimal_string(self.t.size);
        s.append(size_str.as_str());
        s.append(" bytes large, which is larger than ");
        let max_str = decimal_string(self.max_size);
        s.append(max_str.as_str());
        s.append(" bytes.\n");
        s
    }
}

/// The position of the first record whose size reaches the maximum, if
/// any record does.
pub open spec fn first_violation(s: Seq<RecordModel>, max_size: nat) -> Option<int>
    decreases s.len(),
{
    if s.len() == 0 {
        None
    } else if s[0].size >= max_size {
        Some(0)
    } else {
        match first_violation(s.drop_first(), max_size) {
            Some(i) => Some(i + 1),
            None => None,
        }
    }
}

/// When every record before `i` is under the maximum, the first
/// violation is at `i` if `i` is one, and nowhere if the records end.
proof fn lemma_first_violation_at(s: Seq<RecordModel>, max_size: nat, i: int)
    requires
        0 <= i <= s.len(),
        forall|j: int| 0 <= j < i ==> (#[trigger] s[j]).size < max_size,
        i < s.len() ==> s[i].size >= max_size,
    ensures
        first_violation(s, max_size) == if i < s.len() {
            Some(i)
        } else {
            None::<int>
        },
    decreases i,
{
    if i == 0 {
    } else {
        assert forall|j: int| 0 <= j < i - 1 implies (#[trigger] s.drop_first()[j]).size
            < max_size by {
            assert(s[j + 1].size < max_size);
        }
        lemma_first_violation_at(s.drop_first(), max_size, i - 1);
    }
}

/// Scans the records in order and fails on the first whose size is at
/// least `max_size`; succeeds, reporting nothing, when none reaches it.
pub fn check_max_size(records: Vec<TypeSizeRecord>, max_size: usize) -> (r: Result<
    (),
    TypeTooLargeError,
>)
    ensures
        match r {
            Ok(_) => first_violation(models_of(records@), max_size as nat) is None,
            Err(e) => {
                &&& first_violation(models_of(records@), max_size as nat) matches Some(i) && e.t@
                    == models_of(records@)[i]
                &&& e.max_size == max_size
            },
        },
{
    let ghost ms = models_of(records@);
    let mut recs = records;
    let mut i: usize = 0;
    while i < recs.len()
        invariant
            i <= recs@.len(),
            recs@ == records@,
            ms == models_of(records@),
            forall|j: int| 0 <= j < i ==> (#[trigger] ms[j]).size < max_size as nat,
        decreases recs@.len() - i,
    {
        proof {
            assert(ms[i as int] == recs@[i as int]@);
        }
        if recs[i].size >= max_size {
            proof {
                lemma_first_violation_at(ms, max_size as nat, i as int);
            }
            let t = recs.remove(i);
            return Err(TypeTooLargeError { t, max_size });
        }
        i = i + 1;
    }
    proof {
        lemma_first_violation_at(ms, max_size as nat, ms.len() as int);
    }
    Ok(())
}

} // verus!

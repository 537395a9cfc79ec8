//! The table: a vector of records kept in ascending order of hash, with one
//! record at most for each hash.

use vstd::prelude::*;

use crate::hash::{jenkins_hash, name_hash, push_record, record_text, HashRecord};

verus! {

// ---------------------------------------------------------------------------
// The model
// ---------------------------------------------------------------------------

/// The hashes never decrease along the table.
pub open spec fn sorted_by_hash(s: Seq<HashRecord>) -> bool {
    forall|i: int, j: int| 0 <= i <= j < s.len() ==> #[trigger] s[i].hash <= #[trigger] s[j].hash
}

/// No two records share a hash.
pub open spec fn unique_hashes(s: Seq<HashRecord>) -> bool {
    forall|i: int, j: int| 0 <= i < j < s.len() ==> #[trigger] s[i].hash != #[trigger] s[j].hash
}

/// The index of the first record with hash `h`, or the length of `s` if
/// there is none.
pub open spec fn find_hash(s: Seq<HashRecord>, h: u32) -> int
    decreases s.len(),
{
    if s.len() == 0 {
        0
    } else if s[0].hash == h {
        0
    } else {
        1 + find_hash(s.drop_first(), h)
    }
}

/// Some record of `s` has hash `h`.
pub open spec fn has_hash(s: Seq<HashRecord>, h: u32) -> bool {
    find_hash(s, h) < s.len()
}

/// The number of leading records whose hash is below `h`: where a record
/// with hash `h` goes in a table sorted by hash.
pub open spec fn lower_bound(s: Seq<HashRecord>, h: u32) -> int
    decreases s.len(),
{
    if s.len() == 0 {
        0
    } else if s[0].hash < h {
        1 + lower_bound(s.drop_first(), h)
    } else {
        0
    }
}

/// The table with `r` placed in hash order.
pub open spec fn inserted(s: Seq<HashRecord>, r: HashRecord) -> Seq<HashRecord> {
    s.insert(lower_bound(s, r.hash), r)
}

/// The first record with hash `h`, if any.
pub open spec fn lookup(s: Seq<HashRecord>, h: u32) -> Option<HashRecord> {
    if has_hash(s, h) {
        Some(s[find_hash(s, h)])
    } else {
        None
    }
}

/// The table without the first record with hash `h`.
pub open spec fn removed(s: Seq<HashRecord>, h: u32) -> Seq<HashRecord> {
    if has_hash(s, h) {
        s.remove(find_hash(s, h))
    } else {
        s
    }
}

/// `r` with its salary replaced.
pub open spec fn with_salary(r: HashRecord, salary: u32) -> HashRecord {
    HashRecord { hash: r.hash, name: r.name, salary: salary }
}

/// The table with the salary of the first record with hash `h` replaced.
pub open spec fn salary_updated(s: Seq<HashRecord>, h: u32, salary: u32) -> Seq<HashRecord> {
    if has_hash(s, h) {
        let i = find_hash(s, h);
        s.update(i, with_salary(s[i], salary))
    } else {
        s
    }
}

/// The lines of the records, each followed by a newline.
pub open spec fn records_text(s: Seq<HashRecord>) -> Seq<char>
    decreases s.len(),
{
    if s.len() == 0 {
        Seq::empty()
    } else {
        records_text(s.drop_last()) + record_text(s.last()) + seq!['\n']
    }
}

/// The text that prints the table.
pub open spec fn table_text(s: Seq<HashRecord>) -> Seq<char> {
    "Current Database:\n"@ + records_text(s)
}

// ---------------------------------------------------------------------------
// Lemmas on the model
// ---------------------------------------------------------------------------

/// What `find_hash` is: the first index holding `h`.
pub proof fn lemma_find_hash(s: Seq<HashRecord>, h: u32)
    ensures
        0 <= find_hash(s, h) <= s.len(),
        forall|j: int| 0 <= j < find_hash(s, h) ==> #[trigger] s[j].hash != h,
        find_hash(s, h) < s.len() ==> s[find_hash(s, h)].hash == h,
    decreases s.len(),
{
    if s.len() > 0 && s[0].hash != h {
        lemma_find_hash(s.drop_first(), h);
        assert forall|j: int| 0 <= j < find_hash(s, h) implies #[trigger] s[j].hash != h by {
            if j > 0 {
                assert(s[j] == s.drop_first()[j - 1]);
            }
        }
    }
}

/// What `lower_bound` is on a sorted table: everything before it is below
/// `h`, everything from it on is at least `h`.
pub proof fn lemma_lower_bound(s: Seq<HashRecord>, h: u32)
    requires
        sorted_by_hash(s),
    ensures
        0 <= lower_bound(s, h) <= s.len(),
        forall|j: int| 0 <= j < lower_bound(s, h) ==> #[trigger] s[j].hash < h,
        forall|j: int| lower_bound(s, h) <= j < s.len() ==> #[trigger] s[j].hash >= h,
    decreases s.len(),
{
    if s.len() > 0 && s[0].hash < h {
        let t = s.drop_first();
        assert(sorted_by_hash(t)) by {
            assert forall|i: int, j: int| 0 <= i <= j < t.len() implies #[trigger] t[i].hash
                <= #[trigger] t[j].hash by {
                assert(t[i] == s[i + 1] && t[j] == s[j + 1]);
            }
        }
        lemma_lower_bound(t, h);
        assert forall|j: int| 0 <= j < lower_bound(s, h) implies #[trigger] s[j].hash < h by {
            if j > 0 {
                assert(s[j] == t[j - 1]);
            }
        }
        assert forall|j: int| lower_bound(s, h) <= j < s.len() implies #[trigger] s[j].hash >= h by {
            assert(s[j] == t[j - 1]);
        }
    } else if s.len() > 0 {
        assert forall|j: int| 0 <= j < s.len() implies #[trigger] s[j].hash >= h by {
            assert(s[0].hash <= s[j].hash);
        }
    }
}

/// On a sorted table, `lower_bound` is the one index that splits the hashes
/// below `h` from the others.
proof fn lemma_lower_bound_unique(s: Seq<HashRecord>, h: u32, p: int)
    requires
        sorted_by_hash(s),
        0 <= p <= s.len(),
        forall|j: int| 0 <= j < p ==> #[trigger] s[j].hash < h,
        forall|j: int| p <= j < s.len() ==> #[trigger] s[j].hash >= h,
    ensures
        lower_bound(s, h) == p,
{
    lemma_lower_bound(s, h);
    let q = lower_bound(s, h);
    if q < p {
        assert(s[q].hash < h);
    } else if p < q {
        assert(s[p].hash < h);
    }
}

/// Placing a record at its `lower_bound` keeps a table sorted.
pub proof fn lemma_inserted_sorted(s: Seq<HashRecord>, r: HashRecord)
    requires
        sorted_by_hash(s),
    ensures
        sorted_by_hash(inserted(s, r)),
        inserted(s, r).len() == s.len() + 1,
{
    lemma_lower_bound(s, r.hash);
    let p = lower_bound(s, r.hash);
    let t = inserted(s, r);
    assert forall|i: int, j: int| 0 <= i <= j < t.len() implies #[trigger] t[i].hash
        <= #[trigger] t[j].hash by {
        if i < p && j < p {
            assert(t[i] == s[i] && t[j] == s[j]);
        } else if i < p && j == p {
            assert(t[i] == s[i]);
        } else if i < p {
            assert(t[i] == s[i] && t[j] == s[j - 1]);
        } else if i == p && j > p {
            assert(t[j] == s[j - 1]);
        } else if i > p {
            assert(t[i] == s[i - 1] && t[j] == s[j - 1]);
        }
    }
}

// ---------------------------------------------------------------------------
// Operations
// ---------------------------------------------------------------------------

/// The index of the first record with hash `hash`, or the length of the table.
fn position_of_hash(records: &Vec<HashRecord>, hash: u32) -> (p: usize)
    ensures
        p == find_hash(records@, hash),
{
    proof { lemma_find_hash(records@, hash); }
    let mut i: usize = 0;
    while i < records.len()
        invariant
            i <= records@.len(),
            forall|j: int| 0 <= j < i ==> #[trigger] records@[j].hash != hash,
            0 <= find_hash(records@, hash) <= records@.len(),
            forall|j: int| 0 <= j < find_hash(records@, hash) ==> #[trigger] records@[j].hash != hash,
            find_hash(records@, hash) < records@.len() ==> records@[find_hash(records@, hash)].hash == hash,
        decreases records@.len() - i,
    {
        if records[i].hash == hash {
            return i;
        }
        i = i + 1;
    }
    i
}

/// Where a record with hash `hash` goes in a sorted table (binary search).
/// On a table out of hash order the index is some index of the table or its
/// length, as `slice::partition_point` gives on a slice that is not
/// partitioned.
fn insertion_point(records: &Vec<HashRecord>, hash: u32) -> (p: usize)
    ensures
        p <= records@.len(),
        sorted_by_hash(records@) ==> p == lower_bound(records@, hash),
{
    let ghost sorted = sorted_by_hash(records@);
    let mut lo: usize = 0;
    let mut hi: usize = records.len();
    while lo < hi
        invariant
            sorted == sorted_by_hash(records@),
            lo <= hi <= records@.len(),
            sorted ==> forall|j: int| 0 <= j < lo ==> #[trigger] records@[j].hash < hash,
            sorted ==> forall|j: int| hi <= j < records@.len() ==> #[trigger] records@[j].hash
                >= hash,
        decreases hi - lo,
    {
        let mid = lo + (hi - lo) / 2;
        if records[mid].hash < hash {
            proof {
                if sorted {
                    assert forall|j: int| 0 <= j < mid + 1 implies #[trigger] records@[j].hash
                        < hash by {
                        assert(records@[j].hash <= records@[mid as int].hash);
                    }
                }
            }
            lo = mid + 1;
        } else {
            proof {
                if sorted {
                    assert forall|j: int| mid <= j < records@.len() implies #[trigger] records@[
                        j].hash >= hash by {
                        assert(records@[mid as int].hash <= records@[j].hash);
                    }
                }
            }
            hi = mid;
        }
    }
    proof {
        if sorted {
            lemma_lower_bound_unique(records@, hash, lo as int);
        }
    }
    lo
}

/// Inserts a record for `name` and `salary` in hash order.
///
/// Fails with the hash, leaving the table as it was, when a record with the
/// same hash is already there. On a table in hash order the record goes where
/// it keeps that order; on a table out of order it goes at some index.
pub fn table_insert(records: &mut Vec<HashRecord>, name: &str, salary: u32) -> (r: Result<
    HashRecord,
    u32,
>)
    ensures
        sorted_by_hash(old(records)@) ==> sorted_by_hash(final(records)@),
        unique_hashes(old(records)@) ==> unique_hashes(final(records)@),
        match r {
            Err(h) => {
                &&& h == name_hash(name@)
                &&& has_hash(old(records)@, h)
                &&& final(records)@ == old(records)@
            },
            Ok(rec) => {
                &&& !has_hash(old(records)@, name_hash(name@))
                &&& rec.hash == name_hash(name@)
                &&& rec.name@ == name@
                &&& rec.salary == salary
                &&& exists|p: int|
                    0 <= p <= old(records)@.len() && final(records)@ == old(records)@.insert(p, rec)
                &&& sorted_by_hash(old(records)@) ==> final(records)@ == inserted(
                    old(records)@,
                    rec,
                )
            },
        },
{
    let hash = jenkins_hash(name);
    let found = position_of_hash(records, hash);
    if found < records.len() {
        return Err(hash);
    }
    let record = HashRecord::new(name, salary);
    let pos = insertion_point(records, hash);
    let ghost before = records@;
    records.insert(pos, record.copy());
    proof {
        lemma_find_hash(before, hash);
        let after = records@;
        assert(after == before.insert(pos as int, record));
        if sorted_by_hash(before) {
            lemma_inserted_sorted(before, record);
            assert(after =~= inserted(before, record));
        }
        if unique_hashes(before) {
            assert forall|i: int, j: int| 0 <= i < j < after.len() implies #[trigger] after[i].hash
                != #[trigger] after[j].hash by {
                if i == pos {
                    assert(after[j] == before[j - 1]);
                } else if j == pos {
                    assert(after[i] == before[i]);
                } else if i < pos && j < pos {
                    assert(after[i] == before[i] && after[j] == before[j]);
                } else if i < pos {
                    assert(after[i] == before[i] && after[j] == before[j - 1]);
                } else {
                    assert(after[i] == before[i - 1] && after[j] == before[j - 1]);
                }
            }
        }
    }
    Ok(record)
}

/// Removing a record keeps a table sorted.
proof fn lemma_removed_sorted(s: Seq<HashRecord>, k: int)
    requires
        sorted_by_hash(s),
        0 <= k < s.len(),
    ensures
        sorted_by_hash(s.remove(k)),
{
    let t = s.remove(k);
    assert forall|i: int, j: int| 0 <= i <= j < t.len() implies #[trigger] t[i].hash
        <= #[trigger] t[j].hash by {
        let i2 = if i < k { i } else { i + 1 };
        let j2 = if j < k { j } else { j + 1 };
        assert(t[i] == s[i2] && t[j] == s[j2]);
    }
}

/// Removing a record keeps hashes unique.
proof fn lemma_removed_unique(s: Seq<HashRecord>, k: int)
    requires
        0 <= k < s.len(),
    ensures
        unique_hashes(s) ==> unique_hashes(s.remove(k)),
{
    let t = s.remove(k);
    if unique_hashes(s) {
        assert forall|i: int, j: int| 0 <= i < j < t.len() implies #[trigger] t[i].hash
            != #[trigger] t[j].hash by {
            let i2 = if i < k { i } else { i + 1 };
            let j2 = if j < k { j } else { j + 1 };
            assert(t[i] == s[i2] && t[j] == s[j2]);
        }
    }
}

/// Removes the record whose hash is that of `name`, and returns it.
///
/// Returns `None`, leaving the table as it was, when there is no such record.
pub fn table_delete(records: &mut Vec<HashRecord>, name: &str) -> (r: Option<HashRecord>)
    ensures
        r == lookup(old(records)@, name_hash(name@)),
        final(records)@ == removed(old(records)@, name_hash(name@)),
        sorted_by_hash(old(records)@) ==> sorted_by_hash(final(records)@),
        unique_hashes(old(records)@) ==> unique_hashes(final(records)@),
{
    let hash = jenkins_hash(name);
    let pos = position_of_hash(records, hash);
    if pos < records.len() {
        proof {
            if sorted_by_hash(records@) {
                lemma_removed_sorted(records@, pos as int);
            }
            lemma_removed_unique(records@, pos as int);
        }
        Some(records.remove(pos))
    } else {
        None
    }
}

/// Sets the salary of the record whose hash is that of `name`.
///
/// On success returns the hash with the record's text before and after the
/// change; returns `None`, leaving the table as it was, when there is no
/// such record.
pub fn table_update(records: &mut Vec<HashRecord>, name: &str, new_salary: u32) -> (r: Option<
    (u32, String, String),
>)
    ensures
        final(records)@ == salary_updated(old(records)@, name_hash(name@), new_salary),
        sorted_by_hash(old(records)@) ==> sorted_by_hash(final(records)@),
        unique_hashes(old(records)@) ==> unique_hashes(final(records)@),
        match lookup(old(records)@, name_hash(name@)) {
            Some(rec) => r matches Some((h, before, after)) && h == name_hash(name@)
                && before@ == record_text(rec) && after@ == record_text(
                with_salary(rec, new_salary),
            ),
            None => r is None,
        },
{
    let hash = jenkins_hash(name);
    let pos = position_of_hash(records, hash);
    if pos < records.len() {
        let ghost before = records@;
        let old_text = records[pos].to_string();
        let updated = HashRecord {
            hash: records[pos].hash,
            name: records[pos].name.clone(),
            salary: new_salary,
        };
        let new_text = updated.to_string();
        records.set(pos, updated);
        proof {
            lemma_find_hash(before, hash);
            assert(records@ =~= salary_updated(before, hash, new_salary));
            let t = records@;
            if sorted_by_hash(before) {
                assert forall|i: int, j: int| 0 <= i <= j < t.len() implies #[trigger] t[i].hash
                    <= #[trigger] t[j].hash by {
                    assert(t[i].hash == before[i].hash && t[j].hash == before[j].hash);
                }
            }
            if unique_hashes(before) {
                assert forall|i: int, j: int| 0 <= i < j < t.len() implies #[trigger] t[i].hash
                    != #[trigger] t[j].hash by {
                    assert(t[i].hash == before[i].hash && t[j].hash == before[j].hash);
                }
            }
        }
        Some((hash, old_text, new_text))
    } else {
        None
    }
}

/// A copy of the record whose hash is that of `name`, if there is one.
pub fn table_search(records: &Vec<HashRecord>, name: &str) -> (r: Option<HashRecord>)
    ensures
        r == lookup(records@, name_hash(name@)),
{
    let hash = jenkins_hash(name);
    let pos = position_of_hash(records, hash);
    if pos < records.len() {
        Some(records[pos].copy())
    } else {
        None
    }
}

/// The table as text: a header line, then one line per record in table order.
pub fn table_print(records: &Vec<HashRecord>) -> (out: String)
    ensures
        out@ == table_text(records@),
{
    let mut out = String::new();
    out.append("Current Database:\n");
    proof { reveal_strlit("Current Database:\n"); }
    let mut i: usize = 0;
    while i < records.len()
        invariant
            i <= records@.len(),
            out@ == "Current Database:\n"@ + records_text(records@.take(i as int)),
        decreases records@.len() - i,
    {
        let ghost prev = out@;
        push_record(&mut out, &records[i]);
        out.append("\n");
        proof {
            reveal_strlit("\n");
            let t = records@.take(i + 1);
            assert(t.drop_last() =~= records@.take(i as int));
            assert(t.last() == records@[i as int]);
            assert(out@ =~= "Current Database:\n"@ + records_text(t));
        }
        i = i + 1;
    }
    proof { assert(records@.take(i as int) =~= records@); }
    out
}

// ---------------------------------------------------------------------------
// Laws
// ---------------------------------------------------------------------------

/// The printed table is the header line, then one line per record, every
/// record in table order: no records print as nothing, one more record adds
/// its own text and a newline at the end.
pub proof fn law_print_one_line_per_record(s: Seq<HashRecord>, r: HashRecord)
    ensures
        records_text(Seq::<HashRecord>::empty()) == Seq::<char>::empty(),
        records_text(s.push(r)) == records_text(s) + record_text(r) + seq!['\n'],
        table_text(s) == "Current Database:\n"@ + records_text(s),
{
    assert(s.push(r).drop_last() =~= s);
}

/// Printing two tables one after the other gives the lines of both: the
/// printed records of `s + t` are those of `s` followed by those of `t`.
pub proof fn law_print_concatenates(s: Seq<HashRecord>, t: Seq<HashRecord>)
    ensures
        records_text(s + t) == records_text(s) + records_text(t),
    decreases t.len(),
{
    if t.len() == 0 {
        assert(s + t =~= s);
        assert(records_text(s) + records_text(t) =~= records_text(s));
    } else {
        let t0 = t.drop_last();
        law_print_concatenates(s, t0);
        law_print_one_line_per_record(s + t0, t.last());
        law_print_one_line_per_record(t0, t.last());
        assert((s + t0).push(t.last()) =~= s + t);
        assert(t0.push(t.last()) =~= t);
        assert(records_text(s) + records_text(t) =~= records_text(s) + records_text(t0)
            + record_text(t.last()) + seq!['\n']);
    }
}

/// A lookup only ever answers with a record that has the hash asked for,
/// and it answers whenever the table holds such a record.
pub proof fn law_lookup_matches_hash(s: Seq<HashRecord>, h: u32)
    ensures
        lookup(s, h) matches Some(r) ==> r.hash == h,
        lookup(s, h) is Some <==> exists|i: int| 0 <= i < s.len() && #[trigger] s[i].hash == h,
{
    lemma_find_hash(s, h);
    if exists|i: int| 0 <= i < s.len() && #[trigger] s[i].hash == h {
        let i = choose|i: int| 0 <= i < s.len() && #[trigger] s[i].hash == h;
        assert(find_hash(s, h) <= i);
    }
}

/// After a record is inserted into a sorted table that holds no record with
/// its hash, a search for that hash finds exactly that record.
pub proof fn law_insert_then_search(s: Seq<HashRecord>, r: HashRecord)
    requires
        sorted_by_hash(s),
        !has_hash(s, r.hash),
    ensures
        lookup(inserted(s, r), r.hash) == Some(r),
{
    lemma_lower_bound(s, r.hash);
    let p = lower_bound(s, r.hash);
    let t = inserted(s, r);
    lemma_find_hash(t, r.hash);
    let f = find_hash(t, r.hash);
    assert(t[p] == r);
    if f < p {
        assert(t[f] == s[f]);
    }
}

/// Inserting a record does not change what a search for any other hash finds.
pub proof fn law_insert_keeps_other_searches(s: Seq<HashRecord>, r: HashRecord, h: u32)
    requires
        sorted_by_hash(s),
        h != r.hash,
    ensures
        lookup(inserted(s, r), h) == lookup(s, h),
{
    lemma_lower_bound(s, r.hash);
    let p = lower_bound(s, r.hash);
    let t = inserted(s, r);
    lemma_find_hash(s, h);
    lemma_find_hash(t, h);
    let f = find_hash(s, h);
    let g = find_hash(t, h);
    let shifted = if f < p { f } else { f + 1 };
    if f < s.len() {
        assert(t[shifted] == s[f]);
        if g < shifted {
            if g < p {
                assert(t[g] == s[g]);
            } else if g > p {
                assert(t[g] == s[g - 1]);
            }
        }
        assert(g == shifted);
    } else {
        if g < t.len() {
            if g < p {
                assert(t[g] == s[g]);
            } else if g > p {
                assert(t[g] == s[g - 1]);
            }
        }
    }
}

/// Deleting a record that was just inserted gives back the table as it was.
pub proof fn law_insert_then_delete(s: Seq<HashRecord>, r: HashRecord)
    requires
        sorted_by_hash(s),
        !has_hash(s, r.hash),
    ensures
        removed(inserted(s, r), r.hash) == s,
{
    law_insert_then_search(s, r);
    lemma_lower_bound(s, r.hash);
    let t = inserted(s, r);
    lemma_find_hash(t, r.hash);
    let p = lower_bound(s, r.hash);
    assert(find_hash(t, r.hash) == p) by {
        let f = find_hash(t, r.hash);
        if f < p {
            assert(t[f] == s[f]);
        } else if f > p {
            assert(t[p].hash == r.hash);
        }
    }
    assert(t.remove(p) =~= s);
}

/// After a delete, a search for the same hash finds nothing, as long as the
/// table held one record at most for each hash.
pub proof fn law_delete_then_search(s: Seq<HashRecord>, h: u32)
    requires
        unique_hashes(s),
    ensures
        lookup(removed(s, h), h) is None,
{
    lemma_find_hash(s, h);
    let t = removed(s, h);
    lemma_find_hash(t, h);
    if has_hash(s, h) {
        let f = find_hash(s, h);
        let g = find_hash(t, h);
        if g < t.len() {
            let g2 = if g < f { g } else { g + 1 };
            assert(t[g] == s[g2]);
            if g2 < f {
            } else {
                assert(s[f].hash != s[g2].hash);
            }
        }
    }
}

/// Deleting a record does not change what a search for any other hash finds.
pub proof fn law_delete_keeps_other_searches(s: Seq<HashRecord>, h: u32, other: u32)
    requires
        h != other,
    ensures
        lookup(removed(s, h), other) == lookup(s, other),
{
    lemma_find_hash(s, h);
    lemma_find_hash(s, other);
    if has_hash(s, h) {
        let k = find_hash(s, h);
        let t = s.remove(k);
        lemma_find_hash(t, other);
        let f = find_hash(s, other);
        let g = find_hash(t, other);
        let shifted = if f < k { f } else { f - 1 };
        if f < s.len() {
            assert(f != k);
            assert(t[shifted] == s[f]);
            if g < shifted {
                let g2 = if g < k { g } else { g + 1 };
                assert(t[g] == s[g2]);
            }
            assert(g == shifted);
        } else if g < t.len() {
            let g2 = if g < k { g } else { g + 1 };
            assert(t[g] == s[g2]);
        }
    }
}

/// After an update, a search for the same hash finds the record with the new
/// salary and everything else as before.
pub proof fn law_update_then_search(s: Seq<HashRecord>, h: u32, salary: u32)
    ensures
        lookup(salary_updated(s, h, salary), h) == match lookup(s, h) {
            Some(r) => Some(with_salary(r, salary)),
            None => None::<HashRecord>,
        },
{
    lemma_find_hash(s, h);
    let t = salary_updated(s, h, salary);
    lemma_find_hash(t, h);
    if has_hash(s, h) {
        let f = find_hash(s, h);
        let g = find_hash(t, h);
        assert(t[f].hash == h);
        if g < f {
            assert(t[g] == s[g]);
        }
    } else {
        assert(t == s);
    }
}

/// An update does not change what a search for any other hash finds.
pub proof fn law_update_keeps_other_searches(s: Seq<HashRecord>, h: u32, salary: u32, other: u32)
    requires
        h != other,
    ensures
        lookup(salary_updated(s, h, salary), other) == lookup(s, other),
{
    lemma_find_hash(s, h);
    lemma_find_hash(s, other);
    let t = salary_updated(s, h, salary);
    lemma_find_hash(t, other);
    if has_hash(s, h) {
        let k = find_hash(s, h);
        let f = find_hash(s, other);
        let g = find_hash(t, other);
        assert forall|j: int| 0 <= j < s.len() implies #[trigger] t[j].hash == s[j].hash by {}
        if f < s.len() {
            assert(t[f].hash == other);
            if g < f {
                assert(t[g].hash == s[g].hash);
            }
            assert(g == f);
            assert(f != k);
        } else if g < t.len() {
            assert(t[g].hash == s[g].hash);
        }
    }
}

} // verus!

//! The lines of the run's log: timestamped entries, the lock counts, and the
//! final table.

use vstd::prelude::*;

use crate::decimal::{decimal, law_decimal_reads_back, push_decimal};
use crate::hash::{record_text, HashRecord};
use crate::table::{law_print_one_line_per_record, records_text, table_text};
use crate::text::{
    chars_of, free_of, lemma_split_concat, lemma_split_four, lemma_split_free, line_ranges,
    lines, split, strip_cr,
};

verus! {

/// The current time, in microseconds since the Unix epoch; `None` when the
/// clock is set before the epoch.
///
/// Calls `SystemTime::now()`, `duration_since(UNIX_EPOCH)` and
/// `Duration::as_micros()`, keeping the low 64 bits of the count. Nothing is
/// stated of the result: it depends on the clock.
#[verifier::external_body]
pub fn current_timestamp() -> Option<u64> {
    match std::time::SystemTime::now().duration_since(std::time::UNIX_EPOCH) {
        Ok(d) => Some(d.as_micros() as u64),
        Err(_) => None,
    }
}

/// `<ts>: THREAD <priority> <message>` and a newline.
pub open spec fn thread_line(ts: u64, priority: u32, message: Seq<char>) -> Seq<char> {
    decimal(ts as nat) + ": THREAD "@ + decimal(priority as nat) + seq![' '] + message + seq!['\n']
}

/// The two summary lines of the lock counts.
pub open spec fn count_lines(ts: u64, acquisitions: u64, releases: u64) -> Seq<char> {
    decimal(ts as nat) + ": Number of lock acquisitions: "@ + decimal(acquisitions as nat)
        + seq!['\n'] + decimal(ts as nat) + ": Number of lock releases: "@ + decimal(
        releases as nat,
    ) + seq!['\n']
}

/// Each of the given lines followed by a newline.
pub open spec fn joined_lines(ls: Seq<Seq<char>>) -> Seq<char>
    decreases ls.len(),
{
    if ls.len() == 0 {
        Seq::empty()
    } else {
        joined_lines(ls.drop_last()) + ls.last() + seq!['\n']
    }
}

/// `<ts>: Final Table:` and a newline, then the lines of the printed table
/// after its header line.
pub open spec fn final_table_lines(ts: u64, table_output: Seq<char>) -> Seq<char> {
    let ls = lines(table_output);
    decimal(ts as nat) + ": Final Table:\n"@ + joined_lines(
        if ls.len() == 0 { ls } else { ls.drop_first() },
    )
}

/// The final table in the log is its header line, then every line of the
/// printed table after the first, each with a newline: no lines give nothing,
/// and one more line adds itself and a newline at the end.
pub proof fn law_final_table_keeps_every_line(ts: u64, t: Seq<char>, ls: Seq<Seq<char>>, l: Seq<char>)
    ensures
        joined_lines(Seq::<Seq<char>>::empty()) == Seq::<char>::empty(),
        joined_lines(ls.push(l)) == joined_lines(ls) + l + seq!['\n'],
        lines(t).len() > 0 ==> final_table_lines(ts, t) == decimal(ts as nat) + ": Final Table:\n"@
            + joined_lines(lines(t).drop_first()),
        lines(t).len() == 0 ==> final_table_lines(ts, t) == decimal(ts as nat)
            + ": Final Table:\n"@,
{
    assert(ls.push(l).drop_last() =~= ls);
    if lines(t).len() == 0 {
        assert(final_table_lines(ts, t) =~= decimal(ts as nat) + ": Final Table:\n"@);
    }
}

/// A thread entry is one line that reads back as its fields: split at spaces
/// it gives the timestamp with its colon, `THREAD`, the priority and the
/// message, as long as the message holds no space or newline.
pub proof fn law_thread_line_reads_back(ts: u64, priority: u32, message: Seq<char>)
    requires
        free_of(message, ' '),
        free_of(message, '\n'),
    ensures
        ({
            let line = thread_line(ts, priority, message);
            &&& line.last() == '\n'
            &&& free_of(line.drop_last(), '\n')
            &&& split(line.drop_last(), ' ') == seq![
                decimal(ts as nat).push(':'),
                "THREAD"@,
                decimal(priority as nat),
                message,
            ]
        }),
{
    reveal_strlit(": THREAD ");
    reveal_strlit("THREAD");
    law_decimal_reads_back(ts as nat);
    law_decimal_reads_back(priority as nat);
    let a = decimal(ts as nat).push(':');
    let b = "THREAD"@;
    let c = decimal(priority as nat);
    assert(free_of(a, ' ')) by {
        assert forall|i: int| 0 <= i < a.len() implies #[trigger] a[i] != ' ' by {
            if i < a.len() - 1 {
                assert(a[i] == decimal(ts as nat)[i]);
            }
        }
    }
    assert(free_of(b, ' '));
    assert(free_of(c, ' '));
    let line = thread_line(ts, priority, message);
    let body = a + seq![' '] + b + seq![' '] + c + seq![' '] + message;
    assert(line =~= body.push('\n'));
    assert(line.drop_last() =~= body);
    lemma_split_four(a, b, c, message, ' ');
    assert forall|i: int| 0 <= i < body.len() implies #[trigger] body[i] != '\n' by {
        let n1 = a.len() + 1 + b.len() + 1;
        let n2 = n1 + c.len() + 1;
        if i < a.len() - 1 {
            assert(body[i] == decimal(ts as nat)[i]);
        } else if n1 <= i < n1 + c.len() {
            assert(body[i] == c[i - n1]);
        } else if i >= n2 {
            assert(body[i] == message[i - n2]);
        }
    }
}

/// The lock counts are two lines: the first ends with the number of
/// acquisitions, the second with the number of releases, both after the
/// timestamp.
pub proof fn law_count_lines_two_lines(ts: u64, acquisitions: u64, releases: u64)
    ensures
        split(count_lines(ts, acquisitions, releases), '\n') == seq![
            decimal(ts as nat) + ": Number of lock acquisitions: "@ + decimal(acquisitions as nat),
            decimal(ts as nat) + ": Number of lock releases: "@ + decimal(releases as nat),
            Seq::<char>::empty(),
        ],
{
    reveal_strlit(": Number of lock acquisitions: ");
    reveal_strlit(": Number of lock releases: ");
    let t = decimal(ts as nat);
    let a = decimal(acquisitions as nat);
    let r = decimal(releases as nat);
    law_decimal_reads_back(ts as nat);
    law_decimal_reads_back(acquisitions as nat);
    law_decimal_reads_back(releases as nat);
    let l1 = t + ": Number of lock acquisitions: "@ + a;
    let l2 = t + ": Number of lock releases: "@ + r;
    let e = Seq::<char>::empty();
    assert(free_of(l1, '\n')) by {
        let p = ": Number of lock acquisitions: "@;
        assert forall|i: int| 0 <= i < l1.len() implies #[trigger] l1[i] != '\n' by {
            if i < t.len() {
                assert(l1[i] == t[i]);
            } else if i < t.len() + p.len() {
                assert(l1[i] == p[i - t.len()]);
            } else {
                assert(l1[i] == a[i - t.len() - p.len()]);
            }
        }
    }
    assert(free_of(l2, '\n')) by {
        let p = ": Number of lock releases: "@;
        assert forall|i: int| 0 <= i < l2.len() implies #[trigger] l2[i] != '\n' by {
            if i < t.len() {
                assert(l2[i] == t[i]);
            } else if i < t.len() + p.len() {
                assert(l2[i] == p[i - t.len()]);
            } else {
                assert(l2[i] == r[i - t.len() - p.len()]);
            }
        }
    }
    assert(count_lines(ts, acquisitions, releases) =~= l1 + seq!['\n'] + (l2 + seq!['\n'] + e));
    lemma_split_concat(l1, l2 + seq!['\n'] + e, '\n');
    lemma_split_concat(l2, e, '\n');
    lemma_split_free(l1, '\n');
    lemma_split_free(l2, '\n');
    lemma_split_free(e, '\n');
    assert(seq![l1] + (seq![l2] + seq![e]) =~= seq![l1, l2, e]);
}

/// The texts of the records, in table order.
pub open spec fn record_texts(s: Seq<HashRecord>) -> Seq<Seq<char>> {
    s.map_values(|r: HashRecord| record_text(r))
}

/// No record name holds a newline.
pub open spec fn names_on_one_line(s: Seq<HashRecord>) -> bool {
    forall|i: int| 0 <= i < s.len() ==> free_of((#[trigger] s[i]).name@, '\n')
}

/// The text of a record whose name holds no newline is one line that does
/// not end in a carriage return.
proof fn lemma_record_text_one_line(r: HashRecord)
    requires
        free_of(r.name@, '\n'),
    ensures
        free_of(record_text(r), '\n'),
        record_text(r).len() > 0,
        record_text(r).last() != '\r',
{
    law_decimal_reads_back(r.hash as nat);
    law_decimal_reads_back(r.salary as nat);
    let a = decimal(r.hash as nat);
    let c = decimal(r.salary as nat);
    let t = record_text(r);
    assert(t.last() == c.last());
    assert forall|i: int| 0 <= i < t.len() implies #[trigger] t[i] != '\n' by {
        if i < a.len() {
            assert(t[i] == a[i]);
        } else if i == a.len() {
        } else if i < a.len() + 1 + r.name@.len() {
            assert(t[i] == r.name@[i - a.len() - 1]);
        } else if i == a.len() + 1 + r.name@.len() {
        } else {
            assert(t[i] == c[i - a.len() - 2 - r.name@.len()]);
        }
    }
}

/// The printed records, split at newlines, are the record texts and an empty
/// piece after the last newline.
proof fn lemma_records_text_split(s: Seq<HashRecord>)
    requires
        names_on_one_line(s),
    ensures
        split(records_text(s), '\n') == record_texts(s).push(Seq::<char>::empty()),
        joined_lines(record_texts(s)) == records_text(s),
    decreases s.len(),
{
    let m = record_texts(s);
    if s.len() == 0 {
        assert(records_text(s) =~= Seq::<char>::empty());
        assert(split(records_text(s), '\n') =~= m.push(Seq::<char>::empty()));
        assert(joined_lines(m) =~= Seq::<char>::empty());
    } else {
        let s0 = s.drop_last();
        let r = s.last();
        lemma_records_text_split(s0);
        lemma_record_text_one_line(r);
        law_print_one_line_per_record(s0, r);
        assert(s0.push(r) =~= s);
        let m0 = record_texts(s0);
        assert(m =~= m0.push(record_text(r)));
        assert(m.drop_last() =~= m0);
        // records_text(s) == records_text(s0) + record_text(r) + "\n"
        let x = records_text(s0) + record_text(r);
        assert(records_text(s) =~= x + seq!['\n'] + Seq::<char>::empty());
        lemma_split_concat(x, Seq::<char>::empty(), '\n');
        lemma_split_free(Seq::<char>::empty(), '\n');
        // split(x) == m0 + [record_text(r)] with the last piece extended
        let p0 = split(records_text(s0), '\n');
        assert(p0 == m0.push(Seq::<char>::empty()));
        lemma_split_append_free(records_text(s0), record_text(r), '\n');
        assert(split(x, '\n') =~= m0.push(record_text(r)));
        assert(split(records_text(s), '\n') =~= m.push(Seq::<char>::empty()));
    }
}

/// Appending text free of the separator extends the last piece.
proof fn lemma_split_append_free(a: Seq<char>, b: Seq<char>, sep: char)
    requires
        free_of(b, sep),
    ensures
        split(a + b, sep) == split(a, sep).update(
            split(a, sep).len() - 1,
            split(a, sep).last() + b,
        ),
    decreases b.len(),
{
    crate::text::lemma_split_nonempty(a, sep);
    if b.len() == 0 {
        assert(a + b =~= a);
        assert(split(a, sep).last() + b =~= split(a, sep).last());
        assert(split(a, sep).update(split(a, sep).len() - 1, split(a, sep).last() + b) =~= split(
            a,
            sep,
        ));
    } else {
        let b0 = b.drop_last();
        assert(free_of(b0, sep));
        lemma_split_append_free(a, b0, sep);
        assert((a + b).drop_last() =~= a + b0);
        assert((a + b).last() == b.last());
        assert(b.last() != sep);
        let p = split(a, sep);
        let q = split(a + b0, sep);
        assert(q.len() == p.len());
        assert(q.last() == p.last() + b0);
        assert(q.last().push(b.last()) =~= p.last() + b);
        assert(split(a + b, sep) =~= p.update(p.len() - 1, p.last() + b));
    }
}

/// The final table that the log takes from a printed table lists exactly
/// the printed records, one per line, in table order, as long as no name
/// holds a newline.
pub proof fn law_final_table_lists_printed_records(ts: u64, s: Seq<HashRecord>)
    requires
        names_on_one_line(s),
    ensures
        final_table_lines(ts, table_text(s)) == decimal(ts as nat) + ": Final Table:\n"@
            + records_text(s),
{
    reveal_strlit("Current Database:\n");
    reveal_strlit("Current Database:");
    let h = "Current Database:"@;
    let m = record_texts(s);
    lemma_records_text_split(s);
    assert(table_text(s) =~= h + seq!['\n'] + records_text(s));
    lemma_split_concat(h, records_text(s), '\n');
    assert forall|i: int| 0 <= i < h.len() implies #[trigger] h[i] != '\n' by {}
    lemma_split_free(h, '\n');
    let p = split(table_text(s), '\n');
    assert(p =~= seq![h] + m.push(Seq::<char>::empty()));
    let ls = lines(table_text(s));
    assert forall|i: int| 0 <= i < m.len() implies strip_cr(#[trigger] m[i]) == m[i] by {
        lemma_record_text_one_line(s[i]);
    }
    assert(ls =~= seq![h] + m);
    assert(ls.drop_first() =~= m);
}

/// The log entry `<ts>: THREAD <priority> <message>` and a newline.
pub fn thread_log_line(ts: u64, priority: u32, message: &str) -> (s: String)
    ensures
        s@ == thread_line(ts, priority, message@),
{
    let mut s = String::new();
    push_decimal(&mut s, ts);
    s.append(": THREAD ");
    push_decimal(&mut s, priority as u64);
    s.append(" ");
    s.append(message);
    s.append("\n");
    proof {
        reveal_strlit(" ");
        reveal_strlit("\n");
        assert(s@ =~= thread_line(ts, priority, message@));
    }
    s
}

/// The summary lines `<ts>: Number of lock acquisitions: <n>` and
/// `<ts>: Number of lock releases: <n>`.
pub fn lock_count_lines(ts: u64, acquisitions: u64, releases: u64) -> (s: String)
    ensures
        s@ == count_lines(ts, acquisitions, releases),
{
    let mut s = String::new();
    push_decimal(&mut s, ts);
    s.append(": Number of lock acquisitions: ");
    push_decimal(&mut s, acquisitions);
    s.append("\n");
    push_decimal(&mut s, ts);
    s.append(": Number of lock releases: ");
    push_decimal(&mut s, releases);
    s.append("\n");
    proof {
        reveal_strlit("\n");
        assert(s@ =~= count_lines(ts, acquisitions, releases));
    }
    s
}

/// The final table for the log: a `Final Table:` line, then the records of
/// the printed table `table_output` (its header line dropped).
pub fn final_table_log(ts: u64, table_output: &str) -> (s: String)
    ensures
        s@ == final_table_lines(ts, table_output@),
{
    let cs = chars_of(table_output);
    let ls = line_ranges(&cs);
    let ghost all = lines(cs@);
    let ghost rest = if all.len() == 0 { all } else { all.drop_first() };
    let mut s = String::new();
    push_decimal(&mut s, ts);
    s.append(": Final Table:\n");
    let ghost head = s@;
    let mut k: usize = 1;
    proof {
        if all.len() > 0 {
            assert(rest.take(0) =~= Seq::<Seq<char>>::empty());
        }
        assert(head =~= head + joined_lines(Seq::<Seq<char>>::empty()));
    }
    while k < ls.len()
        invariant
            table_output@ == cs@,
            all == lines(cs@),
            rest == (if all.len() == 0 { all } else { all.drop_first() }),
            ls@.len() == all.len(),
            forall|j: int|
                0 <= j < ls@.len() ==> {
                    &&& (#[trigger] ls@[j]).0 <= ls@[j].1 <= cs@.len()
                    &&& cs@.subrange(ls@[j].0 as int, ls@[j].1 as int) == all[j]
                },
            1 <= k,
            ls@.len() > 0 ==> k <= ls@.len(),
            ls@.len() > 0 ==> s@ == head + joined_lines(rest.take(k - 1)),
            ls@.len() == 0 ==> s@ == head,
        decreases ls@.len() - k,
    {
        let (a, b) = ls[k];
        let ghost prev = s@;
        s.append(table_output.substring_char(a, b));
        s.append("\n");
        proof {
            reveal_strlit("\n");
            let next = rest.take(k as int);
            assert(next.drop_last() =~= rest.take(k - 1));
            assert(next.last() == all[k as int]);
            assert(s@ =~= head + joined_lines(next));
        }
        k = k + 1;
    }
    proof {
        if all.len() > 0 {
            assert(rest.take(k - 1) =~= rest);
        } else {
            assert(rest.len() == 0);
            assert(joined_lines(rest) =~= Seq::<char>::empty());
        }
        assert(s@ =~= final_table_lines(ts, table_output@));
    }
    s
}

} // verus!

//! Carrying out one command against the table: what is logged for it, what
//! it does to the table, and what it prints.

use vstd::prelude::*;

use crate::commands::{Command, CommandView};
use crate::decimal::{decimal, law_decimal_reads_back, push_decimal};
use crate::text::{free_of, lemma_split_four, lemma_split_three, parse_u32, split};
use crate::hash::{fields_text, jenkins_hash, name_hash, push_record, record_text, HashRecord};
use crate::table::{
    has_hash, inserted, unique_hashes, lookup, lower_bound, removed, salary_updated, sorted_by_hash,
    table_delete, table_insert, table_print, table_search, table_text, table_update,
    with_salary,
};

verus! {

/// The log entry of a command: `INSERT,<hash>,<name>,<salary>`,
/// `DELETE,<hash>,<name>`, `UPDATE,<hash>,<name>,<salary>`,
/// `SEARCH,<hash>,<name>` or `PRINT`.
pub open spec fn log_message(c: CommandView) -> Seq<char> {
    match c {
        CommandView::Insert { name, salary, .. } => "INSERT,"@ + fields_text(
            name_hash(name),
            name,
            salary,
        ),
        CommandView::Delete { name, .. } => "DELETE,"@ + decimal(name_hash(name) as nat) + ","@
            + name,
        CommandView::Update { name, salary, .. } => "UPDATE,"@ + fields_text(
            name_hash(name),
            name,
            salary,
        ),
        CommandView::Search { name, .. } => "SEARCH,"@ + decimal(name_hash(name) as nat) + ","@
            + name,
        CommandView::Print { .. } => "PRINT"@,
    }
}

/// Whether a command changes the table (and so runs under the write lock).
pub open spec fn is_write(c: CommandView) -> bool {
    match c {
        CommandView::Insert { .. } | CommandView::Delete { .. } | CommandView::Update { .. } => true,
        _ => false,
    }
}

/// What a command prints when run against table `s`.
pub open spec fn command_output(s: Seq<HashRecord>, c: CommandView) -> Seq<char> {
    match c {
        CommandView::Insert { name, salary, .. } => {
            let h = name_hash(name);
            if has_hash(s, h) {
                "Insert failed. Entry "@ + decimal(h as nat) + " is a duplicate.\n"@
            } else {
                "Inserted "@ + fields_text(h, name, salary) + "\n"@
            }
        },
        CommandView::Delete { name, .. } => match lookup(s, name_hash(name)) {
            Some(r) => "Deleted record for "@ + record_text(r) + "\n"@,
            None => name + " not found.\n"@,
        },
        CommandView::Update { name, salary, .. } => {
            let h = name_hash(name);
            match lookup(s, h) {
                Some(r) => "Updated record "@ + decimal(h as nat) + " from "@ + record_text(r)
                    + " to "@ + record_text(with_salary(r, salary)) + "\n"@,
                None => "Update failed. Entry "@ + decimal(h as nat) + " not found.\n"@,
            }
        },
        CommandView::Search { name, .. } => match lookup(s, name_hash(name)) {
            Some(r) => "Found: "@ + record_text(r) + "\n"@,
            None => name + " not found.\n"@,
        },
        CommandView::Print { .. } => table_text(s),
    }
}

/// What a command does to the table: `before` becomes `after`. An insert
/// places its record where it keeps a table in hash order; in a table out of
/// order, at some index.
pub open spec fn command_effect(before: Seq<HashRecord>, after: Seq<HashRecord>, c: CommandView) -> bool {
    match c {
        CommandView::Insert { name, salary, .. } => {
            let h = name_hash(name);
            if has_hash(before, h) {
                after == before
            } else {
                exists|p: int|
                    0 <= p <= before.len() && {
                        let r = #[trigger] after[p];
                        &&& r.hash == h
                        &&& r.name@ == name
                        &&& r.salary == salary
                        &&& after == before.insert(p, r)
                        &&& sorted_by_hash(before) ==> p == lower_bound(before, h)
                    }
            }
        },
        CommandView::Delete { name, .. } => after == removed(before, name_hash(name)),
        CommandView::Update { name, salary, .. } => after == salary_updated(
            before,
            name_hash(name),
            salary,
        ),
        _ => after == before,
    }
}

/// An update prints the record as it was before (`from`) and as the table
/// holds it after (`to`, the same record with the new salary), whatever the
/// two salaries; when there is no such record it says so by hash.
pub proof fn law_update_reports_before_and_after(
    s: Seq<HashRecord>,
    name: Seq<char>,
    salary: u32,
    priority: u32,
)
    ensures
        ({
            let h = name_hash(name);
            let out = command_output(s, CommandView::Update { name, salary, priority });
            match (lookup(s, h), lookup(salary_updated(s, h, salary), h)) {
                (Some(before), Some(after)) => {
                    &&& out == "Updated record "@ + decimal(h as nat) + " from "@ + record_text(
                        before,
                    ) + " to "@ + record_text(after) + "\n"@
                    &&& after.hash == before.hash
                    &&& after.name == before.name
                    &&& after.salary == salary
                },
                (None, None) => out == "Update failed. Entry "@ + decimal(h as nat)
                    + " not found.\n"@,
                _ => false,
            }
        }),
{
    crate::table::law_update_then_search(s, name_hash(name), salary);
}

/// A search prints the record that the table holds for the name's hash, or
/// says the name is not found.
pub proof fn law_search_reports_record(s: Seq<HashRecord>, name: Seq<char>, priority: u32)
    ensures
        ({
            let out = command_output(s, CommandView::Search { name, priority });
            match lookup(s, name_hash(name)) {
                Some(r) => out == "Found: "@ + record_text(r) + "\n"@,
                None => out == name + " not found.\n"@,
            }
        }),
{
}

/// A delete prints the record that the table held for the name's hash, or
/// says the name is not found.
pub proof fn law_delete_reports_record(s: Seq<HashRecord>, name: Seq<char>, priority: u32)
    ensures
        ({
            let out = command_output(s, CommandView::Delete { name, priority });
            match lookup(s, name_hash(name)) {
                Some(r) => out == "Deleted record for "@ + record_text(r) + "\n"@,
                None => out == name + " not found.\n"@,
            }
        }),
{
}

/// An insert prints the record that a search finds afterwards, or, when the
/// hash is taken, says so by hash.
pub proof fn law_insert_reports_record(
    s: Seq<HashRecord>,
    r: HashRecord,
    salary: u32,
    priority: u32,
)
    ensures
        ({
            let h = name_hash(r.name@);
            let out = command_output(s, CommandView::Insert { name: r.name@, salary, priority });
            &&& has_hash(s, h) ==> out == "Insert failed. Entry "@ + decimal(h as nat)
                + " is a duplicate.\n"@
            &&& sorted_by_hash(s) && !has_hash(s, h) && r.hash == h && r.salary == salary ==> {
                &&& lookup(inserted(s, r), h) == Some(r)
                &&& out == "Inserted "@ + record_text(r) + "\n"@
            }
        }),
{
    if sorted_by_hash(s) && !has_hash(s, name_hash(r.name@)) && r.hash == name_hash(r.name@) {
        crate::table::law_insert_then_search(s, r);
    }
}

/// A print prints the whole table.
pub proof fn law_print_reports_table(s: Seq<HashRecord>, priority: u32)
    ensures
        command_output(s, CommandView::Print { priority }) == table_text(s),
{
}

/// The log entry of a command reads back as its fields: split at commas it
/// gives the verb in capitals, the hash of the name, the name, and for an
/// insert or update the salary, as long as the name holds no comma.
pub proof fn law_log_message_reads_back(name: Seq<char>, salary: u32, priority: u32)
    requires
        free_of(name, ','),
    ensures
        ({
            let h = name_hash(name);
            let p = split(log_message(CommandView::Insert { name, salary, priority }), ',');
            &&& p == seq!["INSERT"@, decimal(h as nat), name, decimal(salary as nat)]
            &&& parse_u32(p[1]) == Some(h)
            &&& parse_u32(p[3]) == Some(salary)
        }),
        ({
            let h = name_hash(name);
            let p = split(log_message(CommandView::Update { name, salary, priority }), ',');
            &&& p == seq!["UPDATE"@, decimal(h as nat), name, decimal(salary as nat)]
            &&& parse_u32(p[1]) == Some(h)
            &&& parse_u32(p[3]) == Some(salary)
        }),
        ({
            let h = name_hash(name);
            let p = split(log_message(CommandView::Delete { name, priority }), ',');
            &&& p == seq!["DELETE"@, decimal(h as nat), name]
            &&& parse_u32(p[1]) == Some(h)
        }),
        ({
            let h = name_hash(name);
            let p = split(log_message(CommandView::Search { name, priority }), ',');
            &&& p == seq!["SEARCH"@, decimal(h as nat), name]
            &&& parse_u32(p[1]) == Some(h)
        }),
        log_message(CommandView::Print { priority }) == "PRINT"@,
{
    let h = name_hash(name);
    let dh = decimal(h as nat);
    let ds = decimal(salary as nat);
    law_decimal_reads_back(h as nat);
    law_decimal_reads_back(salary as nat);
    assert(free_of(dh, ','));
    assert(free_of(ds, ','));
    lemma_verb_field("INSERT,"@, "INSERT"@);
    lemma_verb_field("UPDATE,"@, "UPDATE"@);
    lemma_verb_field("DELETE,"@, "DELETE"@);
    lemma_verb_field("SEARCH,"@, "SEARCH"@);
    reveal_strlit(",");
    lemma_split_four("INSERT"@, dh, name, ds, ',');
    lemma_split_four("UPDATE"@, dh, name, ds, ',');
    lemma_split_three("DELETE"@, dh, name, ',');
    lemma_split_three("SEARCH"@, dh, name, ',');
    assert(log_message(CommandView::Insert { name, salary, priority }) =~= "INSERT"@ + seq![',']
        + dh + seq![','] + name + seq![','] + ds);
    assert(log_message(CommandView::Update { name, salary, priority }) =~= "UPDATE"@ + seq![',']
        + dh + seq![','] + name + seq![','] + ds);
    assert(log_message(CommandView::Delete { name, priority }) =~= "DELETE"@ + seq![','] + dh
        + seq![','] + name);
    assert(log_message(CommandView::Search { name, priority }) =~= "SEARCH"@ + seq![','] + dh
        + seq![','] + name);
}

/// A verb literal with its comma is the verb and a comma, and the verb holds
/// no comma.
proof fn lemma_verb_field(with_comma: Seq<char>, verb: Seq<char>)
    requires
        with_comma == "INSERT,"@ && verb == "INSERT"@ || with_comma == "UPDATE,"@ && verb
            == "UPDATE"@ || with_comma == "DELETE,"@ && verb == "DELETE"@ || with_comma
            == "SEARCH,"@ && verb == "SEARCH"@,
    ensures
        with_comma == verb + seq![','],
        free_of(verb, ','),
{
    reveal_strlit("INSERT,");
    reveal_strlit("INSERT");
    reveal_strlit("UPDATE,");
    reveal_strlit("UPDATE");
    reveal_strlit("DELETE,");
    reveal_strlit("DELETE");
    reveal_strlit("SEARCH,");
    reveal_strlit("SEARCH");
    assert(with_comma =~= verb + seq![',']);
}

/// The log entry of `cmd`.
pub fn command_log_message(cmd: &Command) -> (s: String)
    ensures
        s@ == log_message(cmd@),
{
    let mut s = String::new();
    match cmd {
        Command::Insert { name, salary, .. } => {
            s.append("INSERT,");
            push_fields(&mut s, jenkins_hash(name.as_str()), name.as_str(), *salary);
        },
        Command::Delete { name, .. } => {
            s.append("DELETE,");
            push_decimal(&mut s, jenkins_hash(name.as_str()) as u64);
            s.append(",");
            s.append(name.as_str());
        },
        Command::Update { name, salary, .. } => {
            s.append("UPDATE,");
            push_fields(&mut s, jenkins_hash(name.as_str()), name.as_str(), *salary);
        },
        Command::Search { name, .. } => {
            s.append("SEARCH,");
            push_decimal(&mut s, jenkins_hash(name.as_str()) as u64);
            s.append(",");
            s.append(name.as_str());
        },
        Command::Print { .. } => {
            s.append("PRINT");
        },
    }
    proof {
        assert(s@ =~= log_message(cmd@));
    }
    s
}

/// Appends `<hash>,<name>,<salary>` to `out`.
fn push_fields(out: &mut String, hash: u32, name: &str, salary: u32)
    ensures
        final(out)@ == old(out)@ + fields_text(hash, name@, salary),
{
    let ghost start = out@;
    push_decimal(out, hash as u64);
    out.append(",");
    out.append(name);
    out.append(",");
    push_decimal(out, salary as u64);
    proof {
        reveal_strlit(",");
        assert(out@ =~= start + fields_text(hash, name@, salary));
    }
}

/// Whether `cmd` changes the table, and so takes the write lock.
pub fn is_write_command(cmd: &Command) -> (b: bool)
    ensures
        b == is_write(cmd@),
{
    match cmd {
        Command::Insert { .. } | Command::Delete { .. } | Command::Update { .. } => true,
        _ => false,
    }
}

/// Runs a command that only reads the table (search or print) and returns
/// what it prints; `None` for a command that changes the table.
pub fn execute_query(records: &Vec<HashRecord>, cmd: &Command) -> (out: Option<String>)
    ensures
        match out {
            Some(text) => !is_write(cmd@) && text@ == command_output(records@, cmd@),
            None => is_write(cmd@),
        },
{
    match cmd {
        Command::Search { name, .. } => {
            let mut out = String::new();
            match table_search(records, name.as_str()) {
                Some(r) => {
                    out.append("Found: ");
                    push_record(&mut out, &r);
                    out.append("\n");
                },
                None => {
                    out.append(name.as_str());
                    out.append(" not found.\n");
                },
            }
            proof {
                assert(out@ =~= command_output(records@, cmd@));
            }
            Some(out)
        },
        Command::Print { .. } => Some(table_print(records)),
        _ => None,
    }
}

/// Runs a command against the table and returns what it prints.
pub fn execute_command(records: &mut Vec<HashRecord>, cmd: &Command) -> (out: String)
    ensures
        sorted_by_hash(old(records)@) ==> sorted_by_hash(final(records)@),
        unique_hashes(old(records)@) ==> unique_hashes(final(records)@),
        command_effect(old(records)@, final(records)@, cmd@),
        out@ == command_output(old(records)@, cmd@),
{
    let ghost before = records@;
    match cmd {
        Command::Insert { name, salary, .. } => {
            let mut out = String::new();
            match table_insert(records, name.as_str(), *salary) {
                Ok(r) => {
                    out.append("Inserted ");
                    push_record(&mut out, &r);
                    out.append("\n");
                    proof {
                        if sorted_by_hash(before) {
                            let p = lower_bound(before, r.hash);
                            crate::table::lemma_lower_bound(before, r.hash);
                            assert(records@[p] == r);
                            assert(command_effect(before, records@, cmd@));
                        } else {
                            let p = choose|p: int|
                                0 <= p <= before.len() && records@ == before.insert(p, r);
                            assert(records@[p] == r);
                            assert(command_effect(before, records@, cmd@));
                        }
                    }
                },
                Err(h) => {
                    out.append("Insert failed. Entry ");
                    push_decimal(&mut out, h as u64);
                    out.append(" is a duplicate.\n");
                },
            }
            proof {
                assert(out@ =~= command_output(before, cmd@));
            }
            out
        },
        Command::Delete { name, .. } => {
            let mut out = String::new();
            match table_delete(records, name.as_str()) {
                Some(r) => {
                    out.append("Deleted record for ");
                    push_record(&mut out, &r);
                    out.append("\n");
                },
                None => {
                    out.append(name.as_str());
                    out.append(" not found.\n");
                },
            }
            proof {
                assert(out@ =~= command_output(before, cmd@));
            }
            out
        },
        Command::Update { name, salary, .. } => {
            let mut out = String::new();
            match table_update(records, name.as_str(), *salary) {
                Some((h, old_text, new_text)) => {
                    out.append("Updated record ");
                    push_decimal(&mut out, h as u64);
                    out.append(" from ");
                    out.append(old_text.as_str());
                    out.append(" to ");
                    out.append(new_text.as_str());
                    out.append("\n");
                },
                None => {
                    out.append("Update failed. Entry ");
                    push_decimal(&mut out, jenkins_hash(name.as_str()) as u64);
                    out.append(" not found.\n");
                },
            }
            proof {
                assert(out@ =~= command_output(before, cmd@));
            }
            out
        },
        _ => {
            let out = execute_query(records, cmd);
            match out {
                Some(text) => text,
                None => String::new(),
            }
        },
    }
}

} // verus!

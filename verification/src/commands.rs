//! The command language: one command per line, priority in the last field.
//!
//! ```text
//! threads,<count>,<unused>
//! insert,<name>,<salary>,<priority>
//! delete,<name>,<unused>,<priority>
//! update,<name>,<new_salary>,<priority>
//! search,<name>,<unused>,<priority>
//! print,<unused>,<unused>,<priority>
//! ```

use vstd::prelude::*;

use crate::decimal::{decimal, law_decimal_reads_back};
use crate::text::{
    free_of, is_space, join, lemma_split_join, lowers_to, lemma_trim_unchanged,
    chars_of, line_ranges, lines, lowers_to_word, parse_u32_or_zero, parse_u32_range,
    range_is_word, split, split_range, trim, trim_range, lemma_split_nonempty,
};

verus! {

/// One command of the input.
#[derive(Clone, Debug)]
pub enum Command {
    Insert { name: String, salary: u32, priority: u32 },
    Delete { name: String, priority: u32 },
    Update { name: String, salary: u32, priority: u32 },
    Search { name: String, priority: u32 },
    Print { priority: u32 },
}

/// A command with its name taken as a sequence of characters.
pub enum CommandView {
    Insert { name: Seq<char>, salary: u32, priority: u32 },
    Delete { name: Seq<char>, priority: u32 },
    Update { name: Seq<char>, salary: u32, priority: u32 },
    Search { name: Seq<char>, priority: u32 },
    Print { priority: u32 },
}

impl CommandView {
    /// The priority of the command: the turn at which it runs.
    pub open spec fn priority(self) -> u32 {
        match self {
            CommandView::Insert { priority, .. } => priority,
            CommandView::Delete { priority, .. } => priority,
            CommandView::Update { priority, .. } => priority,
            CommandView::Search { priority, .. } => priority,
            CommandView::Print { priority } => priority,
        }
    }
}

impl View for Command {
    type V = CommandView;

    open spec fn view(&self) -> CommandView {
        match self {
            Command::Insert { name, salary, priority } => CommandView::Insert {
                name: name@,
                salary: *salary,
                priority: *priority,
            },
            Command::Delete { name, priority } => CommandView::Delete {
                name: name@,
                priority: *priority,
            },
            Command::Update { name, salary, priority } => CommandView::Update {
                name: name@,
                salary: *salary,
                priority: *priority,
            },
            Command::Search { name, priority } => CommandView::Search {
                name: name@,
                priority: *priority,
            },
            Command::Print { priority } => CommandView::Print { priority: *priority },
        }
    }
}

impl Command {
    /// The priority of this command (its turn in the run).
    pub fn priority(&self) -> (p: u32)
        ensures
            p == self@.priority(),
    {
        match self {
            Command::Insert { priority, .. } => *priority,
            Command::Delete { priority, .. } => *priority,
            Command::Update { priority, .. } => *priority,
            Command::Search { priority, .. } => *priority,
            Command::Print { priority } => *priority,
        }
    }
}

/// The views of a sequence of commands.
pub open spec fn views(s: Seq<Command>) -> Seq<CommandView> {
    s.map_values(|c: Command| c@)
}

/// The views of a sequence of strings.
pub open spec fn string_views(s: Seq<String>) -> Seq<Seq<char>> {
    s.map_values(|t: String| t@)
}

// ---------------------------------------------------------------------------
// What a file means
// ---------------------------------------------------------------------------

/// The number of threads that the first (trimmed) line declares:
/// `threads,<count>,...`, in any letter case; 0 when the line is not such a
/// declaration or the count is not a number.
pub open spec fn header_threads(line: Seq<char>) -> u32 {
    let parts = split(line, ',');
    if parts.len() >= 2 && lowers_to_word(trim(parts[0]), "threads"@) {
        parse_u32_or_zero(trim(parts[1]))
    } else {
        0
    }
}

/// The command that a trimmed line describes, if any. The verb may be in any
/// letter case; a number that does not parse counts as 0.
pub open spec fn line_command(line: Seq<char>) -> Option<CommandView> {
    let parts = split(line, ',');
    let verb = trim(parts[0]);
    let priority = parse_u32_or_zero(trim(parts.last()));
    if lowers_to_word(verb, "insert"@) && parts.len() >= 4 {
        Some(
            CommandView::Insert {
                name: trim(parts[1]),
                salary: parse_u32_or_zero(trim(parts[parts.len() - 2])),
                priority,
            },
        )
    } else if lowers_to_word(verb, "delete"@) && parts.len() >= 3 {
        Some(CommandView::Delete { name: trim(parts[1]), priority })
    } else if lowers_to_word(verb, "update"@) && parts.len() >= 4 {
        Some(
            CommandView::Update {
                name: trim(parts[1]),
                salary: parse_u32_or_zero(trim(parts[parts.len() - 2])),
                priority,
            },
        )
    } else if lowers_to_word(verb, "search"@) && parts.len() >= 3 {
        Some(CommandView::Search { name: trim(parts[1]), priority })
    } else if lowers_to_word(verb, "print"@) && parts.len() >= 2 {
        Some(CommandView::Print { priority })
    } else {
        None
    }
}

/// The commands of the given lines, in input order.
pub open spec fn parsed_commands(ls: Seq<Seq<char>>) -> Seq<CommandView>
    decreases ls.len(),
{
    if ls.len() == 0 {
        Seq::empty()
    } else {
        let rest = parsed_commands(ls.drop_last());
        match line_command(trim(ls.last())) {
            Some(c) => rest.push(c),
            None => rest,
        }
    }
}

/// The trimmed lines that are neither blank nor a command, in input order.
pub open spec fn unrecognized_lines(ls: Seq<Seq<char>>) -> Seq<Seq<char>>
    decreases ls.len(),
{
    if ls.len() == 0 {
        Seq::empty()
    } else {
        let rest = unrecognized_lines(ls.drop_last());
        let line = trim(ls.last());
        if line.len() > 0 && line_command(line) is None {
            rest.push(line)
        } else {
            rest
        }
    }
}

/// The number of leading commands of `s` whose priority is at most `p`.
pub open spec fn count_at_most(s: Seq<CommandView>, p: u32) -> int
    decreases s.len(),
{
    if s.len() == 0 {
        0
    } else if s[0].priority() <= p {
        1 + count_at_most(s.drop_first(), p)
    } else {
        0
    }
}

/// `c` placed after every leading command of priority at most its own.
pub open spec fn insert_by_priority(s: Seq<CommandView>, c: CommandView) -> Seq<CommandView> {
    s.insert(count_at_most(s, c.priority()), c)
}

/// `s` in ascending order of priority, commands of equal priority kept in
/// their order in `s` (a stable sort).
pub open spec fn sort_by_priority(s: Seq<CommandView>) -> Seq<CommandView>
    decreases s.len(),
{
    if s.len() == 0 {
        Seq::empty()
    } else {
        insert_by_priority(sort_by_priority(s.drop_last()), s.last())
    }
}

/// The lines after the first one.
pub open spec fn body_lines(content: Seq<char>) -> Seq<Seq<char>> {
    let ls = lines(content);
    if ls.len() == 0 {
        Seq::empty()
    } else {
        ls.drop_first()
    }
}

/// The number of threads that a file declares on its first line.
pub open spec fn file_threads(content: Seq<char>) -> u32 {
    let ls = lines(content);
    if ls.len() == 0 {
        0
    } else {
        header_threads(trim(ls[0]))
    }
}

/// What a command file holds.
pub struct CommandFile {
    /// The thread count of the first line.
    pub num_threads: u32,
    /// The commands, in ascending order of priority.
    pub commands: Vec<Command>,
    /// The lines that were not commands (trimmed), in input order.
    pub unrecognized: Vec<String>,
}

// ---------------------------------------------------------------------------
// Parsing
// ---------------------------------------------------------------------------

/// The thread count that the trimmed line `cs[start..end]` declares.
fn header_threads_range(cs: &Vec<char>, start: usize, end: usize) -> (n: u32)
    requires
        start <= end <= cs@.len(),
    ensures
        n == header_threads(cs@.subrange(start as int, end as int)),
{
    let parts = split_range(cs, start, end, ',');
    if parts.len() < 2 {
        return 0;
    }
    let (a0, b0) = parts[0];
    let (a0, b0) = trim_range(cs, a0, b0);
    if !range_is_word(cs, a0, b0, "threads") {
        return 0;
    }
    let (a1, b1) = parts[1];
    let (a1, b1) = trim_range(cs, a1, b1);
    match parse_u32_range(cs, a1, b1) {
        Some(n) => n,
        None => 0,
    }
}

/// `parse_u32_or_zero` on the trimmed piece `cs[start..end]`.
fn number_or_zero(cs: &Vec<char>, start: usize, end: usize) -> (n: u32)
    requires
        start <= end <= cs@.len(),
    ensures
        n == parse_u32_or_zero(trim(cs@.subrange(start as int, end as int))),
{
    let (a, b) = trim_range(cs, start, end);
    match parse_u32_range(cs, a, b) {
        Some(n) => n,
        None => 0,
    }
}

/// The trimmed piece `cs[start..end]` of `text` as a string.
fn trimmed_string(text: &str, cs: &Vec<char>, start: usize, end: usize) -> (s: String)
    requires
        text@ == cs@,
        start <= end <= cs@.len(),
    ensures
        s@ == trim(cs@.subrange(start as int, end as int)),
{
    let (a, b) = trim_range(cs, start, end);
    text.substring_char(a, b).to_owned()
}

/// The command that the trimmed line `cs[start..end]` of `text` describes.
fn parse_line(text: &str, cs: &Vec<char>, start: usize, end: usize) -> (r: Option<Command>)
    requires
        text@ == cs@,
        start <= end <= cs@.len(),
    ensures
        match r {
            Some(c) => line_command(cs@.subrange(start as int, end as int)) == Some(c@),
            None => line_command(cs@.subrange(start as int, end as int)) is None,
        },
{
    let ghost line = cs@.subrange(start as int, end as int);
    proof { lemma_split_nonempty(line, ','); }
    let parts = split_range(cs, start, end, ',');
    let n = parts.len();
    let (v0, v1) = parts[0];
    let (v0, v1) = trim_range(cs, v0, v1);
    let (l0, l1) = parts[n - 1];
    let priority = number_or_zero(cs, l0, l1);
    if range_is_word(cs, v0, v1, "insert") && n >= 4 {
        let (n0, n1) = parts[1];
        let (s0, s1) = parts[n - 2];
        let name = trimmed_string(text, cs, n0, n1);
        let salary = number_or_zero(cs, s0, s1);
        Some(Command::Insert { name, salary, priority })
    } else if range_is_word(cs, v0, v1, "delete") && n >= 3 {
        let (n0, n1) = parts[1];
        let name = trimmed_string(text, cs, n0, n1);
        Some(Command::Delete { name, priority })
    } else if range_is_word(cs, v0, v1, "update") && n >= 4 {
        let (n0, n1) = parts[1];
        let (s0, s1) = parts[n - 2];
        let name = trimmed_string(text, cs, n0, n1);
        let salary = number_or_zero(cs, s0, s1);
        Some(Command::Update { name, salary, priority })
    } else if range_is_word(cs, v0, v1, "search") && n >= 3 {
        let (n0, n1) = parts[1];
        let name = trimmed_string(text, cs, n0, n1);
        Some(Command::Search { name, priority })
    } else if range_is_word(cs, v0, v1, "print") && n >= 2 {
        Some(Command::Print { priority })
    } else {
        None
    }
}

/// Where a command of priority `p` goes: after every leading command of
/// priority at most `p`.
fn position_after(commands: &Vec<Command>, p: u32) -> (i: usize)
    ensures
        i == count_at_most(views(commands@), p),
        i <= commands@.len(),
{
    let ghost s = views(commands@);
    let mut i: usize = 0;
    assert(s.skip(0) =~= s);
    while i < commands.len()
        invariant
            i <= commands@.len(),
            s == views(commands@),
            count_at_most(s, p) == i + count_at_most(s.skip(i as int), p),
        decreases commands@.len() - i,
    {
        let ghost rest = s.skip(i as int);
        assert(rest[0] == commands@[i as int]@);
        if commands[i].priority() > p {
            return i;
        }
        assert(rest.drop_first() =~= s.skip(i + 1));
        i = i + 1;
    }
    proof {
        assert(s.skip(i as int).len() == 0);
    }
    i
}

/// Parses the text of a command file: the thread count of its first line,
/// the commands of the other lines in ascending order of priority (a stable
/// sort), and the lines that are neither blank nor commands.
pub fn parse_commands_text(content: &str) -> (f: CommandFile)
    ensures
        f.num_threads == file_threads(content@),
        views(f.commands@) == sort_by_priority(parsed_commands(body_lines(content@))),
        sorted_by_priority(views(f.commands@)),
        string_views(f.unrecognized@) == unrecognized_lines(body_lines(content@)),
{
    let cs = chars_of(content);
    let ls = line_ranges(&cs);
    let ghost all = lines(cs@);
    let ghost body = body_lines(cs@);
    let mut num_threads: u32 = 0;
    if ls.len() > 0 {
        let (a, b) = ls[0];
        let (a, b) = trim_range(&cs, a, b);
        num_threads = header_threads_range(&cs, a, b);
    }
    let mut commands: Vec<Command> = Vec::new();
    let mut unrecognized: Vec<String> = Vec::new();
    let mut k: usize = 1;
    proof {
        if ls@.len() > 0 {
            assert(body.take(0) =~= Seq::<Seq<char>>::empty());
        }
        assert(views(commands@) =~= Seq::<CommandView>::empty());
        assert(string_views(unrecognized@) =~= Seq::<Seq<char>>::empty());
    }
    while k < ls.len()
        invariant
            content@ == cs@,
            all == lines(cs@),
            body == body_lines(cs@),
            ls@.len() == all.len(),
            forall|j: int|
                0 <= j < ls@.len() ==> {
                    &&& (#[trigger] ls@[j]).0 <= ls@[j].1 <= cs@.len()
                    &&& cs@.subrange(ls@[j].0 as int, ls@[j].1 as int) == all[j]
                },
            1 <= k,
            ls@.len() > 0 ==> k <= ls@.len(),
            ls@.len() > 0 ==> views(commands@) == sort_by_priority(
                parsed_commands(body.take(k - 1)),
            ),
            ls@.len() > 0 ==> string_views(unrecognized@) == unrecognized_lines(
                body.take(k - 1),
            ),
            ls@.len() == 0 ==> commands@.len() == 0 && unrecognized@.len() == 0,
        decreases ls@.len() - k,
    {
        let (a, b) = ls[k];
        let ghost prefix = body.take(k - 1);
        let ghost next = body.take(k as int);
        assert(next.drop_last() =~= prefix);
        assert(next.last() == all[k as int]);
        let (a, b) = trim_range(&cs, a, b);
        let ghost line = cs@.subrange(a as int, b as int);
        assert(line == trim(next.last()));
        if a < b {
            match parse_line(content, &cs, a, b) {
                Some(c) => {
                    let pos = position_after(&commands, c.priority());
                    let ghost before = views(commands@);
                    commands.insert(pos, c);
                    assert(views(commands@) =~= before.insert(pos as int, c@));
                    assert(parsed_commands(next) == parsed_commands(prefix).push(c@));
                    assert(parsed_commands(prefix).push(c@).drop_last() =~= parsed_commands(
                        prefix,
                    ));
                    assert(unrecognized_lines(next) == unrecognized_lines(prefix));
                },
                None => {
                    let ghost before = string_views(unrecognized@);
                    unrecognized.push(content.substring_char(a, b).to_owned());
                    assert(string_views(unrecognized@) =~= before.push(line));
                    assert(parsed_commands(next) == parsed_commands(prefix));
                },
            }
        } else {
            proof {
                let line = cs@.subrange(a as int, b as int);
                assert(line.len() == 0);
                lemma_split_nonempty(line, ',');
                assert(split(line, ',') =~= seq![Seq::<char>::empty()]);
                assert(trim(Seq::<char>::empty()) =~= Seq::<char>::empty());
            }
        }
        k = k + 1;
    }
    proof {
        if ls@.len() > 0 {
            assert(body.take(k - 1) =~= body);
        } else {
            assert(body =~= Seq::<Seq<char>>::empty());
            assert(views(commands@) =~= Seq::<CommandView>::empty());
            assert(string_views(unrecognized@) =~= Seq::<Seq<char>>::empty());
        }
    }
    proof { law_sort_by_priority(parsed_commands(body)); }
    CommandFile { num_threads, commands, unrecognized }
}

// ---------------------------------------------------------------------------
// Laws of a line
// ---------------------------------------------------------------------------

/// Every command takes its fields from the same places of its line, split
/// at commas: the verb, in any letter case, from the first field; the name
/// from the whole second field, trimmed; the salary from the second field
/// from the end; the priority from the last field. A line whose verb and
/// number of fields match no command gives none.
pub proof fn law_line_command_fields(l: Seq<char>)
    ensures
        ({
            let parts = split(l, ',');
            let verb = trim(parts[0]);
            match line_command(l) {
                Some(c) => {
                    &&& c.priority() == parse_u32_or_zero(trim(parts.last()))
                    &&& match c {
                        CommandView::Insert { name, salary, .. } => {
                            &&& lowers_to_word(verb, "insert"@)
                            &&& parts.len() >= 4
                            &&& name == trim(parts[1])
                            &&& salary == parse_u32_or_zero(trim(parts[parts.len() - 2]))
                        },
                        CommandView::Delete { name, .. } => {
                            &&& lowers_to_word(verb, "delete"@)
                            &&& parts.len() >= 3
                            &&& name == trim(parts[1])
                        },
                        CommandView::Update { name, salary, .. } => {
                            &&& lowers_to_word(verb, "update"@)
                            &&& parts.len() >= 4
                            &&& name == trim(parts[1])
                            &&& salary == parse_u32_or_zero(trim(parts[parts.len() - 2]))
                        },
                        CommandView::Search { name, .. } => {
                            &&& lowers_to_word(verb, "search"@)
                            &&& parts.len() >= 3
                            &&& name == trim(parts[1])
                        },
                        CommandView::Print { .. } => {
                            &&& lowers_to_word(verb, "print"@)
                            &&& parts.len() >= 2
                        },
                    }
                },
                None => {
                    &&& !(lowers_to_word(verb, "insert"@) && parts.len() >= 4)
                    &&& !(lowers_to_word(verb, "delete"@) && parts.len() >= 3)
                    &&& !(lowers_to_word(verb, "update"@) && parts.len() >= 4)
                    &&& !(lowers_to_word(verb, "search"@) && parts.len() >= 3)
                    &&& !(lowers_to_word(verb, "print"@) && parts.len() >= 2)
                },
            }
        }),
{
}

/// A decimal form is its own trim, holds no comma, and reads back as its value.
proof fn lemma_number_field(n: u32)
    ensures
        trim(decimal(n as nat)) == decimal(n as nat),
        free_of(decimal(n as nat), ','),
        parse_u32_or_zero(trim(decimal(n as nat))) == n,
{
    law_decimal_reads_back(n as nat);
    let d = decimal(n as nat);
    assert(!is_space(d[0]) && !is_space(d.last()));
    lemma_trim_unchanged(d);
}

/// A lowercase word is its own trim, holds no comma, and matches itself.
proof fn lemma_word_field(w: Seq<char>)
    requires
        w.len() > 0,
        forall|i: int| 0 <= i < w.len() ==> 'a' <= #[trigger] w[i] <= 'z',
    ensures
        trim(w) == w,
        free_of(w, ','),
        lowers_to_word(w, w),
{
    assert(!is_space(w[0]) && !is_space(w.last()));
    lemma_trim_unchanged(w);
}

/// Writing a command as a line of the file and reading the line back gives
/// the command: `insert,<name>,<salary>,<priority>`,
/// `delete,<name>,<any>,<priority>`, `update,<name>,<salary>,<priority>`,
/// `search,<name>,<any>,<priority>` and `print,<any>,<any>,<priority>`, for a
/// name that holds no comma and has no white space at its ends; and a first
/// line `threads,<count>,<any>` declares that count.
pub proof fn law_written_line_reads_back(name: Seq<char>, salary: u32, priority: u32, any: u32)
    requires
        free_of(name, ','),
        trim(name) == name,
    ensures
        line_command(join(seq!["insert"@, name, decimal(salary as nat), decimal(priority as nat)], ','))
            == Some(CommandView::Insert { name, salary, priority }),
        line_command(join(seq!["delete"@, name, decimal(any as nat), decimal(priority as nat)], ','))
            == Some(CommandView::Delete { name, priority }),
        line_command(join(seq!["update"@, name, decimal(salary as nat), decimal(priority as nat)], ','))
            == Some(CommandView::Update { name, salary, priority }),
        line_command(join(seq!["search"@, name, decimal(any as nat), decimal(priority as nat)], ','))
            == Some(CommandView::Search { name, priority }),
        line_command(
            join(seq!["print"@, decimal(any as nat), decimal(any as nat), decimal(priority as nat)], ','),
        ) == Some(CommandView::Print { priority }),
        header_threads(join(seq!["threads"@, decimal(salary as nat), decimal(any as nat)], ','))
            == salary,
{
    reveal_strlit("insert");
    reveal_strlit("delete");
    reveal_strlit("update");
    reveal_strlit("search");
    reveal_strlit("print");
    reveal_strlit("threads");
    lemma_word_field("insert"@);
    lemma_word_field("delete"@);
    lemma_word_field("update"@);
    lemma_word_field("search"@);
    lemma_word_field("print"@);
    lemma_word_field("threads"@);
    lemma_number_field(salary);
    lemma_number_field(priority);
    lemma_number_field(any);
    let ds = decimal(salary as nat);
    let dp = decimal(priority as nat);
    let da = decimal(any as nat);
    let ins = seq!["insert"@, name, ds, dp];
    let del = seq!["delete"@, name, da, dp];
    let upd = seq!["update"@, name, ds, dp];
    let sea = seq!["search"@, name, da, dp];
    let pri = seq!["print"@, da, da, dp];
    let thr = seq!["threads"@, ds, da];
    assert forall|k: int| 0 <= k < 4 implies free_of(#[trigger] ins[k], ',') by {}
    assert forall|k: int| 0 <= k < 4 implies free_of(#[trigger] del[k], ',') by {}
    assert forall|k: int| 0 <= k < 4 implies free_of(#[trigger] upd[k], ',') by {}
    assert forall|k: int| 0 <= k < 4 implies free_of(#[trigger] sea[k], ',') by {}
    assert forall|k: int| 0 <= k < 4 implies free_of(#[trigger] pri[k], ',') by {}
    assert forall|k: int| 0 <= k < 3 implies free_of(#[trigger] thr[k], ',') by {}
    lemma_split_join(ins, ',');
    lemma_split_join(del, ',');
    lemma_split_join(upd, ',');
    lemma_split_join(sea, ',');
    lemma_split_join(pri, ',');
    lemma_split_join(thr, ',');
    assert(!lowers_to_word("insert"@, "delete"@)) by {
        assert(!lowers_to("insert"@[0], "delete"@[0]));
    }
    assert(!lowers_to_word("update"@, "insert"@)) by {
        assert(!lowers_to("update"@[0], "insert"@[0]));
    }
    assert(!lowers_to_word("update"@, "delete"@)) by {
        assert(!lowers_to("update"@[0], "delete"@[0]));
    }
    assert(!lowers_to_word("search"@, "insert"@)) by {
        assert(!lowers_to("search"@[0], "insert"@[0]));
    }
    assert(!lowers_to_word("search"@, "delete"@)) by {
        assert(!lowers_to("search"@[0], "delete"@[0]));
    }
    assert(!lowers_to_word("search"@, "update"@)) by {
        assert(!lowers_to("search"@[0], "update"@[0]));
    }
    assert(!lowers_to_word("print"@, "insert"@));
    assert(!lowers_to_word("print"@, "delete"@));
    assert(!lowers_to_word("print"@, "update"@));
    assert(!lowers_to_word("print"@, "search"@));
}

/// A file is read line by line: its first line declares the thread count
/// and is never a command; each later line adds its command, if it has one,
/// after those of the lines before it, or else, unless blank, adds itself to
/// the unrecognized lines.
pub proof fn law_file_read_line_by_line(content: Seq<char>, ls: Seq<Seq<char>>, l: Seq<char>)
    ensures
        parsed_commands(Seq::<Seq<char>>::empty()) == Seq::<CommandView>::empty(),
        parsed_commands(ls.push(l)) == match line_command(trim(l)) {
            Some(c) => parsed_commands(ls).push(c),
            None => parsed_commands(ls),
        },
        unrecognized_lines(Seq::<Seq<char>>::empty()) == Seq::<Seq<char>>::empty(),
        unrecognized_lines(ls.push(l)) == if trim(l).len() > 0 && line_command(trim(l)) is None {
            unrecognized_lines(ls).push(trim(l))
        } else {
            unrecognized_lines(ls)
        },
        lines(content).len() > 0 ==> body_lines(content) == lines(content).drop_first()
            && file_threads(content) == header_threads(trim(lines(content)[0])),
        lines(content).len() == 0 ==> body_lines(content).len() == 0 && file_threads(content)
            == 0,
{
    assert(ls.push(l).drop_last() =~= ls);
}

// ---------------------------------------------------------------------------
// Laws of the ordering
// ---------------------------------------------------------------------------

/// The priorities never decrease along `s`.
pub open spec fn sorted_by_priority(s: Seq<CommandView>) -> bool {
    forall|i: int, j: int|
        0 <= i <= j < s.len() ==> #[trigger] s[i].priority() <= #[trigger] s[j].priority()
}

/// The commands of `s` with priority `p`, in their order in `s`.
pub open spec fn with_priority(s: Seq<CommandView>, p: u32) -> Seq<CommandView> {
    s.filter(|c: CommandView| c.priority() == p)
}

/// On a sorted sequence, `count_at_most` splits the priorities at most `p`
/// from the greater ones.
proof fn lemma_count_at_most(s: Seq<CommandView>, p: u32)
    requires
        sorted_by_priority(s),
    ensures
        0 <= count_at_most(s, p) <= s.len(),
        forall|j: int| 0 <= j < count_at_most(s, p) ==> #[trigger] s[j].priority() <= p,
        forall|j: int| count_at_most(s, p) <= j < s.len() ==> #[trigger] s[j].priority() > p,
    decreases s.len(),
{
    if s.len() > 0 && s[0].priority() <= p {
        let t = s.drop_first();
        assert(sorted_by_priority(t)) by {
            assert forall|i: int, j: int| 0 <= i <= j < t.len() implies #[trigger] t[i].priority()
                <= #[trigger] t[j].priority() by {
                assert(t[i] == s[i + 1] && t[j] == s[j + 1]);
            }
        }
        lemma_count_at_most(t, p);
        assert forall|j: int| 0 <= j < count_at_most(s, p) implies #[trigger] s[j].priority()
            <= p by {
            if j > 0 {
                assert(s[j] == t[j - 1]);
            }
        }
        assert forall|j: int| count_at_most(s, p) <= j < s.len() implies #[trigger] s[j].priority()
            > p by {
            assert(s[j] == t[j - 1]);
        }
    } else if s.len() > 0 {
        assert forall|j: int| 0 <= j < s.len() implies #[trigger] s[j].priority() > p by {
            assert(s[0].priority() <= s[j].priority());
        }
    }
}

/// A sequence none of whose commands has priority `p` has none to filter out.
proof fn lemma_none_with_priority(s: Seq<CommandView>, p: u32)
    requires
        forall|j: int| 0 <= j < s.len() ==> #[trigger] s[j].priority() != p,
    ensures
        with_priority(s, p) == Seq::<CommandView>::empty(),
{
    let f = with_priority(s, p);
    if f.len() > 0 {
        let pred = |c: CommandView| c.priority() == p;
        s.lemma_filter_pred(pred, 0);
        assert(f.contains(f[0]));
        s.lemma_filter_contains_rev(pred, f[0]);
        let j = choose|j: int| 0 <= j < s.len() && s[j] == f[0];
        assert(s[j].priority() != p);
    }
    assert(f =~= Seq::<CommandView>::empty());
}

/// The ordering of the commands: the result is in ascending order of
/// priority, holds the same commands as many times each, and keeps the
/// commands of each priority in their input order.
pub proof fn law_sort_by_priority(s: Seq<CommandView>)
    ensures
        sorted_by_priority(sort_by_priority(s)),
        sort_by_priority(s).to_multiset() == s.to_multiset(),
        forall|p: u32| #[trigger] with_priority(sort_by_priority(s), p) == with_priority(s, p),
    decreases s.len(),
{
    broadcast use vstd::seq_lib::group_to_multiset_ensures;

    if s.len() == 0 {
        assert(sort_by_priority(s) =~= s);
    } else {
        let s0 = s.drop_last();
        let x = s.last();
        law_sort_by_priority(s0);
        let t = sort_by_priority(s0);
        let c = count_at_most(t, x.priority());
        lemma_count_at_most(t, x.priority());
        let r = t.insert(c, x);
        assert(r == sort_by_priority(s));
        assert(s0.push(x) =~= s);
        // in order
        assert forall|i: int, j: int| 0 <= i <= j < r.len() implies #[trigger] r[i].priority()
            <= #[trigger] r[j].priority() by {
            let i2 = if i < c { i } else { i - 1 };
            let j2 = if j < c { j } else { j - 1 };
            if i != c {
                assert(r[i] == t[i2]);
            }
            if j != c {
                assert(r[j] == t[j2]);
            }
        }
        // the same commands
        vstd::seq_lib::to_multiset_insert(t, c, x);
        vstd::seq_lib::to_multiset_build(s0, x);
        // stable
        assert forall|p: u32| #[trigger] with_priority(r, p) == with_priority(s, p) by {
            let pred = |cv: CommandView| cv.priority() == p;
            let a = t.take(c);
            let b = t.skip(c);
            assert(r =~= a.push(x) + b);
            assert(t =~= a + b);
            Seq::filter_distributes_over_add(a.push(x), b, pred);
            Seq::filter_distributes_over_add(a, b, pred);
            a.lemma_filter_push(x, pred);
            s0.lemma_filter_push(x, pred);
            if x.priority() == p {
                assert forall|j: int| 0 <= j < b.len() implies #[trigger] b[j].priority() != p by {
                    assert(b[j] == t[c + j]);
                }
                lemma_none_with_priority(b, p);
                assert(with_priority(r, p) =~= with_priority(t, p).push(x));
            } else {
                assert(with_priority(r, p) =~= with_priority(t, p));
            }
        }
    }
}

} // verus!

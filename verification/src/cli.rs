//! The client's command language: one command per input line.

use vstd::prelude::*;
use crate::seqs::{chars_equal, copy_all};
use crate::text::{
    chars_of, is_white_space, split_words, trim, trim_chars, trim_end, trim_start, word_scan, words,
    words_view,
};

verus! {

/// The interactive command line of the client.
pub struct Cli;

/// Whether `c` is an ASCII decimal digit.
pub open spec fn is_digit(c: char) -> bool {
    '0' <= c <= '9'
}

/// The number that the decimal digits `s` spell.
pub open spec fn digits_value(s: Seq<char>) -> nat
    decreases s.len(),
{
    if s.len() == 0 {
        0
    } else {
        digits_value(s.drop_last()) * 10 + ((s.last() as u32) - 48) as nat
    }
}

/// `s` without a leading `+`.
pub open spec fn unsigned_digits(s: Seq<char>) -> Seq<char> {
    if s.len() > 0 && s[0] == '+' {
        s.drop_first()
    } else {
        s
    }
}

/// How `str::parse::<u64>` reads `s`: an optional `+` and then one or more
/// ASCII digits whose value fits in 64 bits; anything else is refused.
pub open spec fn parse_u64(s: Seq<char>) -> Option<u64> {
    let d = unsigned_digits(s);
    if d.len() > 0 && (forall|i: int| 0 <= i < d.len() ==> is_digit(#[trigger] d[i])) && digits_value(d)
        <= u64::MAX {
        Some(digits_value(d) as u64)
    } else {
        None
    }
}

/// Adding digits never lowers the value.
proof fn lemma_digits_value_grows(s: Seq<char>, i: int)
    requires
        0 <= i <= s.len(),
        forall|j: int| 0 <= j < s.len() ==> is_digit(#[trigger] s[j]),
    ensures
        digits_value(s.take(i)) <= digits_value(s),
    decreases s.len(),
{
    if i < s.len() {
        assert(s.drop_last().take(i) =~= s.take(i));
        lemma_digits_value_grows(s.drop_last(), i);
    } else {
        assert(s.take(i) =~= s);
    }
}

/// Reads a count as `str::parse::<u64>` does.
pub fn parse_count(s: &Vec<char>) -> (r: Option<u64>)
    ensures
        r == parse_u64(s@),
{
    let start: usize = if s.len() > 0 && s[0] == '+' { 1 } else { 0 };
    let ghost d = unsigned_digits(s@);
    assert(d =~= s@.subrange(start as int, s.len() as int));
    if start >= s.len() {
        return None;
    }
    let mut acc: u64 = 0;
    let mut i: usize = start;
    while i < s.len()
        invariant
            start <= i <= s.len(),
            d == s@.subrange(start as int, s.len() as int),
            d == unsigned_digits(s@),
            forall|j: int| start <= j < i ==> is_digit(#[trigger] s@[j]),
            acc == digits_value(d.take(i - start)),
        decreases s.len() - i,
    {
        let c = s[i];
        assert(d[i - start] == c);
        if !('0' <= c && c <= '9') {
            assert(!is_digit(d[i - start]));
            assert(!(forall|j: int| 0 <= j < d.len() ==> is_digit(#[trigger] d[j])));
            return None;
        }
        let digit = (c as u32 - 48) as u64;
        assert(d.take(i - start + 1).drop_last() =~= d.take(i - start));
        let next = match acc.checked_mul(10) {
            None => None,
            Some(m) => m.checked_add(digit),
        };
        match next {
            None => {
                proof {
                    let t = d.take(i - start + 1);
                    assert(t.last() == c);
                    assert(digits_value(t) == acc * 10 + digit);
                    if forall|j: int| 0 <= j < d.len() ==> is_digit(#[trigger] d[j]) {
                        lemma_digits_value_grows(d, i - start + 1);
                    }
                }
                return None;
            },
            Some(v) => {
                acc = v;
            },
        }
        i = i + 1;
    }
    assert(d.take(s.len() - start) =~= d);
    Some(acc)
}


/// A command read from one input line.
pub enum CliCommand {
    /// A blank line: read the next one.
    Skip,
    /// `exit`: stop reading.
    Exit,
    /// `topic <name> <partitions>`: create a topic.
    CreateTopic { topic: Vec<char>, partition_no: u64 },
    /// `insert <topic> <key> <value>`: append a record; the key `-` means
    /// no key.
    Insert { topic: Vec<char>, key: Option<Vec<char>>, value: Vec<char> },
    /// `topic` with other than two arguments.
    TopicUsage,
    /// `insert` with other than three arguments.
    InsertUsage,
    /// `topic` whose partition count is not a 64-bit unsigned number.
    InvalidPartitionCount,
    /// A first word that names no command.
    Unknown { command: Vec<char> },
}

/// The mathematical value of a `CliCommand`.
pub enum CliCommandView {
    Skip,
    Exit,
    CreateTopic { topic: Seq<char>, partition_no: u64 },
    Insert { topic: Seq<char>, key: Option<Seq<char>>, value: Seq<char> },
    TopicUsage,
    InsertUsage,
    InvalidPartitionCount,
    Unknown { command: Seq<char> },
}

impl View for CliCommand {
    type V = CliCommandView;

    open spec fn view(&self) -> CliCommandView {
        match self {
            CliCommand::Skip => CliCommandView::Skip,
            CliCommand::Exit => CliCommandView::Exit,
            CliCommand::CreateTopic { topic, partition_no } => CliCommandView::CreateTopic {
                topic: topic@,
                partition_no: *partition_no,
            },
            CliCommand::Insert { topic, key, value } => CliCommandView::Insert {
                topic: topic@,
                key: match key {
                    Some(k) => Some(k@),
                    None => None,
                },
                value: value@,
            },
            CliCommand::TopicUsage => CliCommandView::TopicUsage,
            CliCommand::InsertUsage => CliCommandView::InsertUsage,
            CliCommand::InvalidPartitionCount => CliCommandView::InvalidPartitionCount,
            CliCommand::Unknown { command } => CliCommandView::Unknown { command: command@ },
        }
    }
}

/// The word `exit`.
pub open spec fn exit_word() -> Seq<char> {
    seq!['e', 'x', 'i', 't']
}

/// The word `topic`.
pub open spec fn topic_word() -> Seq<char> {
    seq!['t', 'o', 'p', 'i', 'c']
}

/// The word `insert`.
pub open spec fn insert_word() -> Seq<char> {
    seq!['i', 'n', 's', 'e', 'r', 't']
}

/// The word `-`, which stands for no key.
pub open spec fn no_key_word() -> Seq<char> {
    seq!['-']
}

/// The command that the input line `line` gives: the line is trimmed; a
/// blank line is skipped, `exit` stops, and otherwise the first word
/// selects the command and the words after it are its arguments.
pub open spec fn read_command(line: Seq<char>) -> CliCommandView {
    let input = trim(line);
    let parts = words(input);
    if input.len() == 0 {
        CliCommandView::Skip
    } else if input == exit_word() {
        CliCommandView::Exit
    } else if parts[0] == topic_word() {
        if parts.len() != 3 {
            CliCommandView::TopicUsage
        } else {
            match parse_u64(parts[2]) {
                None => CliCommandView::InvalidPartitionCount,
                Some(n) => CliCommandView::CreateTopic { topic: parts[1], partition_no: n },
            }
        }
    } else if parts[0] == insert_word() {
        if parts.len() != 4 {
            CliCommandView::InsertUsage
        } else {
            CliCommandView::Insert {
                topic: parts[1],
                key: if parts[2] == no_key_word() {
                    None
                } else {
                    Some(parts[2])
                },
                value: parts[3],
            }
        }
    } else {
        CliCommandView::Unknown { command: parts[0] }
    }
}

/// A line with a character that is not whitespace has a word.
proof fn lemma_words_nonempty(s: Seq<char>, k: int)
    requires
        0 <= k < s.len(),
        !is_white_space(s[k]),
    ensures
        words(s).len() > 0,
        word_scan(s).0.len() > 0 || word_scan(s).1.len() > 0,
    decreases s.len(),
{
    if k < s.len() - 1 {
        lemma_words_nonempty(s.drop_last(), k);
    }
}

/// A trimmed line that is not empty starts with a character that is not
/// whitespace.
proof fn lemma_trimmed_starts_with_word(s: Seq<char>)
    ensures
        trim(s).len() > 0 ==> !is_white_space(trim(s)[0]),
    decreases s.len(),
{
    lemma_trim_start_first(s);
    lemma_trim_end_keeps_first(trim_start(s));
}

/// What `trim_start` leaves does not start with whitespace.
proof fn lemma_trim_start_first(s: Seq<char>)
    ensures
        trim_start(s).len() > 0 ==> !is_white_space(trim_start(s)[0]),
    decreases s.len(),
{
    if s.len() > 0 && is_white_space(s[0]) {
        lemma_trim_start_first(s.drop_first());
    }
}

/// `trim_end` keeps the first character of what it does not empty.
proof fn lemma_trim_end_keeps_first(s: Seq<char>)
    ensures
        trim_end(s).len() > 0 ==> trim_end(s)[0] == s[0],
        trim_end(s).len() <= s.len(),
    decreases s.len(),
{
    if s.len() > 0 && is_white_space(s.last()) {
        lemma_trim_end_keeps_first(s.drop_last());
    }
}

impl Cli {
    /// Reads the command on one input line.
    pub fn parse_line(line: &str) -> (r: CliCommand)
        ensures
            r@ == read_command(line@),
    {
        let chars = chars_of(line);
        let input = trim_chars(&chars);
        if input.len() == 0 {
            return CliCommand::Skip;
        }
        let exit_w: [char; 4] = ['e', 'x', 'i', 't'];
        assert(exit_w@ =~= exit_word());
        if chars_equal(input.as_slice(), &exit_w) {
            return CliCommand::Exit;
        }
        let parts = split_words(&input);
        proof {
            lemma_trimmed_starts_with_word(line@);
            lemma_words_nonempty(input@, 0);
        }
        let ghost ps = words_view(parts@);
        assert(ps.len() == parts.len());
        assert(forall|i: int| 0 <= i < parts.len() ==> #[trigger] ps[i] == parts@[i]@);
        let topic_w: [char; 5] = ['t', 'o', 'p', 'i', 'c'];
        let insert_w: [char; 6] = ['i', 'n', 's', 'e', 'r', 't'];
        let dash_w: [char; 1] = ['-'];
        assert(topic_w@ =~= topic_word());
        assert(insert_w@ =~= insert_word());
        assert(dash_w@ =~= no_key_word());
        if chars_equal(parts[0].as_slice(), &topic_w) {
            if parts.len() != 3 {
                return CliCommand::TopicUsage;
            }
            match parse_count(&parts[2]) {
                None => CliCommand::InvalidPartitionCount,
                Some(n) => CliCommand::CreateTopic { topic: copy_all(parts[1].as_slice()), partition_no: n },
            }
        } else if chars_equal(parts[0].as_slice(), &insert_w) {
            if parts.len() != 4 {
                return CliCommand::InsertUsage;
            }
            let key = if chars_equal(parts[2].as_slice(), &dash_w) {
                None
            } else {
                Some(copy_all(parts[2].as_slice()))
            };
            CliCommand::Insert { topic: copy_all(parts[1].as_slice()), key, value: copy_all(parts[3].as_slice()) }
        } else {
            CliCommand::Unknown { command: copy_all(parts[0].as_slice()) }
        }
    }
}

/// A run without whitespace scans as one word being read.
proof fn lemma_word_scan_no_white_space(s: Seq<char>)
    requires
        forall|k: int| 0 <= k < s.len() ==> !is_white_space(#[trigger] s[k]),
    ensures
        word_scan(s) == (Seq::<Seq<char>>::empty(), s),
    decreases s.len(),
{
    if s.len() > 0 {
        lemma_word_scan_no_white_space(s.drop_last());
        assert(s.drop_last().push(s.last()) =~= s);
    }
}

/// A line that is exactly `exit`, once trimmed, has the single word `exit`.
proof fn lemma_words_of_exit()
    ensures
        words(exit_word()) == seq![exit_word()],
{
    let e = exit_word();
    assert forall|k: int| 0 <= k < e.len() implies !is_white_space(#[trigger] e[k]) by {
        assert(e[k] == 'e' || e[k] == 'x' || e[k] == 'i' || e[k] == 't');
    }
    lemma_word_scan_no_white_space(e);
    assert(Seq::<Seq<char>>::empty().push(e) =~= seq![e]);
}

/// The words of a line that is empty once trimmed: none.
proof fn lemma_words_of_empty(s: Seq<char>)
    requires
        s.len() == 0,
    ensures
        words(s).len() == 0,
{
}

/// A line whose words start with `word` and that is not blank is neither
/// skipped nor taken for `exit`, unless that word is `exit`.
proof fn lemma_command_line_not_blank(line: Seq<char>)
    requires
        words(trim(line)).len() > 0,
        words(trim(line))[0] != seq!['e', 'x', 'i', 't'],
    ensures
        trim(line).len() != 0,
        trim(line) != exit_word(),
{
    if trim(line).len() == 0 {
        lemma_words_of_empty(trim(line));
    }
    if trim(line) == exit_word() {
        lemma_words_of_exit();
    }
}

/// `insert` takes exactly three arguments: a line whose words are
/// `insert T K V` appends the value `V` (the fourth word) to topic `T`,
/// under no key when `K` is `-` and under key `K` otherwise.
pub proof fn lemma_insert_command(line: Seq<char>)
    requires
        words(trim(line)).len() == 4,
        words(trim(line))[0] == seq!['i', 'n', 's', 'e', 'r', 't'],
    ensures
        ({
            let w = words(trim(line));
            read_command(line) == CliCommandView::Insert {
                topic: w[1],
                key: if w[2] == seq!['-'] {
                    None
                } else {
                    Some(w[2])
                },
                value: w[3],
            }
        }),
{
    lemma_command_line_not_blank(line);
    assert(seq!['i', 'n', 's', 'e', 'r', 't'] != seq!['t', 'o', 'p', 'i', 'c']) by {
        assert(seq!['i', 'n', 's', 'e', 'r', 't'].len() != seq!['t', 'o', 'p', 'i', 'c'].len());
    }
    assert(seq!['i', 'n', 's', 'e', 'r', 't'] != seq!['e', 'x', 'i', 't']) by {
        assert(seq!['i', 'n', 's', 'e', 'r', 't'].len() != seq!['e', 'x', 'i', 't'].len());
    }
}

/// An `insert` line with other than three arguments (two, four, ...) only
/// shows how to use `insert`.
pub proof fn lemma_insert_usage(line: Seq<char>)
    requires
        words(trim(line)).len() > 0,
        words(trim(line)).len() != 4,
        words(trim(line))[0] == seq!['i', 'n', 's', 'e', 'r', 't'],
    ensures
        read_command(line) == CliCommandView::InsertUsage,
{
    assert(seq!['i', 'n', 's', 'e', 'r', 't'] != seq!['e', 'x', 'i', 't']) by {
        assert(seq!['i', 'n', 's', 'e', 'r', 't'].len() != seq!['e', 'x', 'i', 't'].len());
    }
    lemma_command_line_not_blank(line);
    assert(seq!['i', 'n', 's', 'e', 'r', 't'] != seq!['t', 'o', 'p', 'i', 'c']) by {
        assert(seq!['i', 'n', 's', 'e', 'r', 't'].len() != seq!['t', 'o', 'p', 'i', 'c'].len());
    }
}

/// `topic` takes exactly two arguments: a line whose words are `topic T N`
/// creates topic `T` with `N` partitions when `N` reads as a 64-bit
/// count, and reports an invalid count otherwise; with any other number of
/// arguments it only shows how to use `topic`.
pub proof fn lemma_topic_command(line: Seq<char>)
    requires
        words(trim(line)).len() > 0,
        words(trim(line))[0] == seq!['t', 'o', 'p', 'i', 'c'],
    ensures
        ({
            let w = words(trim(line));
            read_command(line) == if w.len() != 3 {
                CliCommandView::TopicUsage
            } else {
                match parse_u64(w[2]) {
                    Some(n) => CliCommandView::CreateTopic { topic: w[1], partition_no: n },
                    None => CliCommandView::InvalidPartitionCount,
                }
            }
        }),
{
    assert(seq!['t', 'o', 'p', 'i', 'c'] != seq!['e', 'x', 'i', 't']) by {
        assert(seq!['t', 'o', 'p', 'i', 'c'].len() != seq!['e', 'x', 'i', 't'].len());
    }
    lemma_command_line_not_blank(line);
}

/// A count is an optional `+` and the decimal digits of a number below
/// 2^64: `parse_u64` gives that number, and refuses an empty count and any
/// other character.
pub proof fn lemma_parse_u64_digits(s: Seq<char>, v: u64)
    requires
        parse_u64(s) == Some(v),
    ensures
        s.len() > 0,
        forall|k: int| (if s[0] == '+' { 1int } else { 0int }) <= k < s.len() ==> '0' <= #[trigger] s[k] <= '9',
        s[0] == '+' ==> s.len() > 1,
        v as nat == digits_value(unsigned_digits(s)),
{
    let d = unsigned_digits(s);
    assert forall|k: int| (if s[0] == '+' { 1int } else { 0int }) <= k < s.len() implies '0' <= #[trigger] s[k] <= '9' by {
        if s[0] == '+' {
            assert(s[k] == d[k - 1]);
        } else {
            assert(s[k] == d[k]);
        }
    }
}

} // verus!

//! Parsing of downloaded lists, and the retry policy of their refresh tasks.
use crate::names::{name_from_str_labels, parse_name_from_str};
use crate::text::{trim, trim_range};
use hickory_server::proto::ProtoError;
use vstd::prelude::*;

verus! {

/// `s` without any run of leading `*.` (as `trim_start_matches("*.")` gives it).
pub open spec fn strip_wildcards(s: Seq<char>) -> Seq<char>
    decreases s.len(),
{
    if s.len() >= 2 && s[0] == '*' && s[1] == '.' {
        strip_wildcards(s.skip(2))
    } else {
        s
    }
}

/// The entry a line of a list holds: nothing for a blank line or a comment
/// (`#` first after trimming), else the trimmed line without leading `*.`.
pub open spec fn line_entry(line: Seq<char>) -> Option<Seq<char>> {
    let t = trim(line);
    if t.len() == 0 || t[0] == '#' {
        None
    } else {
        Some(strip_wildcards(t))
    }
}

pub open spec fn option_seq(o: Option<Seq<char>>) -> Seq<Seq<char>> {
    match o {
        Some(e) => seq![e],
        None => Seq::empty(),
    }
}

/// `i` is the position of the first line break of `s`.
pub open spec fn is_first_newline(s: Seq<char>, i: int) -> bool {
    &&& 0 <= i < s.len()
    &&& s[i] == '\n'
    &&& forall|j: int| 0 <= j < i ==> s[j] != '\n'
}

/// The entries of a list, in order: one per line (lines end at `\n`; a
/// trailing `\r` is whitespace and goes with the trimming).
pub open spec fn list_entries(s: Seq<char>) -> Seq<Seq<char>>
    decreases s.len(),
{
    if exists|i: int| is_first_newline(s, i) {
        let i = choose|i: int| is_first_newline(s, i);
        option_seq(line_entry(s.take(i))) + list_entries(s.skip(i + 1))
    } else {
        option_seq(line_entry(s))
    }
}

/// Every entry parses as a domain name.
pub open spec fn entries_parse(entries: Seq<Seq<char>>) -> bool {
    forall|i: int| 0 <= i < entries.len() ==> (#[trigger] name_from_str_labels(entries[i])) is Some
}

/// The labels of each entry's name, in the order of the entries.
pub open spec fn parsed_entries(entries: Seq<Seq<char>>) -> Seq<Seq<Seq<char>>> {
    entries.map_values(|e: Seq<char>| name_from_str_labels(e)->0)
}

/// A list whose entries do not all parse.
#[derive(Debug)]
pub enum ListParseError {
    /// The parser's error for an entry that is not a domain name.
    NameParse(ProtoError),
}

proof fn lemma_first_newline_unique(s: Seq<char>, i: int, k: int)
    requires
        is_first_newline(s, i),
        is_first_newline(s, k),
    ensures
        i == k,
{
    if i < k {
        assert(s[i] == '\n');
    } else if k < i {
        assert(s[k] == '\n');
    }
}

proof fn lemma_entries_step(c: Seq<char>, pos: int, e: int)
    requires
        0 <= pos <= e < c.len(),
        c[e] == '\n',
        forall|j: int| pos <= j < e ==> c[j] != '\n',
    ensures
        list_entries(c.skip(pos)) == option_seq(line_entry(c.subrange(pos, e))) + list_entries(
            c.skip(e + 1),
        ),
{
    let s = c.skip(pos);
    assert(is_first_newline(s, e - pos));
    let i = choose|i: int| is_first_newline(s, i);
    lemma_first_newline_unique(s, i, e - pos);
    assert(s.take(e - pos) =~= c.subrange(pos, e));
    assert(s.skip(e - pos + 1) =~= c.skip(e + 1));
}

proof fn lemma_entries_last(c: Seq<char>, pos: int)
    requires
        0 <= pos <= c.len(),
        forall|j: int| pos <= j < c.len() ==> c[j] != '\n',
    ensures
        list_entries(c.skip(pos)) == option_seq(line_entry(c.subrange(pos, c.len() as int))),
{
    let s = c.skip(pos);
    if exists|i: int| is_first_newline(s, i) {
        let i = choose|i: int| is_first_newline(s, i);
        assert(c[pos + i] == '\n');
    }
    assert(s =~= c.subrange(pos, c.len() as int));
}

spec fn ranges_view(c: Seq<char>, r: Seq<(usize, usize)>) -> Seq<Seq<char>> {
    r.map_values(|p: (usize, usize)| c.subrange(p.0 as int, p.1 as int))
}

spec fn ranges_in(c: Seq<char>, r: Seq<(usize, usize)>) -> bool {
    forall|k: int| 0 <= k < r.len() ==> #[trigger] r[k].0 <= r[k].1 <= c.len()
}

/// Bounds of `c[start..end]` without leading `*.` runs.
fn strip_wildcards_range(c: &Vec<char>, start: usize, end: usize) -> (a: usize)
    requires
        start <= end <= c@.len(),
    ensures
        start <= a <= end,
        c@.subrange(a as int, end as int) == strip_wildcards(c@.subrange(start as int, end as int)),
{
    let mut a = start;
    while end - a >= 2 && c[a] == '*' && c[a + 1] == '.'
        invariant
            start <= a <= end <= c@.len(),
            strip_wildcards(c@.subrange(start as int, end as int)) == strip_wildcards(
                c@.subrange(a as int, end as int),
            ),
        decreases end - a,
    {
        proof {
            assert(c@.subrange(a as int, end as int).skip(2) =~= c@.subrange(a + 2, end as int));
        }
        a = a + 2;
    }
    a
}

/// The entry of the line `c[start..end]`, as bounds within `c`.
fn line_entry_range(c: &Vec<char>, start: usize, end: usize) -> (r: Option<(usize, usize)>)
    requires
        start <= end <= c@.len(),
    ensures
        match r {
            Some(p) => p.0 <= p.1 <= c@.len() && line_entry(c@.subrange(start as int, end as int))
                == Some(c@.subrange(p.0 as int, p.1 as int)),
            None => line_entry(c@.subrange(start as int, end as int)) is None,
        },
{
    let (a, b) = trim_range(c, start, end);
    if a == b || c[a] == '#' {
        return None;
    }
    let a2 = strip_wildcards_range(c, a, b);
    Some((a2, b))
}

/// The entries of the list `c`, as bounds within `c`.
fn entry_ranges(c: &Vec<char>) -> (r: Vec<(usize, usize)>)
    ensures
        ranges_in(c@, r@),
        ranges_view(c@, r@) == list_entries(c@),
{
    let n = c.len();
    let mut pos: usize = 0;
    let mut out: Vec<(usize, usize)> = Vec::new();
    proof {
        assert(c@.skip(0) =~= c@);
    }
    loop
        invariant_except_break
            pos <= n,
            n == c@.len(),
            ranges_in(c@, out@),
            ranges_view(c@, out@) + list_entries(c@.skip(pos as int)) == list_entries(c@),
        ensures
            ranges_in(c@, out@),
            ranges_view(c@, out@) == list_entries(c@),
        decreases n - pos,
    {
        let mut e = pos;
        while e < n && c[e] != '\n'
            invariant
                pos <= e <= n,
                n == c@.len(),
                forall|j: int| pos <= j < e ==> c@[j] != '\n',
            decreases n - e,
        {
            e = e + 1;
        }
        let ghost before = ranges_view(c@, out@);
        let entry = line_entry_range(c, pos, e);
        match entry {
            Some(p) => {
                out.push(p);
            },
            None => {},
        }
        proof {
            assert(ranges_view(c@, out@) =~= before + option_seq(
                line_entry(c@.subrange(pos as int, e as int)),
            ));
        }
        if e == n {
            proof {
                lemma_entries_last(c@, pos as int);
                assert(ranges_view(c@, out@) =~= list_entries(c@));
            }
            break;
        }
        proof {
            lemma_entries_step(c@, pos as int, e as int);
            assert(ranges_view(c@, out@) + list_entries(c@.skip(e + 1)) =~= before + (option_seq(
                line_entry(c@.subrange(pos as int, e as int)),
            ) + list_entries(c@.skip(e + 1))));
        }
        pos = e + 1;
    }
    out
}

/// Parses a downloaded list: one domain per line, `#` for comments, blank
/// lines ignored, leading `*.` removed. Every entry must parse as a domain
/// name; the labels of each come back in the order of the lines.
pub fn parse_list(body: &str) -> (r: Result<Vec<Vec<String>>, ListParseError>)
    ensures
        r is Ok <==> entries_parse(list_entries(body@)),
        r matches Ok(names) ==> names.deep_view() == parsed_entries(list_entries(body@)),
{
    let c = crate::text::chars_of(body);
    let ranges = entry_ranges(&c);
    let ghost entries = list_entries(body@);
    let mut names: Vec<Vec<String>> = Vec::new();
    let mut k: usize = 0;
    while k < ranges.len()
        invariant
            c@ == body@,
            entries == list_entries(body@),
            ranges_in(c@, ranges@),
            ranges_view(c@, ranges@) == entries,
            k <= ranges@.len(),
            forall|x: int| 0 <= x < k ==> (#[trigger] name_from_str_labels(entries[x])) is Some,
            names.deep_view() == parsed_entries(entries).take(k as int),
        decreases ranges@.len() - k,
    {
        let (a, b) = ranges[k];
        proof {
            assert(ranges@[k as int].0 <= ranges@[k as int].1 <= c@.len());
            assert(entries[k as int] == c@.subrange(a as int, b as int));
        }
        let text = &c.as_slice()[a..b];
        proof {
            assert(text@ == entries[k as int]);
        }
        match parse_name_from_str(text) {
            Ok(labels) => {
                let ghost prev = names.deep_view();
                names.push(labels);
                proof {
                    assert(names.deep_view() =~= prev.push(labels.deep_view()));
                    assert(parsed_entries(entries).take(k + 1) =~= parsed_entries(entries).take(
                        k as int,
                    ).push(name_from_str_labels(entries[k as int])->0));
                }
            },
            Err(e) => {
                proof {
                    assert(name_from_str_labels(entries[k as int]) is None);
                    assert(!entries_parse(entries));
                }
                return Err(ListParseError::NameParse(e));
            },
        }
        k = k + 1;
    }
    proof {
        assert(parsed_entries(entries).take(k as int) =~= parsed_entries(entries));
    }
    Ok(names)
}

/// Consecutive failed refreshes that a refresh task retries before it gives up.
pub const DEFAULT_RETRIES: u64 = 5;

/// What a refresh task does after a refresh.
#[derive(Clone, Copy, Debug, PartialEq, Eq, Structural)]
pub enum RefreshAction {
    /// Wait for the next regular refresh.
    Wait,
    /// Retry after a minute.
    RetryAfterMinute,
    /// Stop, and report the failure.
    GiveUp,
}

/// The retry policy: a success restores the full budget of retries; a
/// failure spends one retry, or gives up when none is left.
pub open spec fn next_refresh(retries_left: u64, succeeded: bool) -> (u64, RefreshAction) {
    if succeeded {
        (DEFAULT_RETRIES, RefreshAction::Wait)
    } else if retries_left == 0 {
        (0, RefreshAction::GiveUp)
    } else {
        ((retries_left - 1) as u64, RefreshAction::RetryAfterMinute)
    }
}

/// The retry budget of a refresh task.
pub struct RetryState {
    pub retries_left: u64,
}

impl RetryState {
    pub fn new() -> (s: Self)
        ensures
            s.retries_left == DEFAULT_RETRIES,
    {
        RetryState { retries_left: DEFAULT_RETRIES }
    }

    /// Records the outcome of a refresh and says what the task does next.
    pub fn after_refresh(&mut self, succeeded: bool) -> (a: RefreshAction)
        ensures
            (final(self).retries_left, a) == next_refresh(old(self).retries_left, succeeded),
    {
        if succeeded {
            self.retries_left = DEFAULT_RETRIES;
            RefreshAction::Wait
        } else if self.retries_left == 0 {
            RefreshAction::GiveUp
        } else {
            self.retries_left = self.retries_left - 1;
            RefreshAction::RetryAfterMinute
        }
    }
}

/// The action that follows the `n`-th of a run of failures (counting from
/// 0), starting with `retries_left` retries.
pub open spec fn action_after_failures(retries_left: u64, n: nat) -> RefreshAction
    decreases n,
{
    let (left, a) = next_refresh(retries_left, false);
    if n == 0 {
        a
    } else {
        action_after_failures(left, (n - 1) as nat)
    }
}

/// A task retries as many consecutive failures as it has retries left, and
/// gives up at the next one.
pub proof fn law_failures_before_giving_up(retries_left: u64, n: nat)
    ensures
        n < retries_left ==> action_after_failures(retries_left, n) == RefreshAction::RetryAfterMinute,
        n == retries_left ==> action_after_failures(retries_left, n) == RefreshAction::GiveUp,
    decreases n,
{
    if n > 0 && retries_left > 0 {
        law_failures_before_giving_up((retries_left - 1) as u64, (n - 1) as nat);
    }
}

/// A success always restores the full budget.
pub proof fn law_success_restores_budget(retries_left: u64)
    ensures
        next_refresh(retries_left, true) == (DEFAULT_RETRIES, RefreshAction::Wait),
{
}

/// A comment or blank line in front of a list adds no entry: the entries
/// are those of the rest.
pub proof fn law_ignored_line_adds_nothing(line: Seq<char>, rest: Seq<char>)
    requires
        forall|j: int| 0 <= j < line.len() ==> line[j] != '\n',
        line_entry(line) is None,
    ensures
        list_entries(line + seq!['\n'] + rest) == list_entries(rest),
{
    let s = line + seq!['\n'] + rest;
    let n = line.len() as int;
    assert(is_first_newline(s, n));
    let i = choose|i: int| is_first_newline(s, i);
    lemma_first_newline_unique(s, i, n);
    assert(s.take(n) =~= line);
    assert(s.skip(n + 1) =~= rest);
    assert(option_seq(line_entry(line)) + list_entries(rest) =~= list_entries(rest));
}

} // verus!

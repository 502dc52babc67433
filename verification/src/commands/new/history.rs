//! Parsing of a shell history file into the list of recent distinct commands.
use vstd::prelude::*;
use crate::text::{
    chars_eq, chars_of, find_char, is_ws, lemma_run_len_bound, lemma_run_len_is, line_ranges,
    lines_of, run_len, back_run_len, ws_pred, seq_views, slice_chars, extend_chars, string_views, strings_of, trim,
    trim_bounds, index_of,
};

verus! {

/// The most commands a parsed history holds.
pub const HISTORY_LIMIT: usize = 200;

pub open spec fn is_ascii_digit(c: char) -> bool {
    '0' <= c && c <= '9'
}

pub open spec fn all_ascii_digits(s: Seq<char>) -> bool {
    forall|i: int| 0 <= i < s.len() ==> is_ascii_digit(#[trigger] s[i])
}

pub open spec fn space_pred() -> spec_fn(char) -> bool {
    |c: char| c == ' '
}

/// For a line of zsh's extended history format, `: <start>:<elapsed>;<command>`
/// (spaces allowed after the first `:`, both numbers non-empty ASCII digits),
/// the command; `None` for any other line.
pub open spec fn extended_start(line: Seq<char>) -> Option<Seq<char>> {
    if line.len() == 0 || line[0] != ':' {
        None
    } else {
        let after = line.drop_first();
        let r = after.skip(run_len(after, space_pred()) as int);
        let i = index_of(r, ':') as int;
        if i >= r.len() {
            None
        } else {
            let stamp = r.take(i);
            let rest = r.skip(i + 1);
            let j = index_of(rest, ';') as int;
            if j >= rest.len() {
                None
            } else {
                let elapsed = rest.take(j);
                if stamp.len() > 0 && elapsed.len() > 0 && all_ascii_digits(stamp)
                    && all_ascii_digits(elapsed) {
                    Some(rest.skip(j + 1))
                } else {
                    None
                }
            }
        }
    }
}

/// The entry a command contributes: its trimmed text, unless that is empty.
pub open spec fn keep(cmd: Seq<char>) -> Seq<Seq<char>> {
    if trim(cmd).len() > 0 {
        seq![trim(cmd)]
    } else {
        seq![]
    }
}

pub open spec fn flush(pending: Option<Seq<char>>) -> Seq<Seq<char>> {
    match pending {
        Some(p) => keep(p),
        None => seq![],
    }
}

/// An extended-format command goes on to the next line when it ends with a
/// backslash or when that line starts with whitespace.
pub open spec fn continues(cmd: Seq<char>, line: Seq<char>) -> bool {
    (cmd.len() > 0 && cmd.last() == '\\') || (line.len() > 0 && is_ws(line[0]))
}

/// What one line does to the commands, given the extended-format command
/// still open before it: the commands it completes, and the command left open.
/// A line in extended format opens a command (completing the open one); a line
/// that continues the open command joins it after a newline; any other line
/// completes the open command and is a command of its own.
pub open spec fn history_step(line: Seq<char>, pending: Option<Seq<char>>) -> (Seq<Seq<char>>, Option<Seq<char>>) {
    match extended_start(line) {
        Some(c) => (flush(pending), Some(c)),
        None => match pending {
            Some(p) => if continues(p, line) {
                (seq![], Some(p + seq!['\n'] + line))
            } else {
                (keep(p) + keep(line), None)
            },
            None => (keep(line), None),
        },
    }
}

/// The commands of `lines`, oldest first, each trimmed, empty ones dropped.
pub open spec fn history_entries(lines: Seq<Seq<char>>, pending: Option<Seq<char>>) -> Seq<Seq<char>>
    decreases lines.len(),
{
    if lines.len() == 0 {
        flush(pending)
    } else {
        let step = history_step(lines[0], pending);
        step.0 + history_entries(lines.drop_first(), step.1)
    }
}

/// The elements of `s` without repeats, each where it first occurs.
pub open spec fn uniq(s: Seq<Seq<char>>) -> Seq<Seq<char>>
    decreases s.len(),
{
    if s.len() == 0 {
        seq![]
    } else {
        let u = uniq(s.drop_last());
        if u.contains(s.last()) {
            u
        } else {
            u.push(s.last())
        }
    }
}

/// `s` in reverse order.
pub open spec fn newest_first(s: Seq<Seq<char>>) -> Seq<Seq<char>> {
    Seq::new(s.len(), |i: int| s[s.len() - 1 - i])
}

/// All commands of a history file, oldest first.
pub open spec fn commands_of(contents: Seq<char>) -> Seq<Seq<char>> {
    history_entries(lines_of(contents), None)
}

/// The parsed history: distinct commands, most recent first, at most
/// `HISTORY_LIMIT` of them.
pub open spec fn parsed_history(contents: Seq<char>) -> Seq<Seq<char>> {
    let u = uniq(newest_first(commands_of(contents)));
    if u.len() <= HISTORY_LIMIT {
        u
    } else {
        u.take(HISTORY_LIMIT as int)
    }
}

fn all_digits_in(v: &Vec<char>, lo: usize, hi: usize) -> (b: bool)
    requires
        lo <= hi <= v.len(),
    ensures
        b == all_ascii_digits(v@.subrange(lo as int, hi as int)),
{
    let mut i = lo;
    while i < hi
        invariant
            lo <= i <= hi <= v.len(),
            forall|j: int| lo <= j < i ==> is_ascii_digit(#[trigger] v@[j]),
        decreases hi - i,
    {
        let c = v[i];
        if !(c >= '0' && c <= '9') {
            assert(v@.subrange(lo as int, hi as int)[i - lo] == c);
            return false;
        }
        i = i + 1;
    }
    assert forall|j: int| 0 <= j < hi - lo implies is_ascii_digit(#[trigger] v@.subrange(lo as int, hi as int)[j]) by {
        assert(v@.subrange(lo as int, hi as int)[j] == v@[lo + j]);
    }
    true
}

/// Where the command of the extended-format line `v[lo..hi]` starts, if the
/// line is in that format.
fn parse_extended_start(v: &Vec<char>, lo: usize, hi: usize) -> (r: Option<usize>)
    requires
        lo <= hi <= v.len(),
    ensures
        match r {
            Some(c) => lo <= c <= hi && extended_start(v@.subrange(lo as int, hi as int)) == Some(
                v@.subrange(c as int, hi as int),
            ),
            None => extended_start(v@.subrange(lo as int, hi as int)) is None,
        },
{
    let ghost line = v@.subrange(lo as int, hi as int);
    if lo >= hi || v[lo] != ':' {
        return None;
    }
    let mut p = lo + 1;
    while p < hi && v[p] == ' '
        invariant
            lo < p <= hi <= v.len(),
            forall|j: int| lo + 1 <= j < p ==> v@[j] == ' ',
        decreases hi - p,
    {
        p = p + 1;
    }
    let ghost after = line.drop_first();
    proof {
        assert(after =~= v@.subrange(lo + 1, hi as int));
        assert forall|j: int| 0 <= j < p - lo - 1 implies (space_pred())(#[trigger] after[j]) by {
            assert(after[j] == v@[lo + 1 + j]);
        }
        if p < hi {
            assert(after[p - lo - 1] == v@[p as int]);
        }
        lemma_run_len_is(after, space_pred(), p - lo - 1);
        assert(after.skip(p - lo - 1) =~= v@.subrange(p as int, hi as int));
    }
    let q = find_char(v, p, hi, ':');
    if q >= hi {
        return None;
    }
    let w = find_char(v, q + 1, hi, ';');
    proof {
        let r = v@.subrange(p as int, hi as int);
        assert(r.take(q - p) =~= v@.subrange(p as int, q as int));
        assert(r.skip(q - p + 1) =~= v@.subrange(q + 1, hi as int));
    }
    if w >= hi {
        return None;
    }
    proof {
        let rest = v@.subrange(q + 1, hi as int);
        assert(rest.take(w - q - 1) =~= v@.subrange(q + 1, w as int));
        assert(rest.skip(w - q) =~= v@.subrange(w + 1, hi as int));
    }
    if q == p || w == q + 1 {
        return None;
    }
    if !all_digits_in(v, p, q) || !all_digits_in(v, q + 1, w) {
        return None;
    }
    Some(w + 1)
}

/// Adds the trimmed command to `entries` unless it is empty.
fn push_trimmed(entries: &mut Vec<Vec<char>>, cmd: &Vec<char>)
    ensures
        seq_views(final(entries)@) == seq_views(old(entries)@) + keep(cmd@),
{
    let (a, b) = trim_bounds(cmd, 0, cmd.len());
    assert(cmd@.subrange(0, cmd@.len() as int) =~= cmd@);
    if a < b {
        let t = slice_chars(cmd, a, b);
        entries.push(t);
        assert(seq_views(entries@) =~= seq_views(old(entries)@) + keep(cmd@));
    } else {
        assert(seq_views(entries@) =~= seq_views(old(entries)@) + keep(cmd@));
    }
}

pub open spec fn opt_view(p: Option<Vec<char>>) -> Option<Seq<char>> {
    match p {
        Some(x) => Some(x@),
        None => None,
    }
}

/// Applies one line `v[lo..hi]` to the commands collected so far.
fn apply_line(entries: &mut Vec<Vec<char>>, pending: Option<Vec<char>>, v: &Vec<char>, lo: usize, hi: usize) -> (next: Option<Vec<char>>)
    requires
        lo <= hi <= v.len(),
    ensures
        seq_views(final(entries)@) == seq_views(old(entries)@) + history_step(
            v@.subrange(lo as int, hi as int),
            opt_view(pending),
        ).0,
        opt_view(next) == history_step(v@.subrange(lo as int, hi as int), opt_view(pending)).1,
{
    let ghost line = v@.subrange(lo as int, hi as int);
    match parse_extended_start(v, lo, hi) {
        Some(c) => {
            match pending {
                Some(p) => {
                    push_trimmed(entries, &p);
                },
                None => {
                    assert(seq_views(entries@) =~= seq_views(old(entries)@) + flush(None));
                },
            }
            Some(slice_chars(v, c, hi))
        },
        None => {
            match pending {
                Some(mut p) => {
                    let joins = (p.len() > 0 && p[p.len() - 1] == '\\') || (lo < hi
                        && crate::text::char_is_whitespace(v[lo]));
                    proof {
                        if lo < hi {
                            assert(line[0] == v@[lo as int]);
                        }
                    }
                    if joins {
                        let ghost p0 = p@;
                        p.push('\n');
                        extend_chars(&mut p, v, lo, hi);
                        assert(p@ =~= p0 + seq!['\n'] + line);
                        assert(seq_views(entries@) =~= seq_views(old(entries)@) + Seq::<Seq<char>>::empty());
                        Some(p)
                    } else {
                        push_trimmed(entries, &p);
                        let l = slice_chars(v, lo, hi);
                        push_trimmed(entries, &l);
                        assert(seq_views(entries@) =~= seq_views(old(entries)@) + (keep(p@) + keep(line)));
                        None
                    }
                },
                None => {
                    let l = slice_chars(v, lo, hi);
                    push_trimmed(entries, &l);
                    None
                },
            }
        },
    }
}

/// The commands of the history text `v`, oldest first.
fn collect_commands(v: &Vec<char>) -> (entries: Vec<Vec<char>>)
    ensures
        seq_views(entries@) == commands_of(v@),
{
    let lines = line_ranges(v);
    let ghost all = lines_of(v@);
    let mut entries: Vec<Vec<char>> = Vec::new();
    let mut pending: Option<Vec<char>> = None;
    let mut li: usize = 0;
    assert(all.skip(0) =~= all);
    assert(seq_views(entries@) + history_entries(all, None) =~= history_entries(all, None));
    while li < lines.len()
        invariant
            li <= lines.len() == all.len(),
            all == lines_of(v@),
            forall|i: int|
                0 <= i < lines.len() ==> {
                    &&& (#[trigger] lines@[i]).0 <= lines@[i].1 <= v.len()
                    &&& v@.subrange(lines@[i].0 as int, lines@[i].1 as int) == all[i]
                },
            history_entries(all, None) == seq_views(entries@) + history_entries(
                all.skip(li as int),
                opt_view(pending),
            ),
        decreases lines.len() - li,
    {
        let (lo, hi) = lines[li];
        let ghost rest = all.skip(li as int);
        let ghost before = seq_views(entries@);
        let ghost pv = opt_view(pending);
        assert(rest[0] == all[li as int]);
        assert(rest.drop_first() =~= all.skip(li + 1));
        pending = apply_line(&mut entries, pending, v, lo, hi);
        proof {
            let step = history_step(all[li as int], pv);
            assert(history_entries(rest, pv) == step.0 + history_entries(all.skip(li + 1), step.1));
            assert(seq_views(entries@) == before + step.0);
            assert(before + (step.0 + history_entries(all.skip(li + 1), step.1)) =~= seq_views(entries@) + history_entries(all.skip(li + 1), opt_view(pending)));
        }
        li = li + 1;
    }
    let ghost before = seq_views(entries@);
    match pending {
        Some(p) => {
            push_trimmed(&mut entries, &p);
        },
        None => {},
    }
    assert(history_entries(all, None) =~= seq_views(entries@));
    entries
}

/// `uniq` of a prefix is a prefix of `uniq` of the whole.
pub proof fn lemma_uniq_prefix(s: Seq<Seq<char>>, k: int)
    requires
        0 <= k <= s.len(),
    ensures
        uniq(s.take(k)).len() <= uniq(s).len(),
        uniq(s.take(k)) == uniq(s).take(uniq(s.take(k)).len() as int),
    decreases s.len() - k,
{
    if k == s.len() {
        assert(s.take(k) =~= s);
    } else {
        lemma_uniq_prefix(s, k + 1);
        assert(s.take(k + 1).drop_last() =~= s.take(k));
        let a = uniq(s.take(k));
        let b = uniq(s.take(k + 1));
        assert(b.take(a.len() as int) =~= a);
        assert(uniq(s).take(a.len() as int) =~= uniq(s).take(b.len() as int).take(a.len() as int));
    }
}

/// Parses the contents of a shell history file (plain or zsh extended format)
/// into its distinct commands, most recent first, keeping at most
/// `HISTORY_LIMIT` of them.
pub fn parse_history(contents: &str) -> (r: Vec<String>)
    ensures
        string_views(r@) == parsed_history(contents@),
{
    let v = chars_of(contents);
    let mut entries = collect_commands(&v);
    let ghost all = seq_views(entries@);
    let n = entries.len();
    let ghost rev = Seq::new(n as nat, |i: int| all[n - 1 - i]);
    let mut out: Vec<Vec<char>> = Vec::new();
    assert(rev.take(0) =~= Seq::<Seq<char>>::empty());
    assert(seq_views(entries@) =~= all.take(n as int));
    while out.len() < HISTORY_LIMIT && entries.len() > 0
        invariant
            entries.len() <= n == all.len() == rev.len(),
            forall|i: int| 0 <= i < n ==> #[trigger] rev[i] == all[n - 1 - i],
            seq_views(entries@) == all.take(entries.len() as int),
            seq_views(out@) == uniq(rev.take(n - entries.len())),
            out.len() <= HISTORY_LIMIT,
        decreases entries.len(),
    {
        let ghost k = n - entries.len();
        let ghost old_entries = entries@;
        assert(seq_views(old_entries)[n - k - 1] == old_entries[n - k - 1]@);
        assert(all.take(n - k)[n - k - 1] == all[n - k - 1]);
        let e = entries.pop().unwrap();
        assert(e@ == all[n - 1 - k]);
        assert(rev[k] == all[n - 1 - k]);
        assert(seq_views(entries@) =~= all.take(entries.len() as int));
        assert(rev.take(k + 1).drop_last() =~= rev.take(k));
        assert(rev.take(k + 1).last() == rev[k]);
        let mut found = false;
        let mut j: usize = 0;
        while j < out.len()
            invariant
                j <= out.len(),
                found == exists|i: int| 0 <= i < j && (#[trigger] out@[i])@ == e@,
            decreases out.len() - j,
        {
            if chars_eq(&out[j], &e) {
                found = true;
            }
            j = j + 1;
        }
        proof {
            let u = seq_views(out@);
            if found {
                let i = choose|i: int| 0 <= i < out.len() && (#[trigger] out@[i])@ == e@;
                assert(u[i] == e@);
                assert(u.contains(e@));
            } else {
                assert forall|i: int| 0 <= i < u.len() implies u[i] != e@ by {
                    assert(u[i] == out@[i]@);
                }
                assert(!u.contains(e@));
            }
        }
        if !found {
            out.push(e);
            assert(seq_views(out@) =~= uniq(rev.take(k + 1)));
        }
    }
    proof {
        let k = n - entries.len();
        assert(rev =~= newest_first(all));
        lemma_uniq_prefix(rev, k);
        if out.len() < HISTORY_LIMIT {
            assert(rev.take(k) =~= rev);
        } else {
            assert(uniq(rev).take(HISTORY_LIMIT as int) =~= seq_views(out@));
        }
    }
    strings_of(&out)
}


pub proof fn lemma_push_contains(a: Seq<Seq<char>>, x: Seq<char>, e: Seq<char>)
    ensures
        a.push(x).contains(e) <==> (a.contains(e) || e == x),
{
    if a.contains(e) {
        let k = choose|k: int| 0 <= k < a.len() && a[k] == e;
        assert(a.push(x)[k] == e);
    }
    if e == x {
        assert(a.push(x)[a.len() as int] == e);
    }
    if a.push(x).contains(e) {
        let k = choose|k: int| 0 <= k < a.push(x).len() && a.push(x)[k] == e;
        if k < a.len() {
            assert(a[k] == e);
        }
    }
}

/// Basic facts of `uniq`: it holds exactly the elements of `s`, each once.
pub proof fn lemma_uniq_basics(s: Seq<Seq<char>>)
    ensures
        uniq(s).len() <= s.len(),
        forall|e: Seq<char>| uniq(s).contains(e) <==> s.contains(e),
        forall|i: int, j: int| 0 <= i < j < uniq(s).len() ==> uniq(s)[i] != uniq(s)[j],
    decreases s.len(),
{
    if s.len() > 0 {
        let d = s.drop_last();
        let x = s.last();
        let u = uniq(d);
        lemma_uniq_basics(d);
        assert(s =~= d.push(x));
        assert forall|e: Seq<char>| uniq(s).contains(e) <==> s.contains(e) by {
            lemma_push_contains(d, x, e);
            lemma_push_contains(u, x, e);
        }
        if !u.contains(x) {
            assert forall|i: int, j: int| 0 <= i < j < uniq(s).len() implies uniq(s)[i] != uniq(s)[j] by {
                if j == u.len() {
                    assert(uniq(s)[i] == u[i]);
                    if u[i] == x {
                        assert(u.contains(x));
                    }
                } else {
                    assert(uniq(s)[i] == u[i]);
                    assert(uniq(s)[j] == u[j]);
                }
            }
        }
    }
}

pub open spec fn occurs_before(s: Seq<Seq<char>>, x: Seq<char>, q: int) -> bool {
    exists|p: int| 0 <= p < q && #[trigger] s[p] == x
}

/// In `uniq(s)`, an element comes before another when it occurs in `s`
/// before every occurrence of the other.
pub proof fn lemma_uniq_order_at(s: Seq<Seq<char>>, i: int, j: int, q: int)
    requires
        0 <= i < j < uniq(s).len(),
        0 <= q < s.len(),
        s[q] == uniq(s)[j],
    ensures
        occurs_before(s, uniq(s)[i], q),
    decreases s.len(),
{
    let d = s.drop_last();
    let x = s.last();
    let u = uniq(d);
    lemma_uniq_basics(d);
    assert(i < u.len());
    assert(uniq(s)[i] == u[i]);
    if q < s.len() - 1 {
        assert(d[q] == s[q]);
        if j < u.len() {
            assert(uniq(s)[j] == u[j]);
            lemma_uniq_order_at(d, i, j, q);
            let p = choose|p: int| 0 <= p < q && #[trigger] d[p] == u[i];
            assert(s[p] == d[p]);
        } else {
            assert(uniq(s)[j] == x);
            assert(d[q] == x);
            assert(d.contains(x));
            assert(u.contains(x));
        }
    } else {
        assert(u.contains(u[i]));
        assert(d.contains(u[i]));
        let p = choose|p: int| 0 <= p < d.len() && d[p] == u[i];
        assert(s[p] == d[p]);
    }
}

/// A parsed history holds each command at most once.
pub proof fn lemma_history_distinct(contents: Seq<char>)
    ensures
        forall|i: int, j: int|
            0 <= i < j < parsed_history(contents).len() ==> parsed_history(contents)[i]
                != parsed_history(contents)[j],
{
    lemma_parsed_is_uniq_prefix(contents);
    lemma_uniq_basics(newest_first(commands_of(contents)));
}

/// A parsed history holds at most `HISTORY_LIMIT` commands.
pub proof fn lemma_history_bounded(contents: Seq<char>)
    ensures
        parsed_history(contents).len() <= HISTORY_LIMIT,
{
}

pub proof fn lemma_newest_first(c: Seq<Seq<char>>)
    ensures
        newest_first(c).len() == c.len(),
        forall|k: int| 0 <= k < c.len() ==> #[trigger] newest_first(c)[k] == c[c.len() - 1 - k],
{
}

pub proof fn lemma_parsed_is_uniq_prefix(contents: Seq<char>)
    ensures
        parsed_history(contents).len() <= uniq(newest_first(commands_of(contents))).len(),
        forall|i: int|
            0 <= i < parsed_history(contents).len() ==> #[trigger] parsed_history(contents)[i]
                == uniq(newest_first(commands_of(contents)))[i],
{
}

/// Every command of a parsed history is a command of the file.
pub proof fn lemma_history_from_file(contents: Seq<char>, i: int)
    requires
        0 <= i < parsed_history(contents).len(),
    ensures
        commands_of(contents).contains(parsed_history(contents)[i]),
{
    let c = commands_of(contents);
    let r = newest_first(c);
    lemma_newest_first(c);
    lemma_parsed_is_uniq_prefix(contents);
    lemma_uniq_basics(r);
    let e = parsed_history(contents)[i];
    assert(uniq(r)[i] == e);
    assert(uniq(r).contains(e));
    assert(r.contains(e));
    let k = choose|k: int| 0 <= k < r.len() && r[k] == e;
    assert(c[c.len() - 1 - k] == e);
}

/// The first command of a parsed history is the last command of the file.
pub proof fn lemma_history_most_recent_first(contents: Seq<char>)
    requires
        commands_of(contents).len() > 0,
    ensures
        parsed_history(contents).len() > 0,
        parsed_history(contents)[0] == commands_of(contents).last(),
{
    let c = commands_of(contents);
    let r = newest_first(c);
    lemma_newest_first(c);
    lemma_parsed_is_uniq_prefix(contents);
    lemma_uniq_prefix(r, 1);
    let t = r.take(1);
    assert(t.drop_last() =~= Seq::<Seq<char>>::empty());
    assert(uniq(t.drop_last()) =~= Seq::<Seq<char>>::empty());
    assert(t.last() == r[0]);
    assert(uniq(t) =~= seq![r[0]]);
    assert(uniq(r).take(1)[0] == r[0]);
    assert(uniq(r)[0] == r[0]);
    assert(parsed_history(contents).len() > 0);
    assert(parsed_history(contents)[0] == uniq(r)[0]);
    assert(r[0] == c.last());
}

/// A parsed history keeps every command of the file unless it is full.
pub proof fn lemma_history_complete(contents: Seq<char>, i: int)
    requires
        parsed_history(contents).len() < HISTORY_LIMIT,
        0 <= i < commands_of(contents).len(),
    ensures
        parsed_history(contents).contains(commands_of(contents)[i]),
{
    let c = commands_of(contents);
    let r = newest_first(c);
    lemma_newest_first(c);
    lemma_uniq_basics(r);
    assert(r[c.len() - 1 - i] == c[i]);
    assert(r.contains(c[i]));
    assert(uniq(r).contains(c[i]));
}

/// A parsed history is ordered most recent first: a command comes before
/// another when it was run after every run of the other.
pub proof fn lemma_history_recency_order(contents: Seq<char>, i: int, j: int, q: int)
    requires
        0 <= i < j < parsed_history(contents).len(),
        0 <= q < commands_of(contents).len(),
        commands_of(contents)[q] == parsed_history(contents)[j],
    ensures
        exists|p: int|
            q < p < commands_of(contents).len() && #[trigger] commands_of(contents)[p]
                == parsed_history(contents)[i],
{
    let c = commands_of(contents);
    let r = newest_first(c);
    let n = c.len();
    assert(parsed_history(contents)[j] == uniq(r)[j]);
    assert(parsed_history(contents)[i] == uniq(r)[i]);
    assert(r[n - 1 - q] == c[q]);
    lemma_uniq_order_at(r, i, j, n - 1 - q);
    let p = choose|p: int| 0 <= p < n - 1 - q && #[trigger] r[p] == uniq(r)[i];
    assert(c[n - 1 - p] == r[p]);
}

/// A command as the history keeps it: non-empty, with no surrounding whitespace.
pub open spec fn is_clean(e: Seq<char>) -> bool {
    e.len() > 0 && trim(e) == e
}

proof fn lemma_run_len_stops(s: Seq<char>, p: spec_fn(char) -> bool)
    ensures
        run_len(s, p) < s.len() ==> !p(s[run_len(s, p) as int]),
    decreases s.len(),
{
    if s.len() > 0 && p(s[0]) {
        lemma_run_len_stops(s.drop_first(), p);
    }
}

proof fn lemma_back_run_len_stops(s: Seq<char>, p: spec_fn(char) -> bool)
    ensures
        back_run_len(s, p) <= s.len(),
        back_run_len(s, p) < s.len() ==> !p(s[s.len() - back_run_len(s, p) - 1]),
    decreases s.len(),
{
    if s.len() > 0 && p(s.last()) {
        lemma_back_run_len_stops(s.drop_last(), p);
    }
}

/// Trimming a command keeps it clean, if anything is left.
pub proof fn lemma_trim_clean(x: Seq<char>)
    requires
        trim(x).len() > 0,
    ensures
        is_clean(trim(x)),
{
    let p = run_len(x, ws_pred());
    lemma_run_len_bound(x, ws_pred());
    lemma_run_len_stops(x, ws_pred());
    let t = x.skip(p as int);
    lemma_back_run_len_stops(t, ws_pred());
    let q = back_run_len(t, ws_pred());
    let u = trim(x);
    assert(u == t.take(t.len() - q));
    assert(u[0] == x[p as int]);
    assert(u.last() == t[t.len() - q - 1]);
    lemma_run_len_is(u, ws_pred(), 0);
    assert(u.skip(0) =~= u);
    crate::text::lemma_back_run_len_is(u, ws_pred(), 0);
    assert(u.take(u.len() as int) =~= u);
}

proof fn lemma_keep_clean(x: Seq<char>)
    ensures
        forall|i: int| 0 <= i < keep(x).len() ==> is_clean(#[trigger] keep(x)[i]),
{
    if trim(x).len() > 0 {
        lemma_trim_clean(x);
    }
}

/// Every command the history yields is clean.
pub proof fn lemma_history_entries_clean(lines: Seq<Seq<char>>, pending: Option<Seq<char>>)
    ensures
        forall|i: int|
            0 <= i < history_entries(lines, pending).len() ==> is_clean(
                #[trigger] history_entries(lines, pending)[i],
            ),
    decreases lines.len(),
{
    if lines.len() == 0 {
        if let Some(p) = pending {
            lemma_keep_clean(p);
        }
    } else {
        let line = lines[0];
        let step = history_step(line, pending);
        lemma_history_entries_clean(lines.drop_first(), step.1);
        if let Some(p) = pending {
            lemma_keep_clean(p);
        }
        lemma_keep_clean(line);
        let rest = history_entries(lines.drop_first(), step.1);
        assert(history_entries(lines, pending) == step.0 + rest);
        assert forall|i: int| 0 <= i < step.0.len() implies is_clean(#[trigger] step.0[i]) by {
            match extended_start(line) {
                Some(c) => {},
                None => match pending {
                    Some(p) => if !continues(p, line) {
                        if i >= keep(p).len() {
                            assert(step.0[i] == keep(line)[i - keep(p).len()]);
                        }
                    },
                    None => {},
                },
            }
        }
        assert forall|i: int| 0 <= i < history_entries(lines, pending).len() implies is_clean(
            #[trigger] history_entries(lines, pending)[i],
        ) by {
            if i >= step.0.len() {
                assert(history_entries(lines, pending)[i] == rest[i - step.0.len()]);
            }
        }
    }
}

/// Every command of a parsed history is non-empty and trimmed.
pub proof fn lemma_history_clean(contents: Seq<char>, i: int)
    requires
        0 <= i < parsed_history(contents).len(),
    ensures
        is_clean(parsed_history(contents)[i]),
{
    lemma_history_from_file(contents, i);
    lemma_history_entries_clean(lines_of(contents), None);
    let c = commands_of(contents);
    let k = choose|k: int| 0 <= k < c.len() && c[k] == parsed_history(contents)[i];
    assert(is_clean(c[k]));
}

/// The lines of a text made of two lines without a line break, each ended by
/// one: the two lines.
proof fn lemma_two_lines(l1: Seq<char>, l2: Seq<char>)
    requires
        !l1.contains('\n'),
        !l2.contains('\n'),
        l1.len() == 0 || l1.last() != '\r',
        l2.len() == 0 || l2.last() != '\r',
    ensures
        lines_of(l1 + seq!['\n'] + l2 + seq!['\n']) == seq![l1, l2],
{
    let s = l1 + seq!['\n'] + l2 + seq!['\n'];
    assert forall|i: int| 0 <= i < l1.len() implies (crate::text::not_char('\n'))(#[trigger] s[i]) by {
        assert(s[i] == l1[i]);
    }
    lemma_run_len_is(s, crate::text::not_char('\n'), l1.len() as int);
    assert(s.take(l1.len() as int) =~= l1);
    let r = s.skip(l1.len() as int + 1);
    assert(r =~= l2 + seq!['\n']);
    assert forall|i: int| 0 <= i < l2.len() implies (crate::text::not_char('\n'))(#[trigger] r[i]) by {
        assert(r[i] == l2[i]);
    }
    lemma_run_len_is(r, crate::text::not_char('\n'), l2.len() as int);
    assert(r.take(l2.len() as int) =~= l2);
    assert(r.skip(l2.len() as int + 1) =~= Seq::<char>::empty());
    assert(index_of(r, '\n') == l2.len());
    assert(crate::text::strip_cr(l2) == l2);
    assert(crate::text::strip_cr(l1) == l1);
    assert(lines_of(Seq::<char>::empty()) == Seq::<Seq<char>>::empty());
    assert(lines_of(r) =~= seq![l2]);
    assert(lines_of(s) =~= seq![l1, l2]);
}

/// An extended-format command whose text ends with a backslash goes on to
/// the next line, whatever that line starts with: a history of such a line
/// and a plain line after it holds one command, the first command, a line
/// break and the second line, trimmed, and not the two lines apart.
pub proof fn lemma_history_backslash_continues(l1: Seq<char>, l2: Seq<char>, c: Seq<char>)
    requires
        extended_start(l1) == Some(c),
        c.len() > 0,
        c.last() == '\\',
        extended_start(l2) is None,
        !l1.contains('\n'),
        !l2.contains('\n'),
        l1.last() != '\r',
        l2.len() == 0 || l2.last() != '\r',
    ensures
        commands_of(l1 + seq!['\n'] + l2 + seq!['\n']) == seq![trim(c + seq!['\n'] + l2)],
        parsed_history(l1 + seq!['\n'] + l2 + seq!['\n']) == seq![trim(c + seq!['\n'] + l2)],
{
    let contents = l1 + seq!['\n'] + l2 + seq!['\n'];
    lemma_two_lines(l1, l2);
    let lines = seq![l1, l2];
    let joined = c + seq!['\n'] + l2;
    assert(joined[c.len() - 1] == c.last());
    crate::text::lemma_trim_nonempty(joined, c.len() - 1);
    assert(lines.drop_first() =~= seq![l2]);
    assert(seq![l2].drop_first() =~= Seq::<Seq<char>>::empty());
    assert(history_step(l1, None) == (Seq::<Seq<char>>::empty(), Some(c)));
    assert(history_step(l2, Some(c)) == (Seq::<Seq<char>>::empty(), Some(joined)));
    assert(history_entries(Seq::<Seq<char>>::empty(), Some(joined)) == seq![trim(joined)]);
    assert(history_entries(seq![l2], Some(c)) =~= seq![trim(joined)]);
    assert(history_entries(lines, None) =~= seq![trim(joined)]);
    let all = commands_of(contents);
    assert(newest_first(all) =~= all);
    assert(all.drop_last() =~= Seq::<Seq<char>>::empty());
    assert(uniq(Seq::<Seq<char>>::empty()) == Seq::<Seq<char>>::empty());
    assert(!Seq::<Seq<char>>::empty().contains(all.last()));
    assert(uniq(all) =~= all);
}

} // verus!

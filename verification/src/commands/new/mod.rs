//! Turning a command into a function: splitting it into tokens, replacing
//! chosen tokens with positional parameters, and choosing a default name.
pub mod history;
pub mod interactive;

use vstd::prelude::*;
use vstd::utf8::{encode_utf8, is_char_boundary};
use crate::args::{FunctionSource, NewArgs};
use crate::error::FunkyError;
use crate::functions::Slug;
use crate::text::{
    char_is_whitespace, chars_of, is_ws, lemma_char_boundary_of_take, lemma_encode_utf8_subrange,
    lemma_utf8_len_take_mono, lemma_utf8_len_take_step, lemma_word_end, lemma_word_end_is,
    string_of, trim, utf8_len, utf8_width, word_end,
};

verus! {

/// A word of a command that can become a function argument, with the byte
/// offsets in the command where it starts and ends.
#[derive(Debug, Clone)]
pub struct CommandToken {
    pub value: String,
    pub start: usize,
    pub end: usize,
}

/// A token as plain values: its text and its byte offsets.
pub open spec fn token_view(t: CommandToken) -> (Seq<char>, int, int) {
    (t.value@, t.start as int, t.end as int)
}

pub open spec fn token_views(ts: Seq<CommandToken>) -> Seq<(Seq<char>, int, int)> {
    ts.map_values(|t: CommandToken| token_view(t))
}

/// The shell operators that never become arguments.
pub open spec fn is_shell_operator(w: Seq<char>) -> bool {
    ||| w == seq!['|']
    ||| w == seq!['&', '&']
    ||| w == seq!['|', '|']
    ||| w == seq![';']
    ||| w == seq!['>']
    ||| w == seq!['>', '>']
    ||| w == seq!['<']
    ||| w == seq!['2', '>']
    ||| w == seq!['&']
    ||| w == seq!['2', '>', '&', '1']
}

/// Words that never become arguments: flags, shell operators and
/// `NAME=value` assignments.
pub open spec fn is_skipped_word(w: Seq<char>) -> bool {
    (w.len() > 0 && w[0] == '-') || is_shell_operator(w) || w.contains('=')
}

/// The tokens of `s` from position `i` on: each maximal run of
/// non-whitespace characters that is not a skipped word, with its byte offsets.
pub open spec fn tokens_from(s: Seq<char>, i: int) -> Seq<(Seq<char>, int, int)>
    decreases s.len() - i,
{
    if i < 0 || i >= s.len() {
        seq![]
    } else if is_ws(s[i]) {
        tokens_from(s, i + 1)
    } else {
        let e = word_end(s, i);
        proof {
            lemma_word_end(s, i);
        }
        let w = s.subrange(i, e);
        (if is_skipped_word(w) {
            seq![]
        } else {
            seq![(w, utf8_len(s.take(i)) as int, utf8_len(s.take(e)) as int)]
        }) + tokens_from(s, e)
    }
}

/// The tokens of a command.
pub open spec fn command_tokens(s: Seq<char>) -> Seq<(Seq<char>, int, int)> {
    tokens_from(s, 0)
}

proof fn lemma_shell_operator(w: Seq<char>)
    ensures
        is_shell_operator(w) <==> {
            ||| w.len() == 1 && (w[0] == '|' || w[0] == ';' || w[0] == '>' || w[0] == '<' || w[0] == '&')
            ||| w.len() == 2 && ((w[0] == '&' && w[1] == '&') || (w[0] == '|' && w[1] == '|') || (w[0] == '>'
                && w[1] == '>') || (w[0] == '2' && w[1] == '>'))
            ||| w.len() == 4 && w[0] == '2' && w[1] == '>' && w[2] == '&' && w[3] == '1'
        },
{
    if w.len() == 1 {
        if w[0] == '|' { assert(w =~= seq!['|']); }
        if w[0] == ';' { assert(w =~= seq![';']); }
        if w[0] == '>' { assert(w =~= seq!['>']); }
        if w[0] == '<' { assert(w =~= seq!['<']); }
        if w[0] == '&' { assert(w =~= seq!['&']); }
    }
    if w.len() == 2 {
        if w[0] == '&' && w[1] == '&' { assert(w =~= seq!['&', '&']); }
        if w[0] == '|' && w[1] == '|' { assert(w =~= seq!['|', '|']); }
        if w[0] == '>' && w[1] == '>' { assert(w =~= seq!['>', '>']); }
        if w[0] == '2' && w[1] == '>' { assert(w =~= seq!['2', '>']); }
    }
    if w.len() == 4 && w[0] == '2' && w[1] == '>' && w[2] == '&' && w[3] == '1' {
        assert(w =~= seq!['2', '>', '&', '1']);
    }
}

/// Whether the word `v[lo..hi]` is a flag, a shell operator or an assignment.
fn should_skip_token(v: &Vec<char>, lo: usize, hi: usize) -> (b: bool)
    requires
        lo <= hi <= v.len(),
    ensures
        b == is_skipped_word(v@.subrange(lo as int, hi as int)),
{
    let ghost w = v@.subrange(lo as int, hi as int);
    proof {
        lemma_shell_operator(w);
    }
    if lo < hi && v[lo] == '-' {
        assert(w[0] == v@[lo as int]);
        return true;
    }
    let len = hi - lo;
    let c0 = if len > 0 { v[lo] } else { ' ' };
    let c1 = if len > 1 { v[lo + 1] } else { ' ' };
    let c2 = if len > 2 { v[lo + 2] } else { ' ' };
    let c3 = if len > 3 { v[lo + 3] } else { ' ' };
    proof {
        if len > 0 { assert(w[0] == c0); }
        if len > 1 { assert(w[1] == c1); }
        if len > 2 { assert(w[2] == c2); }
        if len > 3 { assert(w[3] == c3); }
    }
    let op = (len == 1 && (c0 == '|' || c0 == ';' || c0 == '>' || c0 == '<' || c0 == '&')) || (len
        == 2 && ((c0 == '&' && c1 == '&') || (c0 == '|' && c1 == '|') || (c0 == '>' && c1 == '>')
        || (c0 == '2' && c1 == '>'))) || (len == 4 && c0 == '2' && c1 == '>' && c2 == '&' && c3
        == '1');
    if op {
        return true;
    }
    let mut i = lo;
    while i < hi
        invariant
            lo <= i <= hi <= v.len(),
            w == v@.subrange(lo as int, hi as int),
            forall|j: int| lo <= j < i ==> v@[j] != '=',
        decreases hi - i,
    {
        if v[i] == '=' {
            assert(w[i - lo] == '=');
            return true;
        }
        i = i + 1;
    }
    assert forall|j: int| 0 <= j < w.len() implies w[j] != '=' by {
        assert(w[j] == v@[lo + j]);
    }
    false
}

/// Splits a command at whitespace into the words that can become function
/// arguments (flags, shell operators and `NAME=value` assignments are left
/// out), each with the byte offsets where it starts and ends in `command`.
pub fn tokenize_command(command: &str) -> (tokens: Vec<CommandToken>)
    ensures
        token_views(tokens@) == command_tokens(command@),
        forall|k: int|
            0 <= k < tokens.len() ==> {
                &&& (#[trigger] tokens@[k]).start <= tokens@[k].end <= utf8_len(command@)
                &&& encode_utf8(command@).subrange(tokens@[k].start as int, tokens@[k].end as int)
                    == encode_utf8(tokens@[k].value@)
                &&& is_char_boundary(encode_utf8(command@), tokens@[k].start as int)
                &&& is_char_boundary(encode_utf8(command@), tokens@[k].end as int)
            },
{
    let byte_len = command.as_bytes().len();
    assert(utf8_len(command@) == byte_len);
    let v = chars_of(command);
    let n = v.len();
    let ghost s = v@;
    let mut tokens: Vec<CommandToken> = Vec::new();
    let mut start: Option<(usize, usize)> = None;
    let mut b: usize = 0;
    let mut i: usize = 0;
    assert(s.take(0) =~= Seq::<char>::empty());
    assert(encode_utf8(s.take(0)) =~= Seq::<u8>::empty());
    while i < n
        invariant
            n == v.len(),
            s == v@,
            i <= n,
            utf8_len(s) <= usize::MAX,
            b == utf8_len(s.take(i as int)),
            match start {
                None => command_tokens(s) == token_views(tokens@) + tokens_from(s, i as int),
                Some((st, sb)) => {
                    &&& st < i
                    &&& sb == utf8_len(s.take(st as int))
                    &&& forall|j: int| st <= j < i ==> !is_ws(#[trigger] s[j])
                    &&& command_tokens(s) == token_views(tokens@) + tokens_from(s, st as int)
                },
            },
            forall|k: int|
                0 <= k < tokens.len() ==> {
                    &&& (#[trigger] tokens@[k]).start <= tokens@[k].end <= utf8_len(s)
                    &&& encode_utf8(s).subrange(tokens@[k].start as int, tokens@[k].end as int)
                        == encode_utf8(tokens@[k].value@)
                    &&& is_char_boundary(encode_utf8(s), tokens@[k].start as int)
                    &&& is_char_boundary(encode_utf8(s), tokens@[k].end as int)
                },
        decreases n - i,
    {
        let c = v[i];
        proof {
            lemma_utf8_len_take_step(s, i as int);
        }
        if char_is_whitespace(c) {
            assert(tokens_from(s, i as int) == tokens_from(s, i + 1));
            match start {
                Some((st, sb)) => {
                    proof {
                        lemma_word_end_is(s, st as int, i as int);
                        let w = s.subrange(st as int, i as int);
                        assert(tokens_from(s, st as int) == (if is_skipped_word(w) {
                            seq![]
                        } else {
                            seq![(w, utf8_len(s.take(st as int)) as int, utf8_len(s.take(i as int)) as int)]
                        }) + tokens_from(s, i as int));
                        lemma_encode_utf8_subrange(s, st as int, i as int);
                        lemma_char_boundary_of_take(s, st as int);
                        lemma_char_boundary_of_take(s, i as int);
                        lemma_utf8_len_take_mono(s, st as int, i as int);
                    }
                    let skip = should_skip_token(&v, st, i);
                    let ghost before = token_views(tokens@);
                    if !skip {
                        let value = string_of(&v, st, i);
                        tokens.push(CommandToken { value, start: sb, end: b });
                        assert(token_views(tokens@) =~= before + seq![(s.subrange(st as int, i as int), sb as int, b as int)]);
                    }
                    start = None;
                },
                None => {},
            }
        } else {
            if start.is_none() {
                start = Some((i, b));
            }
        }
        b = b + utf8_width(c);
        i = i + 1;
    }
    match start {
        Some((st, sb)) => {
            proof {
                lemma_word_end_is(s, st as int, n as int);
                let w = s.subrange(st as int, n as int);
                assert(tokens_from(s, st as int) == (if is_skipped_word(w) {
                    seq![]
                } else {
                    seq![(w, utf8_len(s.take(st as int)) as int, utf8_len(s.take(n as int)) as int)]
                }) + tokens_from(s, n as int));
                lemma_encode_utf8_subrange(s, st as int, n as int);
                lemma_char_boundary_of_take(s, st as int);
                lemma_char_boundary_of_take(s, n as int);
                lemma_utf8_len_take_mono(s, st as int, n as int);
            }
            let skip = should_skip_token(&v, st, n);
            let ghost before = token_views(tokens@);
            if !skip {
                let value = string_of(&v, st, n);
                tokens.push(CommandToken { value, start: sb, end: b });
                assert(token_views(tokens@) =~= before + seq![(s.subrange(st as int, n as int), sb as int, b as int)]);
            }
        },
        None => {},
    }
    assert(token_views(tokens@) + tokens_from(s, n as int) =~= token_views(tokens@));
    tokens
}


/// The Unicode lowercase mapping of a non-ASCII character
/// (`char::to_lowercase`).
pub uninterp spec fn unicode_lowercase(c: char) -> Seq<char>;

/// Whether a non-ASCII character is Unicode alphabetic or numeric
/// (`char::is_alphanumeric`).
pub uninterp spec fn unicode_alphanumeric(c: char) -> bool;

pub open spec fn is_ascii_char(c: char) -> bool {
    (c as u32) < 0x80
}

pub open spec fn ascii_lowercase(c: char) -> char {
    if 'A' <= c && c <= 'Z' {
        ((c as u32) + 32) as char
    } else {
        c
    }
}

pub open spec fn is_ascii_alphanumeric(c: char) -> bool {
    ('a' <= c && c <= 'z') || ('A' <= c && c <= 'Z') || ('0' <= c && c <= '9')
}

/// The lowercase mapping of a character (`char::to_lowercase`): the ASCII
/// lowercase for an ASCII character.
pub open spec fn char_lowercase(c: char) -> Seq<char> {
    if is_ascii_char(c) {
        seq![ascii_lowercase(c)]
    } else {
        unicode_lowercase(c)
    }
}

/// Whether a character is alphabetic or numeric (`char::is_alphanumeric`):
/// for an ASCII character, exactly the letters and digits.
pub open spec fn char_alphanumeric(c: char) -> bool {
    if is_ascii_char(c) {
        is_ascii_alphanumeric(c)
    } else {
        unicode_alphanumeric(c)
    }
}

/// `char::to_lowercase`, collected: one or more characters; for an ASCII
/// character the ASCII lowercase of it, for another the mapping named
/// `unicode_lowercase`. What the mapping is outside ASCII (Unicode's tables)
/// is left unsaid.
#[verifier::external_body]
fn char_to_lowercase(c: char) -> (r: Vec<char>)
    ensures
        r@.len() >= 1,
        is_ascii_char(c) ==> r@ == seq![ascii_lowercase(c)],
        !is_ascii_char(c) ==> r@ == unicode_lowercase(c),
{
    c.to_lowercase().collect()
}

/// `char::is_alphanumeric`: for an ASCII character it holds exactly of the
/// letters and digits, for another it is the property named
/// `unicode_alphanumeric`. Which other characters have it (Unicode's tables)
/// is left unsaid.
#[verifier::external_body]
fn char_is_alphanumeric(c: char) -> (b: bool)
    ensures
        is_ascii_char(c) ==> (b <==> is_ascii_alphanumeric(c)),
        !is_ascii_char(c) ==> b == unicode_alphanumeric(c),
{
    c.is_alphanumeric()
}

/// The most characters of an argument name.
pub const ARGUMENT_NAME_LIMIT: usize = 30;

/// The lowercase mapping of every character of `s`, in order.
pub open spec fn lowercase_all(s: Seq<char>) -> Seq<char>
    decreases s.len(),
{
    if s.len() == 0 {
        seq![]
    } else {
        lowercase_all(s.drop_last()) + char_lowercase(s.last())
    }
}

/// A character of an argument name: alphanumeric characters stay, others
/// become `'_'`.
pub open spec fn argument_char(c: char) -> char {
    if char_alphanumeric(c) {
        c
    } else {
        '_'
    }
}

pub open spec fn clip(s: Seq<char>) -> Seq<char> {
    if s.len() <= ARGUMENT_NAME_LIMIT {
        s
    } else {
        s.take(ARGUMENT_NAME_LIMIT as int)
    }
}

/// The name an argument gets from a token: the token lowercased, characters
/// that are not alphanumeric replaced by `'_'`, cut to `ARGUMENT_NAME_LIMIT`
/// characters.
pub open spec fn argument_name(token: Seq<char>) -> Seq<char> {
    clip(lowercase_all(token).map_values(|c: char| argument_char(c)))
}

proof fn lemma_clip_push(x: Seq<char>, y: char)
    ensures
        clip(x.push(y)) == if clip(x).len() < ARGUMENT_NAME_LIMIT {
            clip(x).push(y)
        } else {
            clip(x)
        },
{
    if x.len() < ARGUMENT_NAME_LIMIT {
        assert(clip(x.push(y)) =~= clip(x).push(y));
    } else {
        assert(clip(x.push(y)) =~= clip(x));
    }
}

/// The argument name for a token (see `argument_name`).
fn sanitize_argument_name(token: &str) -> (r: String)
    ensures
        r@ == argument_name(token@),
{
    let t = chars_of(token);
    let mut out = String::new();
    let mut count: usize = 0;
    let mut i: usize = 0;
    assert(t@.take(0) =~= Seq::<char>::empty());
    assert(lowercase_all(Seq::<char>::empty()).map_values(|c: char| argument_char(c)) =~= Seq::<char>::empty());
    while i < t.len()
        invariant
            i <= t.len(),
            count == out@.len(),
            out@ == clip(lowercase_all(t@.take(i as int)).map_values(|c: char| argument_char(c))),
        decreases t.len() - i,
    {
        let low = char_to_lowercase(t[i]);
        let ghost pre = lowercase_all(t@.take(i as int));
        assert(t@.take(i + 1).drop_last() =~= t@.take(i as int));
        assert(lowercase_all(t@.take(i + 1)) == pre + low@);
        let mut j: usize = 0;
        assert(pre + low@.take(0) =~= pre);
        while j < low.len()
            invariant
                j <= low.len(),
                count == out@.len(),
                out@ == clip((pre + low@.take(j as int)).map_values(|c: char| argument_char(c))),
            decreases low.len() - j,
        {
            let c = low[j];
            let ghost x = (pre + low@.take(j as int)).map_values(|c: char| argument_char(c));
            assert((pre + low@.take(j + 1)).map_values(|c: char| argument_char(c)) =~= x.push(argument_char(c)));
            proof {
                lemma_clip_push(x, argument_char(c));
            }
            if count < ARGUMENT_NAME_LIMIT {
                let mapped = if char_is_alphanumeric(c) {
                    c
                } else {
                    '_'
                };
                crate::text::push_char(&mut out, mapped);
                count = count + 1;
            }
            j = j + 1;
        }
        assert(pre + low@.take(low.len() as int) =~= pre + low@);
        i = i + 1;
    }
    assert(t@.take(t.len() as int) =~= t@);
    out
}


pub open spec fn digit_char(d: int) -> char {
    (48 + d) as char
}

/// The decimal digits of `n`.
pub open spec fn decimal(n: nat) -> Seq<char>
    decreases n,
{
    if n < 10 {
        seq![digit_char(n as int)]
    } else {
        decimal(n / 10).push(digit_char((n % 10) as int))
    }
}

/// The positional parameter `$n`.
pub open spec fn positional(n: nat) -> Seq<char> {
    seq!['$'] + decimal(n)
}

fn push_decimal(out: &mut Vec<char>, n: usize)
    ensures
        final(out)@ == old(out)@ + decimal(n as nat),
    decreases n,
{
    if n >= 10 {
        push_decimal(out, n / 10);
    }
    let d = (n % 10) as u8;
    let c = (48u8 + d) as char;
    assert(c == digit_char((n % 10) as int));
    out.push(c);
    assert(final(out)@ =~= old(out)@ + decimal(n as nat));
}

fn positional_chars(n: usize) -> (r: Vec<char>)
    ensures
        r@ == positional(n as nat),
{
    let mut r: Vec<char> = Vec::new();
    r.push('$');
    push_decimal(&mut r, n);
    assert(r@ =~= positional(n as nat));
    r
}

/// A replacement: the byte range `start..end` of the command and the text put there.
pub open spec fn replacement_items(sel: Seq<CommandToken>) -> Seq<(int, int, Seq<char>)> {
    Seq::new(sel.len(), |i: int| (sel[i].start as int, sel[i].end as int, positional((i + 1) as nat)))
}

/// The replacement with the greatest start.
pub open spec fn top_item(items: Seq<(int, int, Seq<char>)>) -> int {
    choose|m: int|
        #![trigger items[m]]
        0 <= m < items.len() && forall|j: int| 0 <= j < items.len() ==> (#[trigger] items[j]).0 <= items[m].0
}

/// A non-empty list of replacements has one with the greatest start.
pub proof fn lemma_top_item(items: Seq<(int, int, Seq<char>)>)
    requires
        items.len() > 0,
    ensures
        0 <= top_item(items) < items.len(),
        forall|j: int| 0 <= j < items.len() ==> (#[trigger] items[j]).0 <= items[top_item(items)].0,
{
    let w = greatest_start(items);
    assert(items[w] == items[w]);
}

proof fn greatest_start(items: Seq<(int, int, Seq<char>)>) -> (w: int)
    requires
        items.len() > 0,
    ensures
        0 <= w < items.len(),
        forall|j: int| 0 <= j < items.len() ==> (#[trigger] items[j]).0 <= items[w].0,
    decreases items.len(),
{
    if items.len() == 1 {
        0
    } else {
        let d = items.drop_last();
        let m = greatest_start(d);
        assert forall|j: int| 0 <= j < d.len() implies #[trigger] items[j] == d[j] by {}
        if items.last().0 >= d[m].0 {
            items.len() - 1
        } else {
            assert(items[m] == d[m]);
            m
        }
    }
}

/// The bytes `b` with each replacement applied: the byte range of each item
/// replaced by its text, the item with the greatest start first.
pub open spec fn replaced(b: Seq<u8>, items: Seq<(int, int, Seq<char>)>) -> Seq<u8>
    decreases items.len(),
{
    if items.len() == 0 {
        b
    } else {
        proof {
            lemma_top_item(items);
        }
        let m = top_item(items);
        replaced(b.take(items[m].0), items.remove(m)) + encode_utf8(items[m].2) + b.skip(items[m].1)
    }
}

/// Tokens that can be replaced together: each spans whole characters of the
/// command, no two start at the same byte, and no two overlap.
pub open spec fn replaceable(command: Seq<char>, sel: Seq<CommandToken>) -> bool {
    &&& forall|i: int|
        0 <= i < sel.len() ==> {
            &&& (#[trigger] sel[i]).start <= sel[i].end
            &&& is_char_boundary(encode_utf8(command), sel[i].start as int)
            &&& is_char_boundary(encode_utf8(command), sel[i].end as int)
        }
    &&& forall|i: int, j: int|
        0 <= i < sel.len() && 0 <= j < sel.len() && i != j ==> {
            &&& (#[trigger] sel[i]).start != (#[trigger] sel[j]).start
            &&& (sel[i].end <= sel[j].start || sel[j].end <= sel[i].start)
        }
}

/// The character position whose byte offset in `v` is `byte`.
fn char_index_of(v: &Vec<char>, byte: usize) -> (k: usize)
    requires
        exists|k: int| 0 <= k <= v.len() && utf8_len(#[trigger] v@.take(k)) == byte,
    ensures
        k <= v.len(),
        utf8_len(v@.take(k as int)) == byte,
{
    let ghost target = choose|k: int| 0 <= k <= v.len() && utf8_len(#[trigger] v@.take(k)) == byte;
    let mut i: usize = 0;
    let mut b: usize = 0;
    assert(v@.take(0) =~= Seq::<char>::empty());
    assert(encode_utf8(v@.take(0)) =~= Seq::<u8>::empty());
    while b < byte
        invariant
            0 <= target <= v.len(),
            utf8_len(v@.take(target)) == byte,
            i <= target,
            b == utf8_len(v@.take(i as int)),
        decreases byte - b,
    {
        proof {
            if i == target {
                assert(false);
            }
            lemma_utf8_len_take_step(v@, i as int);
            lemma_utf8_len_take_mono(v@, i + 1, target);
        }
        b = b + utf8_width(v[i]);
        i = i + 1;
    }
    proof {
        if i < target {
            lemma_utf8_len_take_mono(v@, i as int, target);
        }
    }
    i
}


/// The tokens a slice of token references points to.
pub open spec fn deref_tokens(sel: Seq<&CommandToken>) -> Seq<CommandToken> {
    sel.map_values(|t: &CommandToken| *t)
}

/// The replacements still to apply, by their positions in `items`.
pub open spec fn items_at(items: Seq<(int, int, Seq<char>)>, rem: Seq<usize>) -> Seq<(int, int, Seq<char>)> {
    Seq::new(rem.len(), |q: int| items[rem[q] as int])
}

/// Position in `rem` of the selected token with the greatest start.
fn top_position(sel: &[&CommandToken], rem: &Vec<usize>) -> (p: usize)
    requires
        rem.len() > 0,
        forall|q: int| 0 <= q < rem.len() ==> #[trigger] rem@[q] < sel@.len(),
    ensures
        p < rem.len(),
        forall|q: int|
            0 <= q < rem.len() ==> sel@[#[trigger] rem@[q] as int].start <= sel@[rem@[p as int] as int].start,
{
    let mut p: usize = 0;
    let mut q: usize = 1;
    while q < rem.len()
        invariant
            0 < q <= rem.len(),
            p < q,
            forall|q: int| 0 <= q < rem.len() ==> #[trigger] rem@[q] < sel@.len(),
            forall|r: int| 0 <= r < q ==> sel@[#[trigger] rem@[r] as int].start <= sel@[rem@[p as int] as int].start,
        decreases rem.len() - q,
    {
        if sel[rem[q]].start > sel[rem[p]].start {
            p = q;
        }
        q = q + 1;
    }
    p
}

/// Replaces each selected token of `command` with a positional parameter
/// (`$1` for the first selected, `$2` for the second, ...) and returns the
/// new command with the argument name of each selected token, in the order
/// they were selected.
#[verifier::rlimit(80)]
pub fn replace_tokens_with_positional(command: &str, selected: &[&CommandToken]) -> (r: (String, Vec<String>))
    requires
        replaceable(command@, deref_tokens(selected@)),
    ensures
        encode_utf8(r.0@) == replaced(encode_utf8(command@), replacement_items(deref_tokens(selected@))),
        r.0@ == vstd::utf8::decode_utf8(replaced(encode_utf8(command@), replacement_items(deref_tokens(selected@)))),
        r.1.len() == selected.len(),
        forall|i: int| 0 <= i < selected.len() ==> (#[trigger] r.1@[i])@ == argument_name(selected@[i].value@),
{
    broadcast use vstd::utf8::encode_utf8_decode_utf8;

    let v = chars_of(command);
    let n = v.len();
    let k = selected.len();
    let ghost sv = deref_tokens(selected@);
    let ghost items = replacement_items(sv);
    let ghost bytes = encode_utf8(v@);
    if k == 0 {
        assert(v@.subrange(0, n as int) =~= v@);
        assert(items =~= Seq::<(int, int, Seq<char>)>::empty());
        return (string_of(&v, 0, n), Vec::new());
    }
    let mut arguments: Vec<String> = Vec::new();
    let mut cs: Vec<usize> = Vec::new();
    let mut ce: Vec<usize> = Vec::new();
    let mut rem: Vec<usize> = Vec::new();
    let mut i: usize = 0;
    while i < k
        invariant
            k == selected.len() == sv.len(),
            sv == deref_tokens(selected@),
            v@ == command@,
            n == v.len(),
            replaceable(v@, sv),
            i <= k,
            arguments.len() == i,
            forall|j: int| 0 <= j < i ==> (#[trigger] arguments@[j])@ == argument_name(sv[j].value@),
            cs.len() == i,
            ce.len() == i,
            rem.len() == i,
            forall|j: int|
                0 <= j < i ==> {
                    &&& (#[trigger] cs@[j]) <= ce@[j] <= n
                    &&& utf8_len(v@.take(cs@[j] as int)) == sv[j].start
                    &&& utf8_len(v@.take(ce@[j] as int)) == sv[j].end
                },
            forall|j: int| 0 <= j < i ==> #[trigger] rem@[j] == j,
        decreases k - i,
    {
        let t: &CommandToken = selected[i];
        assert(sv[i as int] == *t);
        arguments.push(sanitize_argument_name(t.value.as_str()));
        proof {
            crate::text::lemma_char_boundary_is_take(v@, t.start as int);
            crate::text::lemma_char_boundary_is_take(v@, t.end as int);
        }
        let a = char_index_of(&v, t.start);
        let b = char_index_of(&v, t.end);
        proof {
            if b < a {
                lemma_utf8_len_take_mono(v@, b as int, a as int);
            }
        }
        let ghost cs0 = cs@;
        let ghost ce0 = ce@;
        cs.push(a);
        ce.push(b);
        rem.push(i);
        proof {
            assert forall|j: int| 0 <= j < i + 1 implies {
                &&& (#[trigger] cs@[j]) <= ce@[j] <= n
                &&& utf8_len(v@.take(cs@[j] as int)) == sv[j].start
                &&& utf8_len(v@.take(ce@[j] as int)) == sv[j].end
            } by {
                if j < i {
                    assert(cs@[j] == cs0[j]);
                    assert(ce@[j] == ce0[j]);
                }
            }
        }
        i = i + 1;
    }
    let mut bound: usize = n;
    let mut tail: Vec<char> = Vec::new();
    proof {
        assert(v@.take(n as int) =~= v@);
        lemma_utf8_len_take_mono(v@, n as int, n as int);
        assert forall|j: int| 0 <= j < k implies #[trigger] items_at(items, rem@)[j] == items[j] by {
            assert(rem@[j] == j);
        }
        assert(items_at(items, rem@) =~= items);
        assert(bytes.take(utf8_len(v@.take(n as int)) as int) =~= bytes);
        assert(encode_utf8(tail@) =~= Seq::<u8>::empty());
        assert forall|q: int| 0 <= q < rem.len() implies sv[#[trigger] rem@[q] as int].end <= utf8_len(v@.take(n as int)) by {
            assert(rem@[q] == q);
            let j = rem@[q] as int;
            assert(cs@[j] <= ce@[j]);
            assert(ce@[j] <= n);
            lemma_utf8_len_take_mono(v@, ce@[j] as int, n as int);
        }
        assert forall|q1: int, q2: int| 0 <= q1 < rem.len() && 0 <= q2 < rem.len() && q1 != q2 implies #[trigger] rem@[q1] != #[trigger] rem@[q2] by {
            assert(rem@[q1] == q1);
            assert(rem@[q2] == q2);
        }
        assert(rem_ok(sv, rem@, utf8_len(v@.take(n as int)) as int));
        assert(positions_ok(v@, sv, cs@, ce@));
    }
    while rem.len() > 0
        invariant
            sv == deref_tokens(selected@),
            items == replacement_items(sv),
            bytes == encode_utf8(v@),
            replaceable(v@, sv),
            positions_ok(v@, sv, cs@, ce@),
            bound <= v.len(),
            rem_ok(sv, rem@, utf8_len(v@.take(bound as int)) as int),
            replaced(bytes, items) == replaced(bytes.take(utf8_len(v@.take(bound as int)) as int), items_at(items, rem@)) + encode_utf8(tail@),
        decreases rem.len(),
    {
        let r = replace_last(&v, selected, &cs, &ce, &mut rem, bound, tail);
        bound = r.0;
        tail = r.1;
    }
    proof {
        lemma_encode_utf8_subrange(v@, bound as int, bound as int);
        assert(items_at(items, rem@) =~= Seq::<(int, int, Seq<char>)>::empty());
    }
    let mut res = crate::text::slice_chars(&v, 0, bound);
    let mut j: usize = 0;
    let ghost head = res@;
    while j < tail.len()
        invariant
            j <= tail.len(),
            res@ == head + tail@.take(j as int),
        decreases tail.len() - j,
    {
        res.push(tail[j]);
        assert(head + tail@.take(j + 1) =~= (head + tail@.take(j as int)).push(tail@[j as int]));
        j = j + 1;
    }
    proof {
        assert(tail@.take(tail.len() as int) =~= tail@);
        assert(head =~= v@.take(bound as int));
        crate::text::lemma_encode_utf8_concat(head, tail@);
    }
    let out = string_of(&res, 0, res.len());
    assert(res@.subrange(0, res@.len() as int) =~= res@);
    (out, arguments)
}


/// Each selected token's start and end as character positions of `v`.
pub open spec fn positions_ok(v: Seq<char>, sv: Seq<CommandToken>, cs: Seq<usize>, ce: Seq<usize>) -> bool {
    &&& cs.len() == sv.len()
    &&& ce.len() == sv.len()
    &&& forall|j: int|
        0 <= j < sv.len() ==> {
            &&& (#[trigger] cs[j]) <= ce[j] <= v.len()
            &&& utf8_len(v.take(cs[j] as int)) == sv[j].start
            &&& utf8_len(v.take(ce[j] as int)) == sv[j].end
        }
}

/// The tokens still to replace: distinct, all ending by byte `bb`.
pub open spec fn rem_ok(sv: Seq<CommandToken>, rem: Seq<usize>, bb: int) -> bool {
    &&& forall|q: int| 0 <= q < rem.len() ==> #[trigger] rem[q] < sv.len()
    &&& forall|q1: int, q2: int|
        0 <= q1 < rem.len() && 0 <= q2 < rem.len() && q1 != q2 ==> #[trigger] rem[q1] != #[trigger] rem[q2]
    &&& forall|q: int| 0 <= q < rem.len() ==> sv[#[trigger] rem[q] as int].end <= bb
}

/// Replaces the remaining token with the greatest start: the text from its
/// end up to `bound` and its positional parameter go in front of `tail`.
#[verifier::rlimit(40)]
fn replace_last(
    v: &Vec<char>,
    selected: &[&CommandToken],
    cs: &Vec<usize>,
    ce: &Vec<usize>,
    rem: &mut Vec<usize>,
    bound: usize,
    tail: Vec<char>,
) -> (r: (usize, Vec<char>))
    requires
        replaceable(v@, deref_tokens(selected@)),
        positions_ok(v@, deref_tokens(selected@), cs@, ce@),
        old(rem).len() > 0,
        bound <= v.len(),
        rem_ok(deref_tokens(selected@), old(rem)@, utf8_len(v@.take(bound as int)) as int),
    ensures
        final(rem).len() == old(rem).len() - 1,
        r.0 <= v.len(),
        rem_ok(deref_tokens(selected@), final(rem)@, utf8_len(v@.take(r.0 as int)) as int),
        replaced(encode_utf8(v@).take(utf8_len(v@.take(bound as int)) as int), items_at(replacement_items(deref_tokens(selected@)), old(rem)@))
            + encode_utf8(tail@) == replaced(encode_utf8(v@).take(utf8_len(v@.take(r.0 as int)) as int), items_at(
            replacement_items(deref_tokens(selected@)),
            final(rem)@,
        )) + encode_utf8(r.1@),
{
    let ghost sv = deref_tokens(selected@);
    let ghost items = replacement_items(sv);
    let ghost bytes = encode_utf8(v@);
    let p = top_position(selected, rem);
    let idx = rem[p];
    let t: &CommandToken = selected[idx];
    let ghost rs = items_at(items, rem@);
    let ghost bb = utf8_len(v@.take(bound as int));
    let ghost old_rem = rem@;
    proof {
        assert(sv[idx as int] == *t);
        lemma_top_item(rs);
        let m = top_item(rs);
        assert(rs[m].0 <= rs[p as int].0);
        assert(sel_start_le(sv, rem@[m] as int, idx as int));
        if m != p as int {
            assert(rem@[m] != rem@[p as int]);
        }
        assert(m == p as int);
        assert(rs.remove(m) =~= items_at(items, rem@.remove(p as int)));
        assert(idx < sv.len());
        assert(positions_ok(v@, sv, cs@, ce@));
        assert(cs@[idx as int] <= ce@[idx as int]);
        assert(ce@[idx as int] <= v.len());
        if ce@[idx as int] > bound {
            lemma_utf8_len_take_mono(v@, bound as int, ce@[idx as int] as int);
        }
        lemma_encode_utf8_subrange(v@, ce@[idx as int] as int, bound as int);
        lemma_utf8_len_take_mono(v@, bound as int, v.len() as int);
        assert(sv[idx as int].end <= bb);
        assert(t.start <= t.end);
        assert(bytes.take(bb as int).take(t.start as int) =~= bytes.take(t.start as int));
        assert(bytes.take(bb as int).skip(t.end as int) =~= bytes.subrange(t.end as int, bb as int));
        assert(replaced(bytes.take(bb as int), rs) == replaced(bytes.take(t.start as int), rs.remove(m))
            + encode_utf8(positional((idx + 1) as nat)) + bytes.subrange(t.end as int, bb as int));
    }
    let mut nt = positional_chars(idx + 1);
    let ghost label = nt@;
    crate::text::extend_chars(&mut nt, v, ce[idx], bound);
    let ghost mid = nt@;
    let mut j: usize = 0;
    while j < tail.len()
        invariant
            j <= tail.len(),
            nt@ == mid + tail@.take(j as int),
        decreases tail.len() - j,
    {
        nt.push(tail[j]);
        assert(mid + tail@.take(j + 1) =~= (mid + tail@.take(j as int)).push(tail@[j as int]));
        j = j + 1;
    }
    proof {
        assert(tail@.take(tail.len() as int) =~= tail@);
        let piece = v@.subrange(ce@[idx as int] as int, bound as int);
        crate::text::lemma_encode_utf8_concat(label, piece);
        crate::text::lemma_encode_utf8_concat(label + piece, tail@);
        assert(nt@ == label + piece + tail@);
    }
    let new_bound = cs[idx];
    rem.remove(p);
    proof {
        assert(utf8_len(v@.take(new_bound as int)) == t.start);
        assert forall|q: int| 0 <= q < rem.len() implies sv[#[trigger] rem@[q] as int].end <= utf8_len(v@.take(new_bound as int)) by {
            let q0 = if q < p { q } else { q + 1 };
            assert(rem@[q] == old_rem[q0]);
            let jj = old_rem[q0] as int;
            assert(jj != idx as int);
            assert(sel_start_le(sv, jj, idx as int));
            assert(sv[jj].start != sv[idx as int].start);
        }
        assert forall|q: int| 0 <= q < rem.len() implies #[trigger] rem@[q] < sv.len() by {
            let q0 = if q < p { q } else { q + 1 };
            assert(rem@[q] == old_rem[q0]);
        }
        assert forall|q1: int, q2: int| 0 <= q1 < rem.len() && 0 <= q2 < rem.len() && q1 != q2 implies #[trigger] rem@[q1] != #[trigger] rem@[q2] by {
            let a1 = if q1 < p { q1 } else { q1 + 1 };
            let a2 = if q2 < p { q2 } else { q2 + 1 };
            assert(rem@[q1] == old_rem[a1]);
            assert(rem@[q2] == old_rem[a2]);
        }
    }
    (new_bound, nt)
}

/// The selected token at `a` starts no later than the one at `b`.
pub open spec fn sel_start_le(sv: Seq<CommandToken>, a: int, b: int) -> bool {
    sv[a].start <= sv[b].start
}


/// Tokens lie in order, each within whole characters, none touching the next.
#[verifier::spinoff_prover]
#[verifier::rlimit(40)]
pub proof fn lemma_tokens_from_ordered(s: Seq<char>, i: int)
    requires
        0 <= i <= s.len(),
    ensures
        forall|k: int|
            0 <= k < tokens_from(s, i).len() ==> {
                &&& utf8_len(s.take(i)) <= (#[trigger] tokens_from(s, i)[k]).1 <= tokens_from(s, i)[k].2
                &&& tokens_from(s, i)[k].2 <= utf8_len(s)
                &&& is_char_boundary(encode_utf8(s), tokens_from(s, i)[k].1)
                &&& is_char_boundary(encode_utf8(s), tokens_from(s, i)[k].2)
            },
        forall|k1: int, k2: int|
            0 <= k1 < k2 < tokens_from(s, i).len() ==> (#[trigger] tokens_from(s, i)[k1]).2
                < (#[trigger] tokens_from(s, i)[k2]).1,
    decreases s.len() - i,
{
    if i < s.len() {
        lemma_utf8_len_take_step(s, i);
        if is_ws(s[i]) {
            lemma_tokens_from_ordered(s, i + 1);
            assert(tokens_from(s, i) == tokens_from(s, i + 1));
        } else {
            let e = word_end(s, i);
            lemma_word_end(s, i);
            let w = s.subrange(i, e);
            let head: Seq<(Seq<char>, int, int)> = if is_skipped_word(w) {
                seq![]
            } else {
                seq![(w, utf8_len(s.take(i)) as int, utf8_len(s.take(e)) as int)]
            };
            let rest = tokens_from(s, e);
            assert(tokens_from(s, i) == head + rest);
            lemma_utf8_len_take_mono(s, i, e);
            lemma_utf8_len_take_mono(s, e, s.len() as int);
            lemma_char_boundary_of_take(s, i);
            lemma_char_boundary_of_take(s, e);
            lemma_tokens_from_ordered(s, e);
            if e < s.len() {
                assert(is_ws(s[e])) by {
                    assert(s.skip(i)[e - i] == s[e]);
                    crate::text::lemma_run_len_bound(s.skip(i), crate::text::non_ws_pred());
                    lemma_run_len_stop(s.skip(i), e - i);
                }
                assert(rest == tokens_from(s, e + 1));
                lemma_tokens_from_ordered(s, e + 1);
                lemma_utf8_len_take_step(s, e);
            } else {
                assert(rest =~= Seq::<(Seq<char>, int, int)>::empty());
            }
            assert forall|k1: int, k2: int|
                0 <= k1 < k2 < tokens_from(s, i).len() implies (#[trigger] tokens_from(s, i)[k1]).2
                    < (#[trigger] tokens_from(s, i)[k2]).1 by {
                if head.len() == 1 && k1 == 0 {
                    assert(tokens_from(s, i)[k2] == rest[k2 - 1]);
                } else {
                    assert(tokens_from(s, i)[k1] == rest[k1 - head.len()]);
                    assert(tokens_from(s, i)[k2] == rest[k2 - head.len()]);
                }
            }
            assert forall|k: int| 0 <= k < tokens_from(s, i).len() implies {
                &&& utf8_len(s.take(i)) <= (#[trigger] tokens_from(s, i)[k]).1 <= tokens_from(s, i)[k].2
                &&& tokens_from(s, i)[k].2 <= utf8_len(s)
                &&& is_char_boundary(encode_utf8(s), tokens_from(s, i)[k].1)
                &&& is_char_boundary(encode_utf8(s), tokens_from(s, i)[k].2)
            } by {
                if !(head.len() == 1 && k == 0) {
                    assert(tokens_from(s, i)[k] == rest[k - head.len()]);
                }
            }
        }
    }
}

proof fn lemma_run_len_stop(t: Seq<char>, k: int)
    requires
        0 <= k < t.len(),
        k == crate::text::run_len(t, crate::text::non_ws_pred()),
    ensures
        is_ws(t[k]),
    decreases k,
{
    if k > 0 {
        lemma_run_len_stop(t.drop_first(), k - 1);
    }
}

/// Any selection of distinct tokens of a command can be replaced together.
pub proof fn lemma_tokens_replaceable(command: Seq<char>, sel: Seq<CommandToken>)
    requires
        forall|i: int| 0 <= i < sel.len() ==> command_tokens(command).contains(token_view(#[trigger] sel[i])),
        forall|i: int, j: int| 0 <= i < j < sel.len() ==> token_view(#[trigger] sel[i]) != token_view(#[trigger] sel[j]),
    ensures
        replaceable(command, sel),
{
    let ts = command_tokens(command);
    lemma_tokens_from_ordered(command, 0);
    assert forall|i: int, j: int| 0 <= i < sel.len() && 0 <= j < sel.len() && i != j implies {
        &&& (#[trigger] sel[i]).start != (#[trigger] sel[j]).start
        &&& (sel[i].end <= sel[j].start || sel[j].end <= sel[i].start)
    } by {
        assert(ts.contains(token_view(sel[i])));
        assert(ts.contains(token_view(sel[j])));
        let a = choose|a: int| 0 <= a < ts.len() && ts[a] == token_view(sel[i]);
        let b = choose|b: int| 0 <= b < ts.len() && ts[b] == token_view(sel[j]);
        if i < j {
            assert(token_view(sel[i]) != token_view(sel[j]));
        } else {
            assert(token_view(sel[j]) != token_view(sel[i]));
        }
        assert(a != b);
        assert(ts[a] == tokens_from(command, 0)[a]);
        if a < b {
            assert(tokens_from(command, 0)[a].2 < tokens_from(command, 0)[b].1);
        } else {
            assert(tokens_from(command, 0)[b].2 < tokens_from(command, 0)[a].1);
        }
    }
    assert forall|i: int| 0 <= i < sel.len() implies {
        &&& (#[trigger] sel[i]).start <= sel[i].end
        &&& is_char_boundary(encode_utf8(command), sel[i].start as int)
        &&& is_char_boundary(encode_utf8(command), sel[i].end as int)
    } by {
        assert(ts.contains(token_view(sel[i])));
        let a = choose|a: int| 0 <= a < ts.len() && ts[a] == token_view(sel[i]);
        assert(tokens_from(command, 0)[a] == ts[a]);
    }
}


/// Words that only prefix the command that is really run.
pub open spec fn is_prefix_word(w: Seq<char>) -> bool {
    ||| w == seq!['s', 'u', 'd', 'o']
    ||| w == seq!['e', 'n', 'v']
    ||| w == seq!['n', 'o', 'h', 'u', 'p']
    ||| w == seq!['n', 'i', 'c', 'e']
    ||| w == seq!['t', 'i', 'm', 'e']
    ||| w == seq!['c', 'o', 'm', 'm', 'a', 'n', 'd']
    ||| w == seq!['b', 'u', 'i', 'l', 't', 'i', 'n']
    ||| w == seq!['e', 'x', 'e', 'c']
}

/// A word a function can be named after: not a prefix word, not a flag, not
/// an assignment.
pub open spec fn is_name_word(w: Seq<char>) -> bool {
    !is_prefix_word(w) && !(w.len() > 0 && w[0] == '-') && !w.contains('=')
}

/// The first word of `s` from position `i` on that a function can be named after.
pub open spec fn name_word_from(s: Seq<char>, i: int) -> Option<Seq<char>>
    decreases s.len() - i,
{
    if i < 0 || i >= s.len() {
        None
    } else if is_ws(s[i]) {
        name_word_from(s, i + 1)
    } else {
        let e = word_end(s, i);
        proof {
            lemma_word_end(s, i);
        }
        let w = s.subrange(i, e);
        if is_name_word(w) {
            Some(w)
        } else {
            name_word_from(s, e)
        }
    }
}

/// The default name for a function running `command`: the slug of its first
/// word that is not a prefix word, a flag or an assignment; empty when there
/// is none.
pub open spec fn suggested_name(command: Seq<char>) -> Seq<char> {
    match name_word_from(command, 0) {
        Some(w) => crate::functions::slugified(w),
        None => seq![],
    }
}

fn word_equals(v: &Vec<char>, lo: usize, hi: usize, w: &[char]) -> (b: bool)
    requires
        lo <= hi <= v.len(),
    ensures
        b == (v@.subrange(lo as int, hi as int) == w@),
{
    if hi - lo != w.len() {
        return false;
    }
    let mut i: usize = 0;
    while i < w.len()
        invariant
            hi - lo == w.len(),
            lo <= hi <= v.len(),
            i <= w.len(),
            forall|j: int| 0 <= j < i ==> v@[lo + j] == w@[j],
        decreases w.len() - i,
    {
        if v[lo + i] != w[i] {
            assert(v@.subrange(lo as int, hi as int)[i as int] != w@[i as int]);
            return false;
        }
        i = i + 1;
    }
    assert(v@.subrange(lo as int, hi as int) =~= w@);
    true
}

fn is_prefix_word_at(v: &Vec<char>, lo: usize, hi: usize) -> (b: bool)
    requires
        lo <= hi <= v.len(),
    ensures
        b == is_prefix_word(v@.subrange(lo as int, hi as int)),
{
    let sudo: [char; 4] = ['s', 'u', 'd', 'o'];
    let env: [char; 3] = ['e', 'n', 'v'];
    let nohup: [char; 5] = ['n', 'o', 'h', 'u', 'p'];
    let nice: [char; 4] = ['n', 'i', 'c', 'e'];
    let time: [char; 4] = ['t', 'i', 'm', 'e'];
    let command: [char; 7] = ['c', 'o', 'm', 'm', 'a', 'n', 'd'];
    let builtin: [char; 7] = ['b', 'u', 'i', 'l', 't', 'i', 'n'];
    let exec: [char; 4] = ['e', 'x', 'e', 'c'];
    word_equals(v, lo, hi, &sudo) || word_equals(v, lo, hi, &env) || word_equals(v, lo, hi, &nohup)
        || word_equals(v, lo, hi, &nice) || word_equals(v, lo, hi, &time) || word_equals(
        v,
        lo,
        hi,
        &command,
    ) || word_equals(v, lo, hi, &builtin) || word_equals(v, lo, hi, &exec)
}

fn contains_char(v: &Vec<char>, lo: usize, hi: usize, c: char) -> (b: bool)
    requires
        lo <= hi <= v.len(),
    ensures
        b == v@.subrange(lo as int, hi as int).contains(c),
{
    let k = crate::text::find_char(v, lo, hi, c);
    proof {
        let w = v@.subrange(lo as int, hi as int);
        if k < hi {
            assert(w[k - lo] == c);
        } else {
            assert forall|j: int| 0 <= j < w.len() implies w[j] != c by {
                assert(w[j] == v@[lo + j]);
            }
        }
    }
    k < hi
}

/// A default name for a function running `command` (see `suggested_name`).
pub fn suggest_name(command: &str) -> (name: String)
    ensures
        name@ == suggested_name(command@),
        crate::functions::is_slug(name@),
{
    let v = chars_of(command);
    let n = v.len();
    let mut i: usize = 0;
    while i < n
        invariant
            n == v.len(),
            v@ == command@,
            i <= n,
            name_word_from(v@, 0) == name_word_from(v@, i as int),
        decreases n - i,
    {
        if char_is_whitespace(v[i]) {
            i = i + 1;
        } else {
            let mut e = i;
            while e < n && !char_is_whitespace(v[e])
                invariant
                    i <= e <= n == v.len(),
                    forall|j: int| i <= j < e ==> !is_ws(#[trigger] v@[j]),
                decreases n - e,
            {
                e = e + 1;
            }
            proof {
                lemma_word_end_is(v@, i as int, e as int);
            }
            let ghost w = v@.subrange(i as int, e as int);
            let is_flag = v[i] == '-';
            assert(w[0] == v@[i as int]);
            if !is_prefix_word_at(&v, i, e) && !is_flag && !contains_char(&v, i, e, '=') {
                assert(name_word_from(v@, i as int) == Some(w));
                let word = string_of(&v, i, e);
                return crate::functions::slugify(word.as_str());
            }
            i = e;
        }
    }
    let empty = String::new();
    assert(crate::functions::is_slug(empty@));
    empty
}


/// The trimmed text, unless nothing but whitespace is left.
pub open spec fn nonblank(text: Seq<char>) -> Option<Seq<char>> {
    if trim(text).len() > 0 {
        Some(trim(text))
    } else {
        None
    }
}

/// The trimmed text, unless it is empty (see `nonblank`).
pub fn nonblank_text(text: &str) -> (r: Option<String>)
    ensures
        match r {
            Some(s) => nonblank(text@) == Some(s@),
            None => nonblank(text@) is None,
        },
{
    let v = chars_of(text);
    let (a, b) = crate::text::trim_bounds(&v, 0, v.len());
    assert(v@.subrange(0, v@.len() as int) =~= v@);
    if a < b {
        Some(string_of(&v, a, b))
    } else {
        None
    }
}

/// The command read from standard input: its trimmed text, or
/// `NoStdinInput` when that is empty.
pub fn command_from_stdin(text: &str) -> (r: Result<String, FunkyError>)
    ensures
        match nonblank(text@) {
            Some(c) => r matches Ok(s) && s@ == c,
            None => r matches Err(e) && e is NoStdinInput,
        },
{
    match nonblank_text(text) {
        Some(s) => Ok(s),
        None => Err(FunkyError::NoStdinInput),
    }
}

/// The command taken from the clipboard: its trimmed text, or
/// `EmptyClipboard` when that is empty.
pub fn command_from_clipboard(text: &str) -> (r: Result<String, FunkyError>)
    ensures
        match nonblank(text@) {
            Some(c) => r matches Ok(s) && s@ == c,
            None => r matches Err(e) && e is EmptyClipboard,
        },
{
    match nonblank_text(text) {
        Some(s) => Ok(s),
        None => Err(FunkyError::EmptyClipboard),
    }
}

/// The command taken from a history file: its last line, or
/// `EmptyHistoryFile` when it has none.
pub fn command_from_history(contents: &str) -> (r: Result<String, FunkyError>)
    ensures
        match r {
            Ok(s) => crate::text::lines_of(contents@).len() > 0 && s@ == crate::text::lines_of(
                contents@,
            ).last(),
            Err(e) => crate::text::lines_of(contents@).len() == 0 && e is EmptyHistoryFile,
        },
{
    let v = chars_of(contents);
    let lines = crate::text::line_ranges(&v);
    if lines.len() == 0 {
        return Err(FunkyError::EmptyHistoryFile);
    }
    let (lo, hi) = lines[lines.len() - 1];
    Ok(string_of(&v, lo, hi))
}

/// Words joined with single spaces.
pub open spec fn joined(words: Seq<Seq<char>>) -> Seq<char>
    decreases words.len(),
{
    if words.len() == 0 {
        seq![]
    } else if words.len() == 1 {
        words[0]
    } else {
        joined(words.drop_last()) + seq![' '] + words.last()
    }
}

/// The command given as words after `--`: the words joined with spaces, or
/// `NoVargs` when none were given.
pub fn command_from_vargs(function: &Option<Vec<String>>) -> (r: Result<String, FunkyError>)
    ensures
        match function {
            Some(words) => r matches Ok(s) && s@ == joined(crate::text::string_views(words@)),
            None => r matches Err(e) && e is NoVargs,
        },
{
    match function {
        None => Err(FunkyError::NoVargs),
        Some(words) => {
            let ghost ws = crate::text::string_views(words@);
            let mut out = String::new();
            let mut i: usize = 0;
            assert(ws.take(0) =~= Seq::<Seq<char>>::empty());
            while i < words.len()
                invariant
                    i <= words.len(),
                    ws == crate::text::string_views(words@),
                    out@ == joined(ws.take(i as int)),
                decreases words.len() - i,
            {
                assert(ws.take(i + 1).drop_last() =~= ws.take(i as int));
                assert(ws.take(i + 1).last() == words@[i as int]@);
                if i > 0 {
                    crate::text::push_char(&mut out, ' ');
                } else {
                    assert(ws.take(1) =~= seq![words@[0]@]);
                }
                out.append(words[i].as_str());
                i = i + 1;
            }
            assert(ws.take(words.len() as int) =~= ws);
            Ok(out)
        },
    }
}

/// The function name `new` was given, or `NameRequired`.
pub fn required_name(args: &NewArgs) -> (r: Result<String, FunkyError>)
    ensures
        match args.name {
            Some(n) => r matches Ok(s) && s@ == n@,
            None => r matches Err(e) && e is NameRequired,
        },
{
    match &args.name {
        Some(n) => Ok(n.clone()),
        None => Err(FunkyError::NameRequired),
    }
}

/// A function that exists is replaced only when overwriting was asked for:
/// `AlreadyExists` exactly when it exists and `overwrite` is off.
pub fn check_overwrite(overwrite: bool, exists: bool, name: &Slug) -> (r: Result<(), FunkyError>)
    ensures
        r is Err <==> (exists && !overwrite),
        r matches Err(e) ==> (e matches FunkyError::AlreadyExists(n) && n@ == name@),
{
    if !overwrite && exists {
        Err(FunkyError::AlreadyExists(String::from_str(name.as_str())))
    } else {
        Ok(())
    }
}


/// What has to be read to get the command of a new function.
#[derive(Debug, Clone, PartialEq, Eq)]
pub enum SourcePlan {
    /// Read the history file and take its last line.
    ReadHistory,
    /// Read standard input.
    ReadStdin,
    /// Read the clipboard.
    ReadClipboard,
    /// The command is already known.
    Command(String),
}

/// Where the command of a new function comes from, given the chosen source,
/// the words after `--` and whether standard input is a pipe. Standard input
/// is read only from a pipe (`NoStdinInput` otherwise); with the default
/// `vargs` source and no words after `--`, a piped standard input is read
/// instead (`NoVargs` when there is none).
pub fn source_plan(source: FunctionSource, function: &Option<Vec<String>>, stdin_piped: bool) -> (r: Result<SourcePlan, FunkyError>)
    ensures
        match source {
            FunctionSource::History => r == Ok::<SourcePlan, FunkyError>(SourcePlan::ReadHistory),
            FunctionSource::Clipboard => r == Ok::<SourcePlan, FunkyError>(SourcePlan::ReadClipboard),
            FunctionSource::StdIn => if stdin_piped {
                r == Ok::<SourcePlan, FunkyError>(SourcePlan::ReadStdin)
            } else {
                r matches Err(e) && e is NoStdinInput
            },
            FunctionSource::Vargs => match function {
                Some(words) => r matches Ok(SourcePlan::Command(c)) && c@ == joined(crate::text::string_views(words@)),
                None => if stdin_piped {
                    r == Ok::<SourcePlan, FunkyError>(SourcePlan::ReadStdin)
                } else {
                    r matches Err(e) && e is NoVargs
                },
            },
        },
{
    match source {
        FunctionSource::History => Ok(SourcePlan::ReadHistory),
        FunctionSource::Clipboard => Ok(SourcePlan::ReadClipboard),
        FunctionSource::StdIn => if stdin_piped {
            Ok(SourcePlan::ReadStdin)
        } else {
            Err(FunkyError::NoStdinInput)
        },
        FunctionSource::Vargs => match function {
            Some(_) => match command_from_vargs(function) {
                Ok(c) => Ok(SourcePlan::Command(c)),
                Err(e) => Err(e),
            },
            None => if stdin_piped {
                Ok(SourcePlan::ReadStdin)
            } else {
                Err(FunkyError::NoVargs)
            },
        },
    }
}

/// The file text of a new function: `AlreadyExists` when a function of its
/// name exists and overwriting was not asked for, else the zsh function file
/// (see `zsh_function_text`).
pub fn plan_new_function(spec: &crate::functions::FunctionSpec, overwrite: bool, exists: bool) -> (r: Result<String, FunkyError>)
    ensures
        (exists && !overwrite) ==> (r matches Err(e) && (e matches FunkyError::AlreadyExists(n) && n@ == spec.name@)),
        !(exists && !overwrite) ==> (r matches Ok(s) && s@ == crate::functions::zsh::zsh_function_text(
            spec.name@,
            spec.command@,
        )),
{
    match check_overwrite(overwrite, exists, &spec.name) {
        Err(e) => Err(e),
        Ok(()) => crate::functions::zsh::render_function_body(spec),
    }
}

/// The token a word `s[i..e]` of a command makes: its text and byte offsets.
pub open spec fn word_token(s: Seq<char>, i: int, e: int) -> (Seq<char>, int, int) {
    (s.subrange(i, e), utf8_len(s.take(i)) as int, utf8_len(s.take(e)) as int)
}

/// From a position that is not inside a word and comes no later than the
/// word `s[i..e]`, the tokens include that word's token.
proof fn lemma_word_token_from(s: Seq<char>, j: int, i: int, e: int)
    requires
        0 <= j <= i < e <= s.len(),
        i == 0 || is_ws(s[i - 1]),
        e == s.len() || is_ws(s[e]),
        forall|k: int| i <= k < e ==> !is_ws(#[trigger] s[k]),
        s[i] != '-',
        !is_shell_operator(s.subrange(i, e)),
        !s.subrange(i, e).contains('='),
        j == 0 || is_ws(s[j - 1]) || is_ws(s[j]),
    ensures
        tokens_from(s, j).contains(word_token(s, i, e)),
    decreases i - j,
{
    let tok = word_token(s, i, e);
    if j == i {
        lemma_word_end_is(s, i, e);
        let w = s.subrange(i, e);
        assert(w[0] == s[i]);
        assert(!is_skipped_word(w));
        assert(tokens_from(s, i) == seq![tok] + tokens_from(s, e));
        assert(tokens_from(s, i)[0] == tok);
    } else if is_ws(s[j]) {
        lemma_word_token_from(s, j + 1, i, e);
        assert(tokens_from(s, j) == tokens_from(s, j + 1));
    } else {
        let t = s.skip(j);
        crate::text::lemma_run_len_prefix(t, crate::text::non_ws_pred());
        lemma_word_end(s, j);
        let f = word_end(s, j);
        if f > i - 1 {
            assert(t[i - 1 - j] == s[i - 1]);
        }
        assert(f < s.len());
        assert(t[f - j] == s[f]);
        lemma_word_token_from(s, f, i, e);
        let w = s.subrange(j, f);
        let head: Seq<(Seq<char>, int, int)> = if is_skipped_word(w) {
            seq![]
        } else {
            seq![(w, utf8_len(s.take(j)) as int, utf8_len(s.take(f)) as int)]
        };
        let rest = tokens_from(s, f);
        assert(tokens_from(s, j) == head + rest);
        let k = choose|k: int| 0 <= k < rest.len() && rest[k] == tok;
        assert((head + rest)[head.len() + k] == tok);
    }
}

/// Only flags (words that start with `'-'`), shell operators and `NAME=value`
/// assignments are left out of the tokens: every other word of a command,
/// such as `my-server` with a `'-'` inside, is a token, with the byte offsets
/// of where it starts and ends.
pub proof fn lemma_plain_word_is_token(s: Seq<char>, i: int, e: int)
    requires
        0 <= i < e <= s.len(),
        i == 0 || is_ws(s[i - 1]),
        e == s.len() || is_ws(s[e]),
        forall|k: int| i <= k < e ==> !is_ws(#[trigger] s[k]),
        s[i] != '-',
        !is_shell_operator(s.subrange(i, e)),
        !s.subrange(i, e).contains('='),
    ensures
        command_tokens(s).contains(word_token(s, i, e)),
{
    lemma_word_token_from(s, 0, i, e);
}

/// Whitespace before a position changes nothing in the search for a name word.
proof fn lemma_name_word_after_ws(s: Seq<char>, j: int, i: int)
    requires
        0 <= j <= i <= s.len(),
        forall|k: int| j <= k < i ==> is_ws(#[trigger] s[k]),
    ensures
        name_word_from(s, j) == name_word_from(s, i),
    decreases i - j,
{
    if j < i {
        lemma_name_word_after_ws(s, j + 1, i);
    }
}

/// The search for a name word from position `j` of `s` is the search from
/// `j - d` in `s` without its first `d` characters.
proof fn lemma_name_word_shift(s: Seq<char>, d: int, j: int)
    requires
        0 <= d <= j,
        d <= s.len(),
    ensures
        name_word_from(s, j) == name_word_from(s.skip(d), j - d),
    decreases s.len() - j,
{
    let t = s.skip(d);
    if j < s.len() {
        assert(t[j - d] == s[j]);
        if is_ws(s[j]) {
            lemma_name_word_shift(s, d, j + 1);
        } else {
            assert(t.skip(j - d) =~= s.skip(j));
            lemma_word_end(s, j);
            let e = word_end(s, j);
            assert(word_end(t, j - d) == e - d);
            assert(t.subrange(j - d, e - d) =~= s.subrange(j, e));
            lemma_name_word_shift(s, d, e);
        }
    }
}

/// The suggested name is the slug of the command's first word when that word
/// is not a prefix word (`sudo`, `env`, ...), does not start with `'-'` and
/// holds no `'='`; a `'-'` inside the word, as in `docker-compose`, does not
/// matter.
pub proof fn lemma_suggest_first_word(s: Seq<char>, i: int, e: int)
    requires
        0 <= i < e <= s.len(),
        forall|k: int| 0 <= k < i ==> is_ws(#[trigger] s[k]),
        forall|k: int| i <= k < e ==> !is_ws(#[trigger] s[k]),
        e == s.len() || is_ws(s[e]),
        s[i] != '-',
        !is_prefix_word(s.subrange(i, e)),
        !s.subrange(i, e).contains('='),
    ensures
        suggested_name(s) == crate::functions::slugified(s.subrange(i, e)),
{
    lemma_name_word_after_ws(s, 0, i);
    lemma_word_end_is(s, i, e);
    assert(s.subrange(i, e)[0] == s[i]);
}

/// A first word that is a prefix word, a flag (starting with `'-'`) or an
/// assignment is passed over: the name suggested is the one for the rest of
/// the command.
pub proof fn lemma_suggest_skips_first_word(s: Seq<char>, i: int, e: int)
    requires
        0 <= i < e <= s.len(),
        forall|k: int| 0 <= k < i ==> is_ws(#[trigger] s[k]),
        forall|k: int| i <= k < e ==> !is_ws(#[trigger] s[k]),
        e == s.len() || is_ws(s[e]),
        s[i] == '-' || is_prefix_word(s.subrange(i, e)) || s.subrange(i, e).contains('='),
    ensures
        suggested_name(s) == suggested_name(s.skip(e)),
{
    lemma_name_word_after_ws(s, 0, i);
    lemma_word_end_is(s, i, e);
    assert(s.subrange(i, e)[0] == s[i]);
    lemma_name_word_shift(s, e, e);
}

} // verus!

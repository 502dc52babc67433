//! Character-level building blocks shared by the parsers: Unicode whitespace,
//! trimming, line splitting, searching, and UTF-8 byte offsets.
use vstd::prelude::*;
use vstd::utf8::*;

verus! {

/// The characters with the Unicode `White_Space` property.
pub open spec fn is_ws(c: char) -> bool {
    let u = c as u32;
    ||| 0x09 <= u <= 0x0D
    ||| u == 0x20
    ||| u == 0x85
    ||| u == 0xA0
    ||| u == 0x1680
    ||| 0x2000 <= u <= 0x200A
    ||| u == 0x2028
    ||| u == 0x2029
    ||| u == 0x202F
    ||| u == 0x205F
    ||| u == 0x3000
}

/// Whether `c` has the Unicode `White_Space` property (`is_ws`), as
/// `char::is_whitespace` decides it.
pub fn char_is_whitespace(c: char) -> (b: bool)
    ensures
        b == is_ws(c),
{
    let u = c as u32;
    (0x09 <= u && u <= 0x0D) || u == 0x20 || u == 0x85 || u == 0xA0 || u == 0x1680 || (0x2000 <= u
        && u <= 0x200A) || u == 0x2028 || u == 0x2029 || u == 0x202F || u == 0x205F || u == 0x3000
}

/// `String::push`: appends one character.
#[verifier::external_body]
pub(crate) fn push_char(s: &mut String, c: char)
    ensures
        final(s)@ == old(s)@.push(c),
{
    s.push(c)
}

/// Length of the longest prefix of `s` whose characters all satisfy `p`.
pub open spec fn run_len(s: Seq<char>, p: spec_fn(char) -> bool) -> nat
    decreases s.len(),
{
    if s.len() > 0 && p(s[0]) {
        1 + run_len(s.drop_first(), p)
    } else {
        0
    }
}

/// Length of the longest suffix of `s` whose characters all satisfy `p`.
pub open spec fn back_run_len(s: Seq<char>, p: spec_fn(char) -> bool) -> nat
    decreases s.len(),
{
    if s.len() > 0 && p(s.last()) {
        1 + back_run_len(s.drop_last(), p)
    } else {
        0
    }
}

pub proof fn lemma_run_len_bound(s: Seq<char>, p: spec_fn(char) -> bool)
    ensures
        run_len(s, p) <= s.len(),
    decreases s.len(),
{
    if s.len() > 0 && p(s[0]) {
        lemma_run_len_bound(s.drop_first(), p);
    }
}

/// Every character of the run that `run_len` measures satisfies `p`, and the
/// one after it, if any, does not.
pub proof fn lemma_run_len_prefix(s: Seq<char>, p: spec_fn(char) -> bool)
    ensures
        run_len(s, p) <= s.len(),
        forall|i: int| 0 <= i < run_len(s, p) ==> p(#[trigger] s[i]),
        run_len(s, p) < s.len() ==> !p(s[run_len(s, p) as int]),
    decreases s.len(),
{
    if s.len() > 0 && p(s[0]) {
        let t = s.drop_first();
        lemma_run_len_prefix(t, p);
        assert forall|i: int| 0 <= i < run_len(s, p) implies p(#[trigger] s[i]) by {
            if i > 0 {
                assert(s[i] == t[i - 1]);
            }
        }
        if run_len(s, p) < s.len() {
            assert(s[run_len(s, p) as int] == t[run_len(t, p) as int]);
        }
    }
}

/// Every character of the run that `back_run_len` measures satisfies `p`.
pub proof fn lemma_back_run_len_suffix(s: Seq<char>, p: spec_fn(char) -> bool)
    ensures
        back_run_len(s, p) <= s.len(),
        forall|i: int| s.len() - back_run_len(s, p) <= i < s.len() ==> p(#[trigger] s[i]),
    decreases s.len(),
{
    if s.len() > 0 && p(s.last()) {
        let t = s.drop_last();
        lemma_back_run_len_suffix(t, p);
        assert forall|i: int| s.len() - back_run_len(s, p) <= i < s.len() implies p(#[trigger] s[i]) by {
            if i < s.len() - 1 {
                assert(s[i] == t[i]);
            }
        }
    }
}

/// Text with a character that is not whitespace keeps something when trimmed.
pub proof fn lemma_trim_nonempty(s: Seq<char>, k: int)
    requires
        0 <= k < s.len(),
        !is_ws(s[k]),
    ensures
        trim(s).len() > 0,
{
    lemma_run_len_prefix(s, ws_pred());
    let p = run_len(s, ws_pred()) as int;
    assert(p <= k);
    let t = s.skip(p);
    assert(t[k - p] == s[k]);
    lemma_back_run_len_suffix(t, ws_pred());
}

/// `run_len` is the first position whose character fails `p` (or the length).
pub proof fn lemma_run_len_is(s: Seq<char>, p: spec_fn(char) -> bool, k: int)
    requires
        0 <= k <= s.len(),
        forall|i: int| 0 <= i < k ==> p(#[trigger] s[i]),
        k == s.len() || !p(s[k]),
    ensures
        run_len(s, p) == k,
    decreases k,
{
    if k > 0 {
        let t = s.drop_first();
        assert forall|i: int| 0 <= i < k - 1 implies p(#[trigger] t[i]) by {
            assert(t[i] == s[i + 1]);
        }
        if k < s.len() {
            assert(t[k - 1] == s[k]);
        }
        lemma_run_len_is(t, p, k - 1);
    }
}

/// `back_run_len` is the distance from the end to the last character failing `p`.
pub proof fn lemma_back_run_len_is(s: Seq<char>, p: spec_fn(char) -> bool, k: int)
    requires
        0 <= k <= s.len(),
        forall|i: int| s.len() - k <= i < s.len() ==> p(#[trigger] s[i]),
        k == s.len() || !p(s[s.len() - k - 1]),
    ensures
        back_run_len(s, p) == k,
    decreases k,
{
    if k > 0 {
        let t = s.drop_last();
        assert forall|i: int| t.len() - (k - 1) <= i < t.len() implies p(#[trigger] t[i]) by {
            assert(t[i] == s[i]);
        }
        if k < s.len() {
            assert(t[t.len() - (k - 1) - 1] == s[s.len() - k - 1]);
        }
        lemma_back_run_len_is(t, p, k - 1);
    }
}

pub open spec fn ws_pred() -> spec_fn(char) -> bool {
    |c: char| is_ws(c)
}

/// `str::trim_start`.
pub open spec fn trim_start(s: Seq<char>) -> Seq<char> {
    s.skip(run_len(s, ws_pred()) as int)
}

/// `str::trim_end`.
pub open spec fn trim_end(s: Seq<char>) -> Seq<char> {
    s.take(s.len() - back_run_len(s, ws_pred()))
}

/// `str::trim`: leading and trailing Unicode whitespace removed.
pub open spec fn trim(s: Seq<char>) -> Seq<char> {
    trim_end(trim_start(s))
}

/// Bounds of the trimmed part of `v[lo..hi]`.
pub fn trim_bounds(v: &Vec<char>, lo: usize, hi: usize) -> (r: (usize, usize))
    requires
        lo <= hi <= v.len(),
    ensures
        lo <= r.0 <= r.1 <= hi,
        v@.subrange(r.0 as int, r.1 as int) == trim(v@.subrange(lo as int, hi as int)),
        r.0 < r.1 ==> !is_ws(v@[r.0 as int]) && !is_ws(v@[r.1 - 1]),
{
    let mut a = lo;
    while a < hi && char_is_whitespace(v[a])
        invariant
            lo <= a <= hi <= v.len(),
            forall|i: int| lo <= i < a ==> is_ws(#[trigger] v@[i]),
        decreases hi - a,
    {
        a = a + 1;
    }
    let mut b = hi;
    while b > a && char_is_whitespace(v[b - 1])
        invariant
            lo <= a <= b <= hi <= v.len(),
            forall|i: int| b <= i < hi ==> is_ws(#[trigger] v@[i]),
        decreases b - a,
    {
        b = b - 1;
    }
    proof {
        let t = v@.subrange(lo as int, hi as int);
        assert forall|i: int| 0 <= i < a - lo implies (ws_pred())(#[trigger] t[i]) by {
            assert(t[i] == v@[lo + i]);
        }
        if a < hi {
            assert(t[a - lo] == v@[a as int]);
        }
        lemma_run_len_is(t, ws_pred(), a - lo);
        let u = t.skip(a - lo);
        assert(u =~= v@.subrange(a as int, hi as int));
        assert forall|i: int| u.len() - (hi - b) <= i < u.len() implies (ws_pred())(#[trigger] u[i]) by {
            assert(u[i] == v@[a + i]);
        }
        if b > a {
            assert(u[u.len() - (hi - b) - 1] == v@[b - 1]);
        }
        lemma_back_run_len_is(u, ws_pred(), hi - b);
        assert(trim_end(u) =~= v@.subrange(a as int, b as int));
    }
    (a, b)
}

/// A `String` holding the characters `v[lo..hi]`.
pub fn string_of(v: &Vec<char>, lo: usize, hi: usize) -> (s: String)
    requires
        lo <= hi <= v.len(),
    ensures
        s@ == v@.subrange(lo as int, hi as int),
{
    let mut s = String::new();
    let mut i = lo;
    while i < hi
        invariant
            lo <= i <= hi <= v.len(),
            s@ == v@.subrange(lo as int, i as int),
        decreases hi - i,
    {
        push_char(&mut s, v[i]);
        assert(v@.subrange(lo as int, i + 1) =~= v@.subrange(lo as int, i as int).push(v@[i as int]));
        i = i + 1;
    }
    s
}

/// The characters of a string slice, in order.
pub fn chars_of(s: &str) -> (v: Vec<char>)
    ensures
        v@ == s@,
{
    let mut v: Vec<char> = Vec::new();
    for c in it: s.chars()
        invariant
            v@ == it.seq().take(it.index() as int),
    {
        v.push(c);
    }
    v
}


/// Characters different from `c`.
pub open spec fn not_char(c: char) -> spec_fn(char) -> bool {
    |x: char| x != c
}

/// Position of the first `c` in `s`, or `s.len()` when there is none.
pub open spec fn index_of(s: Seq<char>, c: char) -> nat {
    run_len(s, not_char(c))
}

/// Position of the first `c` in `v[lo..hi]`, counted from `lo`, as an index into `v`.
pub fn find_char(v: &Vec<char>, lo: usize, hi: usize, c: char) -> (k: usize)
    requires
        lo <= hi <= v.len(),
    ensures
        lo <= k <= hi,
        k == lo + index_of(v@.subrange(lo as int, hi as int), c),
        forall|i: int| lo <= i < k ==> v@[i] != c,
        k < hi ==> v@[k as int] == c,
{
    let mut k = lo;
    while k < hi && v[k] != c
        invariant
            lo <= k <= hi <= v.len(),
            forall|i: int| lo <= i < k ==> v@[i] != c,
        decreases hi - k,
    {
        k = k + 1;
    }
    proof {
        let t = v@.subrange(lo as int, hi as int);
        assert forall|i: int| 0 <= i < k - lo implies (not_char(c))(#[trigger] t[i]) by {
            assert(t[i] == v@[lo + i]);
        }
        if k < hi {
            assert(t[k - lo] == v@[k as int]);
        }
        lemma_run_len_is(t, not_char(c), k - lo);
    }
    k
}

/// A line without the `'\r'` that ends it, if any.
pub open spec fn strip_cr(l: Seq<char>) -> Seq<char> {
    if l.len() > 0 && l.last() == '\r' {
        l.drop_last()
    } else {
        l
    }
}

/// `str::lines`: the text split at each `'\n'`, with a `'\r'` just before the
/// `'\n'` removed; a final line ending adds no empty line.
pub open spec fn lines_of(s: Seq<char>) -> Seq<Seq<char>>
    decreases s.len(),
{
    if s.len() == 0 {
        seq![]
    } else {
        let k = index_of(s, '\n') as int;
        if k >= s.len() {
            seq![s]
        } else {
            seq![strip_cr(s.take(k))] + lines_of(s.skip(k + 1))
        }
    }
}

/// Bounds in `v` of each line of `v`.
pub fn line_ranges(v: &Vec<char>) -> (r: Vec<(usize, usize)>)
    ensures
        r.len() == lines_of(v@).len(),
        forall|i: int|
            0 <= i < r.len() ==> {
                &&& (#[trigger] r@[i]).0 <= r@[i].1 <= v.len()
                &&& v@.subrange(r@[i].0 as int, r@[i].1 as int) == lines_of(v@)[i]
            },
{
    let n = v.len();
    let mut r: Vec<(usize, usize)> = Vec::new();
    let ghost mut acc: Seq<Seq<char>> = seq![];
    let mut ls: usize = 0;
    let mut i: usize = 0;
    assert(v@.skip(0) =~= v@);
    while i < n
        invariant
            n == v.len(),
            ls <= i <= n,
            lines_of(v@) == acc + lines_of(v@.skip(ls as int)),
            r.len() == acc.len(),
            forall|j: int|
                0 <= j < r.len() ==> {
                    &&& (#[trigger] r@[j]).0 <= r@[j].1 <= v.len()
                    &&& v@.subrange(r@[j].0 as int, r@[j].1 as int) == acc[j]
                },
            forall|j: int| ls <= j < i ==> v@[j] != '\n',
        decreases n - i,
    {
        if v[i] == '\n' {
            proof {
                let t = v@.skip(ls as int);
                assert forall|j: int| 0 <= j < i - ls implies (not_char('\n'))(#[trigger] t[j]) by {
                    assert(t[j] == v@[ls + j]);
                }
                assert(t[i - ls] == v@[i as int]);
                lemma_run_len_is(t, not_char('\n'), i - ls);
                assert(t.take(i - ls) =~= v@.subrange(ls as int, i as int));
                assert(t.skip(i - ls + 1) =~= v@.skip(i + 1));
            }
            let end = if i > ls && v[i - 1] == '\r' {
                i - 1
            } else {
                i
            };
            proof {
                let l = v@.subrange(ls as int, i as int);
                assert(v@.subrange(ls as int, end as int) =~= strip_cr(l));
                acc = acc.push(strip_cr(l));
                assert(acc + lines_of(v@.skip(i + 1)) =~= (acc.drop_last() + seq![strip_cr(l)]) + lines_of(v@.skip(i + 1)));
            }
            r.push((ls, end));
            ls = i + 1;
        }
        i = i + 1;
    }
    if ls < n {
        proof {
            let t = v@.skip(ls as int);
            assert forall|j: int| 0 <= j < t.len() implies (not_char('\n'))(#[trigger] t[j]) by {
                assert(t[j] == v@[ls + j]);
            }
            lemma_run_len_is(t, not_char('\n'), t.len() as int);
            assert(t =~= v@.subrange(ls as int, n as int));
            acc = acc.push(t);
        }
        r.push((ls, n));
    } else {
        assert(acc + lines_of(v@.skip(ls as int)) =~= acc);
    }
    r
}

/// Number of bytes in the UTF-8 encoding of `s`.
pub open spec fn utf8_len(s: Seq<char>) -> nat {
    encode_utf8(s).len()
}

pub proof fn lemma_encode_utf8_concat(a: Seq<char>, b: Seq<char>)
    ensures
        encode_utf8(a + b) == encode_utf8(a) + encode_utf8(b),
    decreases a.len(),
{
    if a.len() == 0 {
        assert(a + b =~= b);
        assert(encode_utf8(a) =~= Seq::<u8>::empty());
        assert(encode_utf8(a) + encode_utf8(b) =~= encode_utf8(b));
    } else {
        assert((a + b).drop_first() =~= a.drop_first() + b);
        assert((a + b)[0] == a[0]);
        lemma_encode_utf8_concat(a.drop_first(), b);
        assert(encode_utf8(a + b) =~= encode_utf8(a) + encode_utf8(b));
    }
}

/// Byte length of the UTF-8 encoding of one character (`char::len_utf8`).
pub fn utf8_width(c: char) -> (n: usize)
    ensures
        n == encode_scalar(c as u32).len(),
        1 <= n <= 4,
{
    proof {
        char_is_scalar(c);
    }
    let u = c as u32;
    if u < 0x80 {
        1
    } else if u < 0x800 {
        2
    } else if u < 0x10000 {
        3
    } else {
        4
    }
}

/// The UTF-8 length of a prefix grows by the width of the next character.
pub proof fn lemma_utf8_len_take_step(s: Seq<char>, i: int)
    requires
        0 <= i < s.len(),
    ensures
        utf8_len(s.take(i + 1)) == utf8_len(s.take(i)) + encode_scalar(s[i] as u32).len(),
        utf8_len(s.take(i + 1)) <= utf8_len(s),
{
    assert(s.take(i + 1) =~= s.take(i) + seq![s[i]]);
    lemma_encode_utf8_concat(s.take(i), seq![s[i]]);
    assert(seq![s[i]].drop_first() =~= Seq::<char>::empty());
    assert(encode_utf8(seq![s[i]]) =~= encode_scalar(s[i] as u32) + encode_utf8(Seq::<char>::empty()));
    assert(s =~= s.take(i + 1) + s.skip(i + 1));
    lemma_encode_utf8_concat(s.take(i + 1), s.skip(i + 1));
}


/// The character sequences held by a vector of character vectors.
pub open spec fn seq_views(v: Seq<Vec<char>>) -> Seq<Seq<char>> {
    v.map_values(|x: Vec<char>| x@)
}

/// The character sequences held by a vector of strings.
pub open spec fn string_views(v: Seq<String>) -> Seq<Seq<char>> {
    v.map_values(|x: String| x@)
}

/// A new vector holding `v[lo..hi]`.
pub fn slice_chars(v: &Vec<char>, lo: usize, hi: usize) -> (r: Vec<char>)
    requires
        lo <= hi <= v.len(),
    ensures
        r@ == v@.subrange(lo as int, hi as int),
{
    let mut r: Vec<char> = Vec::new();
    let mut i = lo;
    while i < hi
        invariant
            lo <= i <= hi <= v.len(),
            r@ == v@.subrange(lo as int, i as int),
        decreases hi - i,
    {
        r.push(v[i]);
        assert(v@.subrange(lo as int, i + 1) =~= v@.subrange(lo as int, i as int).push(v@[i as int]));
        i = i + 1;
    }
    r
}

/// Appends `v[lo..hi]` to `r`.
pub fn extend_chars(r: &mut Vec<char>, v: &Vec<char>, lo: usize, hi: usize)
    requires
        lo <= hi <= v.len(),
    ensures
        final(r)@ == old(r)@ + v@.subrange(lo as int, hi as int),
{
    let mut i = lo;
    while i < hi
        invariant
            lo <= i <= hi <= v.len(),
            r@ == old(r)@ + v@.subrange(lo as int, i as int),
        decreases hi - i,
    {
        r.push(v[i]);
        assert(old(r)@ + v@.subrange(lo as int, i + 1) =~= (old(r)@ + v@.subrange(lo as int, i as int)).push(v@[i as int]));
        i = i + 1;
    }
}

/// Whether two character vectors hold the same characters.
pub fn chars_eq(a: &Vec<char>, b: &Vec<char>) -> (r: bool)
    ensures
        r == (a@ == b@),
{
    if a.len() != b.len() {
        return false;
    }
    let mut i: usize = 0;
    while i < a.len()
        invariant
            a.len() == b.len(),
            i <= a.len(),
            forall|j: int| 0 <= j < i ==> a@[j] == b@[j],
        decreases a.len() - i,
    {
        if a[i] != b[i] {
            return false;
        }
        i = i + 1;
    }
    assert(a@ =~= b@);
    true
}

/// Strings holding the character vectors of `v`, in order.
pub fn strings_of(v: &Vec<Vec<char>>) -> (r: Vec<String>)
    ensures
        string_views(r@) == seq_views(v@),
{
    let mut r: Vec<String> = Vec::new();
    let mut i: usize = 0;
    while i < v.len()
        invariant
            i <= v.len(),
            r.len() == i,
            forall|j: int| 0 <= j < i ==> (#[trigger] r@[j])@ == v@[j]@,
        decreases v.len() - i,
    {
        let s = string_of(&v[i], 0, v[i].len());
        assert(v@[i as int]@.subrange(0, v@[i as int]@.len() as int) =~= v@[i as int]@);
        r.push(s);
        i = i + 1;
    }
    assert(string_views(r@) =~= seq_views(v@));
    r
}


/// Characters that are not Unicode whitespace.
pub open spec fn non_ws_pred() -> spec_fn(char) -> bool {
    |c: char| !is_ws(c)
}

/// End of the run of non-whitespace characters starting at `i`.
pub open spec fn word_end(s: Seq<char>, i: int) -> int {
    i + run_len(s.skip(i), non_ws_pred())
}

pub proof fn lemma_word_end(s: Seq<char>, i: int)
    requires
        0 <= i < s.len(),
        !is_ws(s[i]),
    ensures
        i < word_end(s, i) <= s.len(),
{
    lemma_run_len_bound(s.skip(i), non_ws_pred());
    assert(s.skip(i)[0] == s[i]);
}

/// `word_end(s, st)` is `e` when `s[st..e]` has no whitespace and `s[e]` is
/// whitespace or the end.
pub proof fn lemma_word_end_is(s: Seq<char>, st: int, e: int)
    requires
        0 <= st <= e <= s.len(),
        forall|j: int| st <= j < e ==> !is_ws(#[trigger] s[j]),
        e == s.len() || is_ws(s[e]),
    ensures
        word_end(s, st) == e,
{
    let t = s.skip(st);
    assert forall|j: int| 0 <= j < e - st implies (non_ws_pred())(#[trigger] t[j]) by {
        assert(t[j] == s[st + j]);
    }
    if e < s.len() {
        assert(t[e - st] == s[e]);
    }
    lemma_run_len_is(t, non_ws_pred(), e - st);
}

/// UTF-8 length of prefixes is strictly increasing.
pub proof fn lemma_utf8_len_take_mono(s: Seq<char>, i: int, j: int)
    requires
        0 <= i <= j <= s.len(),
    ensures
        utf8_len(s.take(i)) + (j - i) <= utf8_len(s.take(j)),
        utf8_len(s.take(j)) <= utf8_len(s),
    decreases j - i,
{
    if i < j {
        lemma_utf8_len_take_mono(s, i, j - 1);
        lemma_utf8_len_take_step(s, j - 1);
    } else {
        assert(s =~= s.take(j) + s.skip(j));
        lemma_encode_utf8_concat(s.take(j), s.skip(j));
    }
}

/// The bytes of `s[i..j]` sit between the byte offsets of `i` and `j`.
pub proof fn lemma_encode_utf8_subrange(s: Seq<char>, i: int, j: int)
    requires
        0 <= i <= j <= s.len(),
    ensures
        encode_utf8(s).subrange(utf8_len(s.take(i)) as int, utf8_len(s.take(j)) as int)
            == encode_utf8(s.subrange(i, j)),
        encode_utf8(s).take(utf8_len(s.take(i)) as int) == encode_utf8(s.take(i)),
        encode_utf8(s).skip(utf8_len(s.take(j)) as int) == encode_utf8(s.skip(j)),
{
    assert(s =~= s.take(i) + s.subrange(i, j) + s.skip(j));
    assert(s.take(j) =~= s.take(i) + s.subrange(i, j));
    lemma_encode_utf8_concat(s.take(i) + s.subrange(i, j), s.skip(j));
    lemma_encode_utf8_concat(s.take(i), s.subrange(i, j));
    let a = encode_utf8(s.take(i));
    let b = encode_utf8(s.subrange(i, j));
    let c = encode_utf8(s.skip(j));
    assert(encode_utf8(s) == a + b + c);
    assert((a + b + c).subrange(a.len() as int, (a.len() + b.len()) as int) =~= b);
    assert((a + b + c).take(a.len() as int) =~= a);
    assert((a + b + c).skip((a.len() + b.len()) as int) =~= c);
}

/// The byte offset of every character position is a character boundary.
pub proof fn lemma_char_boundary_of_take(s: Seq<char>, k: int)
    requires
        0 <= k <= s.len(),
    ensures
        is_char_boundary(encode_utf8(s), utf8_len(s.take(k)) as int),
    decreases s.len(),
{
    broadcast use encode_utf8_valid_utf8;

    if k == 0 {
        assert(s.take(0) =~= Seq::<char>::empty());
        assert(encode_utf8(s.take(0)) =~= Seq::<u8>::empty());
    } else {
        let bytes = encode_utf8(s);
        let t = s.drop_first();
        encode_utf8_first_scalar(s);
        assert(pop_first_scalar(bytes) =~= encode_utf8(t));
        assert(s.take(k) =~= seq![s[0]] + t.take(k - 1));
        lemma_encode_utf8_concat(seq![s[0]], t.take(k - 1));
        assert(seq![s[0]].drop_first() =~= Seq::<char>::empty());
        assert(encode_utf8(seq![s[0]]) =~= encode_scalar(s[0] as u32) + encode_utf8(Seq::<char>::empty()));
        lemma_char_boundary_of_take(t, k - 1);
        lemma_utf8_len_take_mono(s, k, s.len() as int);
        assert(s.take(s.len() as int) =~= s);
    }
}

/// Every character boundary of the UTF-8 encoding of `s` is the byte offset
/// of some character position.
pub proof fn lemma_char_boundary_is_take(s: Seq<char>, idx: int)
    requires
        is_char_boundary(encode_utf8(s), idx),
    ensures
        exists|k: int| 0 <= k <= s.len() && utf8_len(#[trigger] s.take(k)) == idx,
    decreases s.len(),
{
    broadcast use encode_utf8_valid_utf8;

    if idx == 0 {
        assert(s.take(0) =~= Seq::<char>::empty());
        assert(utf8_len(s.take(0)) == 0);
    } else {
        let bytes = encode_utf8(s);
        assert(bytes.len() > 0);
        assert(s.len() > 0) by {
            if s.len() == 0 {
                assert(bytes =~= Seq::<u8>::empty());
            }
        }
        let t = s.drop_first();
        encode_utf8_first_scalar(s);
        assert(pop_first_scalar(bytes) =~= encode_utf8(t));
        let w = encode_scalar(s[0] as u32).len() as int;
        lemma_char_boundary_is_take(t, idx - w);
        let k = choose|k: int| 0 <= k <= t.len() && utf8_len(#[trigger] t.take(k)) == idx - w;
        assert(s.take(k + 1) =~= seq![s[0]] + t.take(k));
        lemma_encode_utf8_concat(seq![s[0]], t.take(k));
        assert(seq![s[0]].drop_first() =~= Seq::<char>::empty());
        assert(encode_utf8(seq![s[0]]) =~= encode_scalar(s[0] as u32) + encode_utf8(Seq::<char>::empty()));
        assert(utf8_len(s.take(k + 1)) == idx);
    }
}

} // verus!

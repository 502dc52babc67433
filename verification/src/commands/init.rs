//! Shell configuration: the snippet that makes zsh autoload the functions,
//! and how it is added to an rc file at most once.
use vstd::prelude::*;
use crate::error::FunkyError;
use crate::text::{back_run_len, chars_of, lemma_run_len_bound, run_len, string_of, trim, trim_bounds, ws_pred};

verus! {

/// The zsh configuration snippet: the functions directory goes first on
/// `fpath`, and every function file in it is autoloaded.
pub const ZSH_CONFIG_TEMPLATE: &'static str = "fpath=({{ funky_dir }} $fpath)\nautoload -Uz $fpath[1]/*(.:t)\n";

/// Only zsh can be configured: `Ok` for `"zsh"`, `UnsupportedShell` otherwise.
pub fn check_shell(shell: &str) -> (r: Result<(), FunkyError>)
    ensures
        r is Ok <==> shell@ == "zsh"@,
        r matches Err(e) ==> (e matches FunkyError::UnsupportedShell(s) && s@ == shell@),
{
    proof {
        reveal_strlit("zsh");
    }
    let v = chars_of(shell);
    let zsh: [char; 3] = ['z', 's', 'h'];
    let mut same = v.len() == 3;
    if same {
        same = v[0] == zsh[0] && v[1] == zsh[1] && v[2] == zsh[2];
        if same {
            assert(v@ =~= "zsh"@);
        }
    }
    if same {
        Ok(())
    } else {
        proof {
            if v@ == "zsh"@ {
                assert(v@[0] == 'z' && v@[1] == 's' && v@[2] == 'h');
            }
        }
        Err(FunkyError::UnsupportedShell(String::from_str(shell)))
    }
}

/// The configuration snippet for the functions directory `funky_dir`: the
/// template with the directory in place of `{{ funky_dir }}`.
pub open spec fn zsh_config_text(funky_dir: Seq<char>) -> Seq<char> {
    "fpath=("@ + funky_dir + " $fpath)\nautoload -Uz $fpath[1]/*(.:t)\n"@
}

/// `tera::Tera::one_off` on the configuration template, with `funky_dir` in
/// the context and autoescaping off. The template calls no function and uses
/// no filter, and its one variable is given, so Tera renders it: the
/// `{{ funky_dir }}` becomes the directory's text, as it is, and the rest of
/// the template is copied.
#[verifier::external_body]
fn render_config_template(template: &str, funky_dir: &str) -> (r: Result<String, String>)
    requires
        template@ == ZSH_CONFIG_TEMPLATE@,
    ensures
        r is Ok,
        r->Ok_0@ == zsh_config_text(funky_dir@),
{
    let mut context = tera::Context::new();
    context.insert("funky_dir", funky_dir);
    match tera::Tera::one_off(template, &context, false) {
        Ok(s) => Ok(s),
        Err(e) => Err(e.to_string()),
    }
}

/// The configuration snippet for the functions directory `funky_dir` (its
/// display form): see `zsh_config_text`.
pub fn config_snippet(funky_dir: &str) -> (r: Result<String, FunkyError>)
    ensures
        r matches Ok(s) && s@ == zsh_config_text(funky_dir@),
{
    proof {
        reveal_strlit("fpath=({{ funky_dir }} $fpath)\nautoload -Uz $fpath[1]/*(.:t)\n");
    }
    match render_config_template(ZSH_CONFIG_TEMPLATE, funky_dir) {
        Ok(s) => Ok(s),
        Err(m) => Err(FunkyError::Template(m)),
    }
}

/// `needle` occurs in `hay` at position `i`.
pub open spec fn occurs_at(hay: Seq<char>, needle: Seq<char>, i: int) -> bool {
    0 <= i && i + needle.len() <= hay.len() && hay.subrange(i, i + needle.len()) == needle
}

/// `str::contains`: `needle` occurs somewhere in `hay`.
pub open spec fn contains_text(hay: Seq<char>, needle: Seq<char>) -> bool {
    exists|i: int| occurs_at(hay, needle, i)
}

/// The rc file text before the snippet is appended: a newline is added to a
/// non-empty text that does not end with one.
pub open spec fn separated(existing: Seq<char>) -> Seq<char> {
    if existing.len() > 0 && existing.last() != '\n' {
        existing.push('\n')
    } else {
        existing
    }
}

/// The new rc file text, or `None` when the rc file already holds the
/// (trimmed) snippet and is left alone.
pub open spec fn rc_update(existing: Seq<char>, snippet: Seq<char>) -> Option<Seq<char>> {
    if contains_text(existing, trim(snippet)) {
        None
    } else {
        Some(separated(existing) + snippet)
    }
}

fn contains_range(h: &Vec<char>, n: &Vec<char>, a: usize, b: usize) -> (r: bool)
    requires
        a <= b <= n.len(),
    ensures
        r == contains_text(h@, n@.subrange(a as int, b as int)),
{
    let ghost needle = n@.subrange(a as int, b as int);
    let m = b - a;
    if m > h.len() {
        assert forall|i: int| !occurs_at(h@, needle, i) by {}
        return false;
    }
    let mut i: usize = 0;
    while i <= h.len() - m
        invariant
            a <= b <= n.len(),
            m == b - a,
            m <= h.len(),
            needle == n@.subrange(a as int, b as int),
            forall|k: int| 0 <= k < i ==> !occurs_at(h@, needle, k),
        decreases h.len() - m - i + 1,
    {
        let mut j: usize = 0;
        let mut same = true;
        while j < m
            invariant
                i + m <= h.len(),
                a <= b <= n.len(),
                needle == n@.subrange(a as int, b as int),
                m == b - a,
                j <= m,
                same == forall|t: int| 0 <= t < j ==> #[trigger] h@[i + t] == n@[a + t],
            decreases m - j,
        {
            if h[i + j] != n[a + j] {
                same = false;
            }
            j = j + 1;
        }
        if same {
            assert forall|t: int| 0 <= t < m implies h@.subrange(i as int, i + m)[t] == needle[t] by {
                assert(h@[i + t] == n@[a + t]);
            }
            assert(h@.subrange(i as int, i + m) =~= needle);
            assert(occurs_at(h@, needle, i as int));
            return true;
        }
        assert(!occurs_at(h@, needle, i as int)) by {
            if occurs_at(h@, needle, i as int) {
                let t = choose|t: int| 0 <= t < m && #[trigger] h@[i + t] != n@[a + t];
                assert(h@.subrange(i as int, i + m)[t] == needle[t]);
            }
        }
        i = i + 1;
    }
    assert forall|k: int| !occurs_at(h@, needle, k) by {
        if 0 <= k < i {
        }
    }
    false
}

/// Plans the change to an rc file holding `existing` for the configuration
/// `snippet` (see `rc_update`): `None` when it is configured already.
pub fn plan_rc_update(existing: &str, snippet: &str) -> (r: Option<String>)
    ensures
        match r {
            Some(s) => rc_update(existing@, snippet@) == Some(s@),
            None => rc_update(existing@, snippet@) is None,
        },
{
    let e = chars_of(existing);
    let sn = chars_of(snippet);
    let (a, b) = trim_bounds(&sn, 0, sn.len());
    assert(sn@.subrange(0, sn@.len() as int) =~= sn@);
    if contains_range(&e, &sn, a, b) {
        return None;
    }
    let mut out = string_of(&e, 0, e.len());
    assert(e@.subrange(0, e@.len() as int) =~= e@);
    if e.len() > 0 && e[e.len() - 1] != '\n' {
        crate::text::push_char(&mut out, '\n');
    }
    out.append(snippet);
    Some(out)
}

/// Where the trimmed text sits in `s`.
pub proof fn trim_span(s: Seq<char>) -> (r: (int, int))
    ensures
        0 <= r.0 <= r.1 <= s.len(),
        trim(s) == s.subrange(r.0, r.1),
{
    let p = run_len(s, ws_pred()) as int;
    lemma_run_len_bound(s, ws_pred());
    let t = s.skip(p);
    lemma_back_run_len_bound(t);
    let q = back_run_len(t, ws_pred()) as int;
    assert(trim(s) =~= s.subrange(p, s.len() - q));
    (p, s.len() - q)
}

proof fn lemma_back_run_len_bound(s: Seq<char>)
    ensures
        back_run_len(s, ws_pred()) <= s.len(),
    decreases s.len(),
{
    if s.len() > 0 && (ws_pred())(s.last()) {
        lemma_back_run_len_bound(s.drop_last());
    }
}

/// Configuring twice changes nothing the second time: once the snippet has
/// been appended, the rc file counts as configured.
pub proof fn lemma_rc_update_idempotent(existing: Seq<char>, snippet: Seq<char>)
    requires
        rc_update(existing, snippet) is Some,
    ensures
        rc_update(rc_update(existing, snippet)->0, snippet) is None,
{
    let n = rc_update(existing, snippet)->0;
    let (a, b) = trim_span(snippet);
    let base = separated(existing).len();
    assert(n.subrange(base + a, base + a + trim(snippet).len()) =~= trim(snippet));
    assert(occurs_at(n, trim(snippet), base + a));
}

/// An update keeps the rc file's text and appends the snippet after it.
pub proof fn lemma_rc_update_appends(existing: Seq<char>, snippet: Seq<char>)
    requires
        rc_update(existing, snippet) is Some,
    ensures
        (rc_update(existing, snippet)->0).take(existing.len() as int) == existing,
        (rc_update(existing, snippet)->0).skip(
            (rc_update(existing, snippet)->0).len() - snippet.len(),
        ) == snippet,
{
    let n = rc_update(existing, snippet)->0;
    assert(n.take(existing.len() as int) =~= existing);
    assert(n.skip(n.len() - snippet.len()) =~= snippet);
}

/// An rc file that holds the trimmed snippet anywhere, at any position `i`,
/// is left alone, whatever follows or precedes it.
pub proof fn lemma_rc_configured_anywhere(existing: Seq<char>, snippet: Seq<char>, i: int)
    requires
        0 <= i,
        i + trim(snippet).len() <= existing.len(),
        existing.subrange(i, i + trim(snippet).len()) == trim(snippet),
    ensures
        rc_update(existing, snippet) is None,
{
    assert(occurs_at(existing, trim(snippet), i));
}

/// An rc file that does not hold the trimmed snippet anywhere gets it
/// appended: its text, a line break if it ends without one, then the snippet.
pub proof fn lemma_rc_unconfigured_appends(existing: Seq<char>, snippet: Seq<char>)
    requires
        forall|i: int|
            0 <= i && i + trim(snippet).len() <= existing.len() ==> #[trigger] existing.subrange(
                i,
                i + trim(snippet).len(),
            ) != trim(snippet),
    ensures
        rc_update(existing, snippet) == Some(
            if existing.len() > 0 && existing.last() != '\n' {
                existing + seq!['\n'] + snippet
            } else {
                existing + snippet
            },
        ),
{
    assert forall|i: int| !occurs_at(existing, trim(snippet), i) by {
        if 0 <= i && i + trim(snippet).len() <= existing.len() {
            assert(existing.subrange(i, i + trim(snippet).len()) != trim(snippet));
        }
    }
    if existing.len() > 0 && existing.last() != '\n' {
        assert(existing.push('\n') =~= existing + seq!['\n']);
    }
}

} // verus!

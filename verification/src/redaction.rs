//! Keeping webhook secrets out of error previews: the texts a sink treats as
//! secret (its URL, the URL's password, query values and long path segments,
//! and its header values), and the preview an error body is reduced to, with
//! those secrets redacted, whitespace collapsed and the length capped.

use vstd::prelude::*;
use vstd::string::StrSliceExecFns;
use vstd::string::StringExecFns;

use crate::text::{
    chars_of, is_ws, opt_text, split_on, split_text, string_from_chars, texts, trim_text, trimmed,
};

verus! {

/// What `url::Url::parse` then `password` give for a text.
pub uninterp spec fn url_password_of(raw: Seq<char>) -> Option<Seq<char>>;

/// What `url::Url::parse` then `query` give for a text.
pub uninterp spec fn url_query_of(raw: Seq<char>) -> Option<Seq<char>>;

/// What `url::Url::parse` then `path_segments` give for a text.
pub uninterp spec fn url_path_segments_of(raw: Seq<char>) -> Option<Seq<Seq<char>>>;

/// `url::Url::parse(raw)` then `password()`: `None` where either gives nothing.
#[verifier::external_body]
fn url_password(raw: &str) -> (r: Option<String>)
    ensures
        opt_text(r) == url_password_of(raw@),
{
    url::Url::parse(raw).ok().and_then(|u| u.password().map(|p| p.to_owned()))
}

/// `url::Url::parse(raw)` then `query()`: `None` where either gives nothing.
#[verifier::external_body]
fn url_query(raw: &str) -> (r: Option<String>)
    ensures
        opt_text(r) == url_query_of(raw@),
{
    url::Url::parse(raw).ok().and_then(|u| u.query().map(|q| q.to_owned()))
}

/// `url::Url::parse(raw)` then `path_segments()`, collected: `None` where
/// either gives nothing.
#[verifier::external_body]
fn url_path_segments(raw: &str) -> (r: Option<Vec<String>>)
    ensures
        match r {
            Some(v) => url_path_segments_of(raw@) == Some(texts(v@)),
            None => url_path_segments_of(raw@) is None,
        },
{
    url::Url::parse(raw).ok().and_then(
        |u| u.path_segments().map(|segments| segments.map(|s| s.to_owned()).collect()),
    )
}

/// Number of bytes in the UTF-8 encoding of a character.
pub open spec fn utf8_width(c: char) -> nat {
    if (c as u32) < 0x80 {
        1
    } else if (c as u32) < 0x800 {
        2
    } else if (c as u32) < 0x10000 {
        3
    } else {
        4
    }
}

/// Number of bytes in the UTF-8 encoding of a text.
pub open spec fn utf8_len(s: Seq<char>) -> nat
    decreases s.len(),
{
    if s.len() == 0 {
        0
    } else {
        utf8_len(s.drop_last()) + utf8_width(s.last())
    }
}

/// `str::len`: the length of the text in bytes.
#[verifier::external_body]
fn byte_len(s: &str) -> (r: usize)
    ensures
        r as nat == utf8_len(s@),
{
    s.len()
}

/// Index of the first `c` in `s` at or after `i`.
pub open spec fn index_of_char(s: Seq<char>, c: char, i: int) -> Option<int>
    decreases s.len() - i,
{
    if i < 0 || i >= s.len() {
        None
    } else if s[i] == c {
        Some(i)
    } else {
        index_of_char(s, c, i + 1)
    }
}

/// `split_once('=')` on a query pair, keeping the value.
pub open spec fn pair_value(pair: Seq<char>) -> Option<Seq<char>> {
    match index_of_char(pair, '=', 0) {
        Some(k) => Some(pair.skip(k + 1)),
        None => None,
    }
}

/// The values of the pairs that have one, in order.
pub open spec fn pair_values(pairs: Seq<Seq<char>>) -> Seq<Seq<char>>
    decreases pairs.len(),
{
    if pairs.len() == 0 {
        Seq::empty()
    } else {
        let rest = pair_values(pairs.drop_last());
        match pair_value(pairs.last()) {
            Some(v) => rest.push(v),
            None => rest,
        }
    }
}

/// The segments of at least eight bytes, in order.
pub open spec fn long_segments(segments: Seq<Seq<char>>) -> Seq<Seq<char>>
    decreases segments.len(),
{
    if segments.len() == 0 {
        Seq::empty()
    } else {
        let rest = long_segments(segments.drop_last());
        if utf8_len(segments.last()) >= 8 {
            rest.push(segments.last())
        } else {
            rest
        }
    }
}

/// The texts a webhook error preview must not show: the trimmed URL and, where
/// it parses, its password, the values of its query pairs and its path
/// segments of at least eight bytes; then the header values.
pub open spec fn secret_values(url: Seq<char>, header_values: Seq<Seq<char>>) -> Seq<Seq<char>> {
    let u = trimmed(url);
    let from_url = if u.len() == 0 {
        Seq::empty()
    } else {
        seq![u] + match url_password_of(u) {
            Some(p) => seq![p],
            None => Seq::empty(),
        } + match url_query_of(u) {
            Some(q) => pair_values(split_on(q, '&')),
            None => Seq::empty(),
        } + match url_path_segments_of(u) {
            Some(segments) => long_segments(segments),
            None => Seq::empty(),
        }
    };
    from_url + header_values
}

/// The value of a query pair, if it has one.
fn pair_value_of(pair: &str) -> (r: Option<String>)
    ensures
        opt_text(r) == pair_value(pair@),
{
    let cs = chars_of(pair);
    let mut k: usize = 0;
    while k < cs.len()
        invariant
            cs@ == pair@,
            k <= cs@.len(),
            index_of_char(pair@, '=', 0) == index_of_char(pair@, '=', k as int),
        decreases cs@.len() - k,
    {
        if cs[k] == '=' {
            let ghost rest = pair@.skip(k + 1);
            let mut out: Vec<char> = Vec::new();
            let mut j: usize = k + 1;
            while j < cs.len()
                invariant
                    cs@ == pair@,
                    k + 1 <= j <= cs@.len(),
                    out@ == pair@.subrange(k + 1, j as int),
                decreases cs@.len() - j,
            {
                out.push(cs[j]);
                assert(pair@.subrange(k + 1, j + 1) =~= pair@.subrange(k + 1, j as int).push(cs@[j as int]));
                j = j + 1;
            }
            assert(out@ =~= rest);
            return Some(string_from_chars(out.as_slice()));
        }
        k = k + 1;
    }
    None
}

/// The texts that webhook error previews redact for a sink URL and the header
/// values it sends.
pub fn webhook_secret_values(url: &str, header_values: &[String]) -> (r: Vec<String>)
    ensures
        texts(r@) == secret_values(url@, texts(header_values@)),
{
    let mut values: Vec<String> = Vec::new();
    let u = trim_text(url);
    if u.as_str().unicode_len() > 0 {
        values.push(u.clone());
        let ghost mut want = seq![u@];
        assert(texts(values@) =~= want);
        if let Some(p) = url_password(u.as_str()) {
            values.push(p);
        }
        let ghost with_password = texts(values@);
        if let Some(q) = url_query(u.as_str()) {
            let pairs = split_text(q.as_str(), '&');
            let mut i: usize = 0;
            while i < pairs.len()
                invariant
                    i <= pairs@.len(),
                    texts(values@) == with_password + pair_values(texts(pairs@).take(i as int)),
                decreases pairs@.len() - i,
            {
                let ghost before = texts(values@);
                assert(texts(pairs@).take(i + 1).drop_last() =~= texts(pairs@).take(i as int));
                if let Some(v) = pair_value_of(pairs[i].as_str()) {
                    values.push(v);
                    assert(texts(values@) =~= before.push(v@));
                }
                i = i + 1;
            }
            assert(texts(pairs@).take(pairs@.len() as int) =~= texts(pairs@));
        }
        let ghost with_query = texts(values@);
        if let Some(segments) = url_path_segments(u.as_str()) {
            let mut i: usize = 0;
            while i < segments.len()
                invariant
                    i <= segments@.len(),
                    texts(values@) == with_query + long_segments(texts(segments@).take(i as int)),
                decreases segments@.len() - i,
            {
                let ghost before = texts(values@);
                assert(texts(segments@).take(i + 1).drop_last() =~= texts(segments@).take(i as int));
                if byte_len(segments[i].as_str()) >= 8 {
                    values.push(segments[i].clone());
                    assert(texts(values@) =~= before.push(segments@[i as int]@));
                }
                i = i + 1;
            }
            assert(texts(segments@).take(segments@.len() as int) =~= texts(segments@));
        }
    }
    let ghost from_url = texts(values@);
    let mut i: usize = 0;
    while i < header_values.len()
        invariant
            i <= header_values@.len(),
            texts(values@) == from_url + texts(header_values@).take(i as int),
        decreases header_values@.len() - i,
    {
        let ghost before = texts(values@);
        let v = header_values[i].clone();
        values.push(v);
        assert(texts(values@) =~= before.push(header_values@[i as int]@));
        assert(texts(header_values@).take(i + 1) =~= texts(header_values@).take(i as int).push(
            header_values@[i as int]@,
        ));
        assert(texts(values@) =~= from_url + texts(header_values@).take(i + 1));
        i = i + 1;
    }
    assert(texts(header_values@).take(header_values@.len() as int) =~= texts(header_values@));
    values
}

/// Most characters an error-body preview shows before it is cut.
pub const MAX_PREVIEW_CHARS: usize = 512;

/// What a redacted secret is replaced with.
pub open spec fn redaction_mark() -> Seq<char> {
    "[redacted]"@
}

/// The non-empty texts, in order.
pub open spec fn non_empty_texts(v: Seq<Seq<char>>) -> Seq<Seq<char>>
    decreases v.len(),
{
    if v.len() == 0 {
        Seq::empty()
    } else {
        let rest = non_empty_texts(v.drop_last());
        if v.last().len() > 0 {
            rest.push(v.last())
        } else {
            rest
        }
    }
}

/// Index of the first text from `j` on whose UTF-8 length is under `n`
/// (the length of `sorted` when there is none).
pub open spec fn shorter_from(sorted: Seq<Seq<char>>, n: nat, j: int) -> int
    decreases sorted.len() - j,
{
    if j < 0 || j >= sorted.len() {
        sorted.len() as int
    } else if utf8_len(sorted[j]) < n {
        j
    } else {
        shorter_from(sorted, n, j + 1)
    }
}

/// Inserts `s` after every text at least as long (in bytes).
pub open spec fn insert_by_length(sorted: Seq<Seq<char>>, s: Seq<char>) -> Seq<Seq<char>> {
    sorted.insert(shorter_from(sorted, utf8_len(s), 0), s)
}

/// The texts longest first by UTF-8 length, texts of equal length in their
/// given order: a stable sort by decreasing byte length.
pub open spec fn longest_first(v: Seq<Seq<char>>) -> Seq<Seq<char>>
    decreases v.len(),
{
    if v.len() == 0 {
        Seq::empty()
    } else {
        insert_by_length(longest_first(v.drop_last()), v.last())
    }
}

/// `str::replace(pat, rep)` for a non-empty pattern: each occurrence of `pat`,
/// found left to right without overlap, replaced by `rep`.
pub open spec fn replace_all(s: Seq<char>, pat: Seq<char>, rep: Seq<char>) -> Seq<char>
    decreases s.len(),
{
    if pat.len() == 0 || s.len() < pat.len() {
        s
    } else if s.take(pat.len() as int) == pat {
        rep + replace_all(s.skip(pat.len() as int), pat, rep)
    } else {
        seq![s[0]] + replace_all(s.skip(1), pat, rep)
    }
}

/// The text with each secret, in turn, replaced by the redaction mark.
pub open spec fn redacted(text: Seq<char>, secrets: Seq<Seq<char>>) -> Seq<char>
    decreases secrets.len(),
{
    if secrets.len() == 0 {
        text
    } else {
        redacted(replace_all(text, secrets[0], redaction_mark()), secrets.drop_first())
    }
}

/// The output so far, and whether a space is owed before the next word, after
/// reading `s` while collapsing whitespace.
pub open spec fn collapse_state(s: Seq<char>) -> (Seq<char>, bool)
    decreases s.len(),
{
    if s.len() == 0 {
        (Seq::empty(), false)
    } else {
        let prev = collapse_state(s.drop_last());
        let c = s.last();
        if is_ws(c) {
            (prev.0, prev.0.len() > 0)
        } else if prev.1 {
            (prev.0.push(' ').push(c), false)
        } else {
            (prev.0.push(c), false)
        }
    }
}

/// `split_whitespace().join(" ")`: the words of `s` joined by single spaces.
pub open spec fn collapse_ws(s: Seq<char>) -> Seq<char> {
    collapse_state(s).0
}

/// The text itself when it has at most `MAX_PREVIEW_CHARS` characters, else
/// its first `MAX_PREVIEW_CHARS` characters and `...`.
pub open spec fn preview(s: Seq<char>) -> Seq<char> {
    if s.len() <= MAX_PREVIEW_CHARS {
        s
    } else {
        s.take(MAX_PREVIEW_CHARS as int) + "..."@
    }
}

/// An error-body preview: known secrets redacted, longest first, then
/// whitespace collapsed, then the result cut to a preview.
pub open spec fn sanitized(body: Seq<char>, secrets: Seq<Seq<char>>) -> Seq<char> {
    preview(collapse_ws(redacted(body, longest_first(non_empty_texts(secrets)))))
}

/// Whether `pat` occurs in `s` at index `i`.
fn occurs_at(s: &Vec<char>, i: usize, pat: &Vec<char>) -> (r: bool)
    requires
        i + pat@.len() <= s@.len(),
    ensures
        r == (s@.subrange(i as int, i + pat@.len()) == pat@),
{
    let m = pat.len();
    let n = s.len();
    let mut k: usize = 0;
    while k < m
        invariant
            m == pat@.len(),
            n == s@.len(),
            i + m <= n,
            k <= m,
            forall|t: int| 0 <= t < k ==> s@[i + t] == pat@[t],
        decreases m - k,
    {
        if s[i + k] != pat[k] {
            assert(s@.subrange(i as int, i + m)[k as int] != pat@[k as int]);
            return false;
        }
        k = k + 1;
    }
    assert(s@.subrange(i as int, i + m) =~= pat@);
    true
}

/// `s` with each occurrence of `pat` replaced by `rep`.
fn replace_chars(s: &Vec<char>, pat: &Vec<char>, rep: &Vec<char>) -> (r: Vec<char>)
    requires
        pat@.len() > 0,
    ensures
        r@ == replace_all(s@, pat@, rep@),
{
    let n = s.len();
    let m = pat.len();
    let mut out: Vec<char> = Vec::new();
    let mut i: usize = 0;
    assert(s@.skip(0) =~= s@);
    while i < n
        invariant
            n == s@.len(),
            m == pat@.len(),
            m > 0,
            i <= n,
            out@ + replace_all(s@.skip(i as int), pat@, rep@) == replace_all(s@, pat@, rep@),
        decreases n - i,
    {
        let ghost rest = s@.skip(i as int);
        let matched = n - i >= m && occurs_at(s, i, pat);
        assert(n - i >= m ==> rest.take(m as int) =~= s@.subrange(i as int, i + m));
        if matched {
            let ghost before = out@;
            let mut j: usize = 0;
            while j < rep.len()
                invariant
                    out@ == before + rep@.take(j as int),
                    j <= rep@.len(),
                decreases rep@.len() - j,
            {
                out.push(rep[j]);
                assert(rep@.take(j + 1) =~= rep@.take(j as int).push(rep@[j as int]));
                j = j + 1;
            }
            assert(rep@.take(rep@.len() as int) =~= rep@);
            assert(rest.skip(m as int) =~= s@.skip(i + m));
            assert(out@ + replace_all(s@.skip(i + m), pat@, rep@) =~= before + (rep@ + replace_all(
                rest.skip(m as int),
                pat@,
                rep@,
            )));
            i = i + m;
        } else {
            let ghost before = out@;
            out.push(s[i]);
            assert(rest.skip(1) =~= s@.skip(i + 1));
            assert(out@ + replace_all(s@.skip(i + 1), pat@, rep@) =~= before + (seq![rest[0]]
                + replace_all(rest.skip(1), pat@, rep@)));
            i = i + 1;
        }
    }
    assert(replace_all(s@.skip(n as int), pat@, rep@) =~= Seq::<char>::empty());
    assert(out@ + Seq::<char>::empty() =~= out@);
    out
}

proof fn lemma_non_empty_texts(v: Seq<Seq<char>>)
    ensures
        forall|k: int|
            0 <= k < non_empty_texts(v).len() ==> (#[trigger] non_empty_texts(v)[k]).len() > 0,
    decreases v.len(),
{
    if v.len() > 0 {
        let rest = non_empty_texts(v.drop_last());
        lemma_non_empty_texts(v.drop_last());
        assert forall|k: int|
            0 <= k < non_empty_texts(v).len() implies (#[trigger] non_empty_texts(v)[k]).len()
            > 0 by {
            if k < rest.len() {
                assert(non_empty_texts(v)[k] == rest[k]);
            }
        }
    }
}

proof fn lemma_shorter_from_bounds(sorted: Seq<Seq<char>>, n: nat, j: int)
    requires
        0 <= j,
    ensures
        0 <= shorter_from(sorted, n, j) <= sorted.len(),
    decreases sorted.len() - j,
{
    if j < sorted.len() && utf8_len(sorted[j]) >= n {
        lemma_shorter_from_bounds(sorted, n, j + 1);
    }
}

proof fn lemma_longest_first_non_empty(v: Seq<Seq<char>>)
    requires
        forall|k: int| 0 <= k < v.len() ==> (#[trigger] v[k]).len() > 0,
    ensures
        forall|k: int|
            0 <= k < longest_first(v).len() ==> (#[trigger] longest_first(v)[k]).len() > 0,
    decreases v.len(),
{
    if v.len() > 0 {
        let prev = longest_first(v.drop_last());
        lemma_longest_first_non_empty(v.drop_last());
        lemma_shorter_from_bounds(prev, utf8_len(v.last()), 0);
        let p = shorter_from(prev, utf8_len(v.last()), 0);
        assert forall|k: int| 0 <= k < longest_first(v).len() implies (#[trigger] longest_first(
            v,
        )[k]).len() > 0 by {
            assert(longest_first(v) == prev.insert(p, v.last()));
            if k < p {
                assert(longest_first(v)[k] == prev[k]);
            } else if k > p {
                assert(longest_first(v)[k] == prev[k - 1]);
            }
        }
    }
}

/// The position that keeps `sorted` longest first when a text of `n` bytes is
/// inserted after every text at least as long.
fn insertion_point(sorted: &Vec<String>, n: usize) -> (r: usize)
    ensures
        r as int == shorter_from(texts(sorted@), n as nat, 0),
        r <= sorted@.len(),
{
    let mut j: usize = 0;
    while j < sorted.len()
        invariant
            j <= sorted@.len(),
            shorter_from(texts(sorted@), n as nat, 0) == shorter_from(texts(sorted@), n as nat, j as int),
        decreases sorted@.len() - j,
    {
        assert(texts(sorted@)[j as int] == sorted@[j as int]@);
        if byte_len(sorted[j].as_str()) < n {
            return j;
        }
        j = j + 1;
    }
    j
}

/// The non-empty secrets, longest first in bytes, equal lengths in given order.
fn secrets_longest_first(secret_values: &[String]) -> (r: Vec<String>)
    ensures
        texts(r@) == longest_first(non_empty_texts(texts(secret_values@))),
{
    let mut kept: Vec<String> = Vec::new();
    let mut i: usize = 0;
    while i < secret_values.len()
        invariant
            i <= secret_values@.len(),
            texts(kept@) == non_empty_texts(texts(secret_values@).take(i as int)),
        decreases secret_values@.len() - i,
    {
        assert(texts(secret_values@).take(i + 1).drop_last() =~= texts(secret_values@).take(i as int));
        assert(texts(secret_values@).take(i + 1).last() == secret_values@[i as int]@);
        if secret_values[i].as_str().unicode_len() > 0 {
            let ghost before = texts(kept@);
            kept.push(secret_values[i].clone());
            assert(texts(kept@) =~= before.push(secret_values@[i as int]@));
        }
        i = i + 1;
    }
    assert(texts(secret_values@).take(secret_values@.len() as int) =~= texts(secret_values@));
    let mut sorted: Vec<String> = Vec::new();
    let mut k: usize = 0;
    while k < kept.len()
        invariant
            k <= kept@.len(),
            texts(sorted@) == longest_first(texts(kept@).take(k as int)),
        decreases kept@.len() - k,
    {
        assert(texts(kept@).take(k + 1).drop_last() =~= texts(kept@).take(k as int));
        assert(texts(kept@).take(k + 1).last() == kept@[k as int]@);
        let item = kept[k].clone();
        let pos = insertion_point(&sorted, byte_len(item.as_str()));
        let ghost before = sorted@;
        sorted.insert(pos, item);
        assert(texts(sorted@) =~= texts(before).insert(pos as int, kept@[k as int]@));
        k = k + 1;
    }
    assert(texts(kept@).take(kept@.len() as int) =~= texts(kept@));
    sorted
}

/// `split_whitespace().join(" ")`.
fn collapse_chars(s: &Vec<char>) -> (r: Vec<char>)
    ensures
        r@ == collapse_ws(s@),
{
    let mut out: Vec<char> = Vec::new();
    let mut gap = false;
    let mut i: usize = 0;
    while i < s.len()
        invariant
            i <= s@.len(),
            (out@, gap) == collapse_state(s@.take(i as int)),
        decreases s@.len() - i,
    {
        let c = s[i];
        assert(s@.take(i + 1).drop_last() =~= s@.take(i as int));
        assert(s@.take(i + 1).last() == c);
        if crate::text::is_whitespace(c) {
            gap = out.len() > 0;
        } else {
            if gap {
                out.push(' ');
            }
            out.push(c);
            gap = false;
        }
        i = i + 1;
    }
    assert(s@.take(s@.len() as int) =~= s@);
    out
}

/// Redacts known webhook secrets from an error body and shortens it to a
/// preview: secrets are replaced longest first so that no shorter secret
/// survives inside a longer one, whitespace runs become single spaces, and
/// more than `MAX_PREVIEW_CHARS` characters are cut with `...`.
pub fn sanitize_webhook_error_body(body: &str, secret_values: &[String]) -> (r: String)
    ensures
        r@ == sanitized(body@, texts(secret_values@)),
        r@.len() <= MAX_PREVIEW_CHARS + 3,
{
    let secrets = secrets_longest_first(secret_values);
    let ghost ss = texts(secrets@);
    proof {
        lemma_non_empty_texts(texts(secret_values@));
        lemma_longest_first_non_empty(non_empty_texts(texts(secret_values@)));
    }
    let mark = chars_of("[redacted]");
    proof {
        reveal_strlit("[redacted]");
    }
    let mut text = chars_of(body);
    let mut i: usize = 0;
    assert(ss.skip(0) =~= ss);
    while i < secrets.len()
        invariant
            i <= secrets@.len(),
            ss == texts(secrets@),
            mark@ == redaction_mark(),
            forall|k: int| 0 <= k < ss.len() ==> (#[trigger] ss[k]).len() > 0,
            redacted(body@, ss) == redacted(text@, ss.skip(i as int)),
        decreases secrets@.len() - i,
    {
        let pat = chars_of(secrets[i].as_str());
        assert(ss.skip(i as int)[0] == ss[i as int]);
        assert(ss.skip(i as int).drop_first() =~= ss.skip(i + 1));
        text = replace_chars(&text, &pat, &mark);
        i = i + 1;
    }
    let collapsed = collapse_chars(&text);
    let mut out: Vec<char> = Vec::new();
    if collapsed.len() <= MAX_PREVIEW_CHARS {
        out = collapsed;
    } else {
        let mut j: usize = 0;
        while j < MAX_PREVIEW_CHARS
            invariant
                j <= MAX_PREVIEW_CHARS < collapsed@.len(),
                out@ == collapsed@.take(j as int),
            decreases MAX_PREVIEW_CHARS - j,
        {
            out.push(collapsed[j]);
            assert(collapsed@.take(j + 1) =~= collapsed@.take(j as int).push(collapsed@[j as int]));
            j = j + 1;
        }
        out.push('.');
        out.push('.');
        out.push('.');
        proof {
            reveal_strlit("...");
        }
        assert(out@ =~= collapsed@.take(MAX_PREVIEW_CHARS as int) + "..."@);
    }
    string_from_chars(out.as_slice())
}

/// `p` occurs in `s`.
pub open spec fn occurs_in(s: Seq<char>, p: Seq<char>) -> bool {
    exists|i: int| 0 <= i && i + p.len() <= s.len() && #[trigger] s.subrange(i, i + p.len()) == p
}

/// `p` cannot meet an inserted `mark`: it holds neither the mark's first nor
/// its last character, and it does not occur inside the mark.
pub open spec fn clear_of_mark(p: Seq<char>, mark: Seq<char>) -> bool {
    &&& mark.len() > 0
    &&& forall|i: int| 0 <= i < p.len() ==> #[trigger] p[i] != mark[0] && p[i] != mark.last()
    &&& !occurs_in(mark, p)
}

/// Where the first `n` characters of a replacement's output do not hold the
/// replacement's first character, they are the input's first `n` characters.
proof fn lemma_replace_prefix(t: Seq<char>, q: Seq<char>, rep: Seq<char>, n: int)
    requires
        q.len() > 0,
        rep.len() > 0,
        0 <= n <= replace_all(t, q, rep).len(),
        forall|i: int| 0 <= i < n ==> #[trigger] replace_all(t, q, rep)[i] != rep[0],
    ensures
        n <= t.len(),
        replace_all(t, q, rep).take(n) == t.take(n),
    decreases t.len(),
{
    let out = replace_all(t, q, rep);
    if t.len() < q.len() {
    } else if t.take(q.len() as int) == q {
        if n > 0 {
            assert(out[0] == rep[0]);
            assert(false);
        }
    } else if n > 0 {
        let rest = replace_all(t.skip(1), q, rep);
        assert(out == seq![t[0]] + rest);
        assert forall|i: int| 0 <= i < n - 1 implies #[trigger] rest[i] != rep[0] by {
            assert(rest[i] == out[i + 1]);
        }
        lemma_replace_prefix(t.skip(1), q, rep, n - 1);
        assert(out.take(n) =~= seq![t[0]] + rest.take(n - 1));
        assert(t.take(n) =~= seq![t[0]] + t.skip(1).take(n - 1));
    }
}

/// Replacing `q` by a text that `p` cannot meet puts no new occurrence of `p`
/// in the text, and leaves none at all when `q` is `p`.
proof fn lemma_replace_occurrences(t: Seq<char>, q: Seq<char>, rep: Seq<char>, p: Seq<char>)
    requires
        q.len() > 0,
        p.len() > 0,
        clear_of_mark(p, rep),
    ensures
        occurs_in(replace_all(t, q, rep), p) ==> occurs_in(t, p),
        q == p ==> !occurs_in(replace_all(t, q, rep), p),
    decreases t.len(),
{
    let out = replace_all(t, q, rep);
    let m = p.len() as int;
    if t.len() < q.len() {
        if q == p && occurs_in(out, p) {
            let i = choose|i: int| 0 <= i && i + p.len() <= out.len() && #[trigger] out.subrange(i, i + p.len()) == p;
            assert(false);
        }
    } else if t.take(q.len() as int) == q {
        let tail = t.skip(q.len() as int);
        let rest = replace_all(tail, q, rep);
        lemma_replace_occurrences(tail, q, rep, p);
        assert(out == rep + rest);
        if occurs_in(out, p) {
            let i = choose|i: int| 0 <= i && i + p.len() <= out.len() && #[trigger] out.subrange(i, i + p.len()) == p;
            if i < rep.len() {
                if i + m <= rep.len() {
                    assert(rep.subrange(i, i + m) =~= out.subrange(i, i + m));
                    assert(occurs_in(rep, p));
                } else {
                    let x = rep.len() - 1 - i;
                    assert(p[x] == out.subrange(i, i + m)[x]);
                    assert(out[rep.len() - 1] == rep.last());
                }
                assert(false);
            }
            let k = i - rep.len();
            assert(rest.subrange(k, k + m) =~= out.subrange(i, i + m));
            assert(occurs_in(rest, p));
            if q != p {
                let j = choose|j: int| 0 <= j && j + p.len() <= tail.len() && #[trigger] tail.subrange(j, j + p.len()) == p;
                assert(t.subrange(j + q.len(), j + q.len() + m) =~= tail.subrange(j, j + m));
            }
        }
    } else {
        let tail = t.skip(1);
        let rest = replace_all(tail, q, rep);
        lemma_replace_occurrences(tail, q, rep, p);
        assert(out == seq![t[0]] + rest);
        if occurs_in(out, p) {
            let i = choose|i: int| 0 <= i && i + p.len() <= out.len() && #[trigger] out.subrange(i, i + p.len()) == p;
            if i == 0 {
                assert forall|x: int| 0 <= x < m implies #[trigger] out[x] != rep[0] by {
                    assert(out[x] == out.subrange(0, m)[x]);
                }
                lemma_replace_prefix(t, q, rep, m);
                assert(out.subrange(0, m) =~= out.take(m));
                assert(t.subrange(0, m) =~= t.take(m));
                if q == p {
                    assert(t.take(q.len() as int) =~= t.subrange(0, m));
                    assert(false);
                }
            } else {
                let k = i - 1;
                assert(rest.subrange(k, k + m) =~= out.subrange(i, i + m));
                assert(occurs_in(rest, p));
                if q != p {
                    let j = choose|j: int| 0 <= j && j + p.len() <= tail.len() && #[trigger] tail.subrange(j, j + p.len()) == p;
                    assert(t.subrange(j + 1, j + 1 + m) =~= tail.subrange(j, j + m));
                }
            }
        }
    }
}

/// Redacting with a list of non-empty secrets leaves a secret of the list
/// nowhere, and brings in no occurrence of a text that cannot meet the mark.
proof fn lemma_redacted_occurrences(t: Seq<char>, ss: Seq<Seq<char>>, p: Seq<char>)
    requires
        p.len() > 0,
        clear_of_mark(p, redaction_mark()),
        forall|k: int| 0 <= k < ss.len() ==> (#[trigger] ss[k]).len() > 0,
    ensures
        (ss.contains(p) || !occurs_in(t, p)) ==> !occurs_in(redacted(t, ss), p),
    decreases ss.len(),
{
    reveal_strlit("[redacted]");
    if ss.len() > 0 {
        let next = replace_all(t, ss[0], redaction_mark());
        lemma_replace_occurrences(t, ss[0], redaction_mark(), p);
        assert forall|k: int| 0 <= k < ss.drop_first().len() implies (#[trigger] ss.drop_first()[k]).len() > 0 by {
            assert(ss.drop_first()[k] == ss[k + 1]);
        }
        lemma_redacted_occurrences(next, ss.drop_first(), p);
        if ss.contains(p) && ss[0] != p {
            let k = choose|k: int| 0 <= k < ss.len() && ss[k] == p;
            assert(ss.drop_first()[k - 1] == p);
        }
    }
}

/// The last `n` characters of `s`.
pub open spec fn last_chars(s: Seq<char>, n: int) -> Seq<char> {
    s.skip(s.len() - n)
}

/// The last `n` characters of `s` are not whitespace.
pub open spec fn ws_free_tail(s: Seq<char>, n: int) -> bool {
    forall|i: int| s.len() - n <= i < s.len() ==> !is_ws(#[trigger] s[i])
}

/// While no space is owed, each whitespace-free tail of the collapsed output
/// is the same tail of the input.
pub open spec fn tail_kept(s: Seq<char>) -> bool {
    let out = collapse_state(s).0;
    forall|n: int|
        0 <= n <= out.len() && !collapse_state(s).1 && ws_free_tail(out, n) ==> n <= s.len()
            && #[trigger] last_chars(out, n) == last_chars(s, n)
}

/// Collapsing whitespace keeps the input's trailing word as the output's.
proof fn lemma_collapse_tail(s: Seq<char>)
    ensures
        tail_kept(s),
    decreases s.len(),
{
    let out = collapse_state(s).0;
    let gap = collapse_state(s).1;
    if s.len() == 0 {
        assert forall|n: int|
            0 <= n <= out.len() && !gap && ws_free_tail(out, n) implies n <= s.len()
                && #[trigger] last_chars(out, n) == last_chars(s, n) by {
            assert(last_chars(out, n) =~= Seq::<char>::empty());
            assert(last_chars(s, n) =~= Seq::<char>::empty());
        }
    } else {
        let prev = s.drop_last();
        lemma_collapse_tail(prev);
        let out0 = collapse_state(prev).0;
        let gap0 = collapse_state(prev).1;
        let c = s.last();
        assert forall|n: int|
            0 <= n <= out.len() && !gap && ws_free_tail(out, n) implies n <= s.len()
                && #[trigger] last_chars(out, n) == last_chars(s, n) by {
            if n == 0 {
                assert(last_chars(out, n) =~= Seq::<char>::empty());
                assert(last_chars(s, n) =~= Seq::<char>::empty());
            } else if is_ws(c) {
                assert(out.len() == 0);
            } else if gap0 {
                assert(out == out0.push(' ').push(c));
                if n >= 2 {
                    assert(!is_ws(out[out.len() - 2]));
                    assert(out[out.len() - 2] == ' ');
                    assert(is_ws(' '));
                }
                assert(last_chars(out, n) =~= seq![c]);
                assert(last_chars(s, n) =~= seq![c]);
            } else {
                assert(out == out0.push(c));
                assert forall|i: int| out0.len() - (n - 1) <= i < out0.len() implies !is_ws(#[trigger] out0[i]) by {
                    assert(out0[i] == out[i]);
                }
                assert(ws_free_tail(out0, n - 1));
                assert(last_chars(out0, n - 1) == last_chars(prev, n - 1));
                assert(last_chars(out, n) =~= last_chars(out0, n - 1).push(c));
                assert(last_chars(s, n) =~= last_chars(prev, n - 1).push(c));
            }
        }
    }
}

/// A whitespace-free text found in collapsed output is found in the input.
proof fn lemma_collapse_occurrences(s: Seq<char>, p: Seq<char>)
    requires
        p.len() > 0,
        forall|i: int| 0 <= i < p.len() ==> !is_ws(#[trigger] p[i]),
    ensures
        occurs_in(collapse_state(s).0, p) ==> occurs_in(s, p),
    decreases s.len(),
{
    let out = collapse_state(s).0;
    let m = p.len() as int;
    if s.len() == 0 {
        if occurs_in(out, p) {
            let i = choose|i: int| 0 <= i && i + p.len() <= out.len() && #[trigger] out.subrange(i, i + p.len()) == p;
            assert(false);
        }
    } else if occurs_in(out, p) {
        let prev = s.drop_last();
        lemma_collapse_occurrences(prev, p);
        lemma_collapse_tail(s);
        let out0 = collapse_state(prev).0;
        let gap0 = collapse_state(prev).1;
        let c = s.last();
        let i = choose|i: int| 0 <= i && i + p.len() <= out.len() && #[trigger] out.subrange(i, i + p.len()) == p;
        if i + m <= out0.len() {
            assert(out0.len() <= out.len());
            assert(out0.subrange(i, i + m) =~= out.subrange(i, i + m));
            assert(occurs_in(out0, p));
            let j = choose|j: int| 0 <= j && j + p.len() <= prev.len() && #[trigger] prev.subrange(j, j + p.len()) == p;
            assert(s.subrange(j, j + m) =~= prev.subrange(j, j + m));
        } else if is_ws(c) {
            assert(out == out0);
        } else if gap0 && i <= out0.len() {
            assert(out == out0.push(' ').push(c));
            assert(p[out0.len() - i] == out.subrange(i, i + m)[out0.len() - i]);
            assert(out[out0.len() as int] == ' ');
            assert(is_ws(' '));
        } else {
            assert(!collapse_state(s).1);
            assert(i == out.len() - m);
            assert forall|x: int| out.len() - m <= x < out.len() implies !is_ws(#[trigger] out[x]) by {
                assert(out[x] == out.subrange(i, i + m)[x - i]);
            }
            assert(ws_free_tail(out, m));
            assert(last_chars(out, m) == last_chars(s, m));
            assert(out.subrange(i, i + m) =~= last_chars(out, m));
            assert(s.subrange(s.len() - m, s.len() - m + p.len()) =~= last_chars(s, m));
        }
    }
}

/// A text without `.` found in a preview is found in the previewed text.
proof fn lemma_preview_occurrences(x: Seq<char>, p: Seq<char>)
    requires
        p.len() > 0,
        forall|i: int| 0 <= i < p.len() ==> #[trigger] p[i] != '.',
    ensures
        occurs_in(preview(x), p) ==> occurs_in(x, p),
{
    reveal_strlit("...");
    let out = preview(x);
    let m = p.len() as int;
    if x.len() > MAX_PREVIEW_CHARS && occurs_in(out, p) {
        let cut = MAX_PREVIEW_CHARS as int;
        let i = choose|i: int| 0 <= i && i + p.len() <= out.len() && #[trigger] out.subrange(i, i + p.len()) == p;
        if i + m > cut {
            let x_at = i + m - 1;
            assert(p[m - 1] == out.subrange(i, i + m)[m - 1]);
            assert(out[x_at] == '.');
            assert(false);
        }
        assert(x.subrange(i, i + m) =~= out.subrange(i, i + m));
    }
}

proof fn lemma_non_empty_texts_keeps(v: Seq<Seq<char>>, p: Seq<char>)
    requires
        v.contains(p),
        p.len() > 0,
    ensures
        non_empty_texts(v).contains(p),
    decreases v.len(),
{
    if v.last() == p {
        assert(non_empty_texts(v).last() == p);
    } else {
        let k = choose|k: int| 0 <= k < v.len() && v[k] == p;
        assert(v.drop_last()[k] == p);
        lemma_non_empty_texts_keeps(v.drop_last(), p);
        let r = non_empty_texts(v.drop_last());
        let j = choose|j: int| 0 <= j < r.len() && r[j] == p;
        assert(non_empty_texts(v)[j] == p);
    }
}

proof fn lemma_longest_first_keeps(v: Seq<Seq<char>>, p: Seq<char>)
    requires
        v.contains(p),
    ensures
        longest_first(v).contains(p),
    decreases v.len(),
{
    let prev = longest_first(v.drop_last());
    lemma_shorter_from_bounds(prev, utf8_len(v.last()), 0);
    let at = shorter_from(prev, utf8_len(v.last()), 0);
    let r = longest_first(v);
    assert(r == prev.insert(at, v.last()));
    if v.last() == p {
        assert(r[at] == p);
    } else {
        let k = choose|k: int| 0 <= k < v.len() && v[k] == p;
        assert(v.drop_last()[k] == p);
        lemma_longest_first_keeps(v.drop_last(), p);
        let j = choose|j: int| 0 <= j < prev.len() && prev[j] == p;
        if j < at {
            assert(r[j] == p);
        } else {
            assert(r[j + 1] == p);
        }
    }
}

/// An error-body preview never shows a listed secret that is non-empty, holds
/// no whitespace, `.`, `[` or `]`, and is not part of `[redacted]` itself:
/// every occurrence is redacted, and no later redaction, whitespace collapse
/// or cut brings one back.
pub proof fn lemma_preview_hides_secret(body: Seq<char>, secrets: Seq<Seq<char>>, k: int)
    requires
        0 <= k < secrets.len(),
        secrets[k].len() > 0,
        forall|i: int|
            0 <= i < secrets[k].len() ==> !is_ws(#[trigger] secrets[k][i]) && secrets[k][i] != '.'
                && secrets[k][i] != '[' && secrets[k][i] != ']',
        !occurs_in(redaction_mark(), secrets[k]),
    ensures
        !occurs_in(sanitized(body, secrets), secrets[k]),
{
    reveal_strlit("[redacted]");
    let p = secrets[k];
    let ss = longest_first(non_empty_texts(secrets));
    assert(secrets.contains(p));
    lemma_non_empty_texts_keeps(secrets, p);
    lemma_longest_first_keeps(non_empty_texts(secrets), p);
    lemma_non_empty_texts(secrets);
    lemma_longest_first_non_empty(non_empty_texts(secrets));
    assert(redaction_mark()[0] == '[');
    assert(redaction_mark().last() == ']');
    assert(clear_of_mark(p, redaction_mark()));
    lemma_redacted_occurrences(body, ss, p);
    let text = redacted(body, ss);
    lemma_collapse_occurrences(text, p);
    lemma_preview_occurrences(collapse_ws(text), p);
}


/// The whitespace in `s` is single spaces, each between two characters that
/// are not whitespace (so none leads or trails).
pub open spec fn single_spaced(s: Seq<char>) -> bool {
    forall|i: int|
        0 <= i < s.len() && is_ws(#[trigger] s[i]) ==> s[i] == ' ' && 0 < i < s.len() - 1 && !is_ws(s[i - 1])
            && !is_ws(s[i + 1])
}

/// Collapsed output is single-spaced, and a space is owed only after a word.
proof fn lemma_collapse_single_spaced(s: Seq<char>)
    ensures
        single_spaced(collapse_state(s).0),
        collapse_state(s).1 ==> collapse_state(s).0.len() > 0,
        collapse_state(s).0.len() > 0 ==> !is_ws(collapse_state(s).0.last()),
    decreases s.len(),
{
    if s.len() > 0 {
        let prev = s.drop_last();
        lemma_collapse_single_spaced(prev);
        let out0 = collapse_state(prev).0;
        let out = collapse_state(s).0;
        let c = s.last();
        if !is_ws(c) {
            assert(is_ws(' '));
            if collapse_state(prev).1 {
                assert(out == out0.push(' ').push(c));
                assert forall|i: int| 0 <= i < out.len() && is_ws(#[trigger] out[i]) implies out[i] == ' '
                    && 0 < i < out.len() - 1 && !is_ws(out[i - 1]) && !is_ws(out[i + 1]) by {
                    if i < out0.len() {
                        assert(out[i] == out0[i]);
                        assert(out[i - 1] == out0[i - 1]);
                        assert(out[i + 1] == out0[i + 1]);
                    } else {
                        assert(i == out0.len());
                        assert(out[i - 1] == out0.last());
                    }
                }
            } else {
                assert(out == out0.push(c));
                assert forall|i: int| 0 <= i < out.len() && is_ws(#[trigger] out[i]) implies out[i] == ' '
                    && 0 < i < out.len() - 1 && !is_ws(out[i - 1]) && !is_ws(out[i + 1]) by {
                    assert(i < out0.len());
                    assert(out[i] == out0[i]);
                    assert(out[i - 1] == out0[i - 1]);
                    assert(out[i + 1] == out0[i + 1]);
                }
            }
        }
    }
}

/// An error-body preview is at most `MAX_PREVIEW_CHARS` characters and `...`
/// long, holds no whitespace but single spaces between words (so none leads
/// or trails), is the collapsed text itself when that is short enough, and
/// otherwise is its first `MAX_PREVIEW_CHARS` characters followed by `...`.
pub proof fn lemma_preview_shape(body: Seq<char>, secrets: Seq<Seq<char>>)
    ensures
        sanitized(body, secrets).len() <= MAX_PREVIEW_CHARS + 3,
        single_spaced(sanitized(body, secrets)),
        ({
            let collapsed = collapse_ws(redacted(body, longest_first(non_empty_texts(secrets))));
            &&& collapsed.len() <= MAX_PREVIEW_CHARS ==> sanitized(body, secrets) == collapsed
            &&& collapsed.len() > MAX_PREVIEW_CHARS ==> sanitized(body, secrets).len() == MAX_PREVIEW_CHARS + 3
                && sanitized(body, secrets).take(MAX_PREVIEW_CHARS as int) == collapsed.take(
                MAX_PREVIEW_CHARS as int,
            ) && sanitized(body, secrets).skip(MAX_PREVIEW_CHARS as int) == "..."@
        }),
{
    reveal_strlit("...");
    let text = redacted(body, longest_first(non_empty_texts(secrets)));
    let collapsed = collapse_ws(text);
    lemma_collapse_single_spaced(text);
    let out = sanitized(body, secrets);
    let cut = MAX_PREVIEW_CHARS as int;
    if collapsed.len() > MAX_PREVIEW_CHARS {
        assert(out == collapsed.take(cut) + "..."@);
        assert(out.take(cut) =~= collapsed.take(cut));
        assert(out.skip(cut) =~= "..."@);
        assert(!is_ws('.'));
        assert forall|i: int| 0 <= i < out.len() && is_ws(#[trigger] out[i]) implies out[i] == ' '
            && 0 < i < out.len() - 1 && !is_ws(out[i - 1]) && !is_ws(out[i + 1]) by {
            if i >= cut {
                assert(out[i] == '.');
            }
            assert(out[i] == collapsed[i]);
            assert(is_ws(collapsed[i]));
            assert(out[i - 1] == collapsed[i - 1]);
            if i + 1 < cut {
                assert(out[i + 1] == collapsed[i + 1]);
            } else {
                assert(out[i + 1] == '.');
            }
        }
    }
}

} // verus!

//! Tokenization and normalization.
//!
//! Skill strings, job text and corpus documents all pass through the same
//! normalization so that weights and overlaps are comparable.  Casing and
//! character classification are Unicode-aware: they are std's, held behind
//! named results, and the filtering, splitting and trimming built on top
//! of them is verified.

use vstd::prelude::*;

verus! {

/// What std's Unicode lowercase mapping returns for a text.
pub uninterp spec fn lower_of(s: Seq<char>) -> Seq<char>;

/// Whether std classifies the character as a Unicode letter or digit.
pub uninterp spec fn is_unicode_alnum(c: char) -> bool;

/// Whether std classifies the character as Unicode whitespace.
pub uninterp spec fn is_unicode_space(c: char) -> bool;

/// Relies on std `str::to_lowercase`: the Unicode lowercase form of the
/// text.  The result depends on the characters alone, and an empty text
/// stays empty.
#[verifier::external_body]
pub(crate) fn to_lowercase_text(s: &str) -> (r: String)
    ensures
        r@ == lower_of(s@),
        s@.len() == 0 ==> r@.len() == 0,
{
    s.to_lowercase()
}

/// Relies on std `char::is_alphanumeric`: whether the character is a
/// Unicode letter or digit; a function of the character alone.
#[verifier::external_body]
fn is_alnum_char(c: char) -> (r: bool)
    ensures
        r == is_unicode_alnum(c),
{
    c.is_alphanumeric()
}

/// Relies on std `char::is_whitespace`: whether the character is Unicode
/// whitespace; a function of the character alone.
#[verifier::external_body]
fn is_space_char(c: char) -> (r: bool)
    ensures
        r == is_unicode_space(c),
{
    c.is_whitespace()
}

/// A character that normalization retains: alphanumeric, whitespace, or
/// `+` (kept so that a token such as `c++` survives normalization).
pub open spec fn keep_char(c: char) -> bool {
    is_unicode_alnum(c) || is_unicode_space(c) || c == '+'
}

/// The retained characters of a text, in order.
pub open spec fn keep_filter(s: Seq<char>) -> Seq<char>
    decreases s.len(),
{
    if s.len() == 0 {
        Seq::<char>::empty()
    } else {
        let rest = keep_filter(s.drop_first());
        if keep_char(s[0]) {
            seq![s[0]] + rest
        } else {
            rest
        }
    }
}

/// The normal form of a text: its Unicode lowercase form with only
/// alphanumerics, whitespace and `+` retained.
pub open spec fn normalize_spec(s: Seq<char>) -> Seq<char> {
    keep_filter(lower_of(s))
}

/// Appending one character on the right extends the filtered text on the
/// right.
pub proof fn lemma_keep_filter_push(s: Seq<char>, c: char)
    ensures
        keep_filter(s.push(c)) == keep_filter(s) + (if keep_char(c) {
            seq![c]
        } else {
            Seq::<char>::empty()
        }),
    decreases s.len(),
{
    let tail: Seq<char> = if keep_char(c) {
        seq![c]
    } else {
        Seq::<char>::empty()
    };
    if s.len() == 0 {
        assert(s.push(c) =~= seq![c]);
        assert(seq![c].drop_first() =~= Seq::<char>::empty());
        assert(keep_filter(Seq::<char>::empty()) == Seq::<char>::empty());
        assert(keep_filter(s.push(c)) =~= keep_filter(s) + tail);
    } else {
        let t = s.push(c);
        assert(t.len() == s.len() + 1);
        assert(t[0] == s[0]);
        assert(t.drop_first() =~= s.drop_first().push(c));
        lemma_keep_filter_push(s.drop_first(), c);
        let rest = keep_filter(s.drop_first());
        if keep_char(s[0]) {
            assert(keep_filter(t) == seq![s[0]] + (rest + tail));
            assert(keep_filter(s) + tail =~= seq![s[0]] + (rest + tail));
        } else {
            assert(keep_filter(t) == rest + tail);
        }
    }
}

/// Filtering is idempotent: a filtered text is its own filtered form.
pub proof fn lemma_keep_filter_idempotent(s: Seq<char>)
    ensures
        keep_filter(keep_filter(s)) == keep_filter(s),
    decreases s.len(),
{
    if s.len() > 0 {
        let rest = keep_filter(s.drop_first());
        lemma_keep_filter_idempotent(s.drop_first());
        if keep_char(s[0]) {
            assert((seq![s[0]] + rest).len() > 0);
            assert((seq![s[0]] + rest)[0] == s[0]);
            assert((seq![s[0]] + rest).drop_first() =~= rest);
            assert(keep_filter(seq![s[0]] + rest) =~= seq![s[0]] + keep_filter(rest));
        }
    }
}

/// Normalization is idempotent on every text whose normal form the
/// Unicode lowercase mapping leaves unchanged.  (That it leaves every
/// normal form unchanged is a property of the Unicode tables, which lie
/// outside the verifier behind the `lower_of` name; the hypothesis states
/// it for the given text.)
pub proof fn lemma_normalize_idempotent(s: Seq<char>)
    ensures
        lower_of(normalize_spec(s)) == normalize_spec(s) ==> normalize_spec(normalize_spec(s))
            == normalize_spec(s),
{
    if lower_of(normalize_spec(s)) == normalize_spec(s) {
        lemma_keep_filter_idempotent(lower_of(s));
        assert(normalize_spec(normalize_spec(s)) == keep_filter(keep_filter(lower_of(s))));
    }
}

/// Whether `needle` occurs contiguously inside `hay`.
pub open spec fn is_substring(needle: Seq<char>, hay: Seq<char>) -> bool {
    exists|i: int|
        0 <= i <= hay.len() - needle.len() && #[trigger] hay.subrange(i, i + needle.len() as int)
            == needle
}

/// The decimal digit character for a value in `0 .. 10`.
pub open spec fn dec_digit(d: int) -> char {
    ((48 + d) as u8) as char
}

/// The decimal representation of a nonnegative number, most significant
/// digit first.
pub open spec fn dec_spec(n: int) -> Seq<char>
    decreases n,
{
    if n < 10 {
        seq![dec_digit(n)]
    } else {
        dec_spec(n / 10).push(dec_digit(n % 10))
    }
}

/// Splitting on whitespace, carrying the current (possibly empty) run of
/// non-whitespace characters already read.
pub open spec fn split_ws_acc(s: Seq<char>, cur: Seq<char>) -> Seq<Seq<char>>
    decreases s.len(),
{
    if s.len() == 0 {
        if cur.len() > 0 {
            seq![cur]
        } else {
            Seq::<Seq<char>>::empty()
        }
    } else if is_unicode_space(s[0]) {
        if cur.len() > 0 {
            seq![cur] + split_ws_acc(s.drop_first(), Seq::<char>::empty())
        } else {
            split_ws_acc(s.drop_first(), Seq::<char>::empty())
        }
    } else {
        split_ws_acc(s.drop_first(), cur.push(s[0]))
    }
}

/// The maximal nonempty whitespace-free runs of a text, in order.
pub open spec fn split_ws(s: Seq<char>) -> Seq<Seq<char>> {
    split_ws_acc(s, Seq::<char>::empty())
}

/// Drop leading characters that are not alphanumeric.
pub open spec fn trim_front(t: Seq<char>) -> Seq<char>
    decreases t.len(),
{
    if t.len() == 0 || is_unicode_alnum(t[0]) {
        t
    } else {
        trim_front(t.drop_first())
    }
}

/// Drop trailing characters that are not alphanumeric.
pub open spec fn trim_back(t: Seq<char>) -> Seq<char>
    decreases t.len(),
{
    if t.len() == 0 || is_unicode_alnum(t.last()) {
        t
    } else {
        trim_back(t.drop_last())
    }
}

/// A token with residual leading and trailing punctuation removed.
pub open spec fn trim_token(t: Seq<char>) -> Seq<char> {
    trim_back(trim_front(t))
}

/// Trim every token and drop the ones that end up empty.
pub open spec fn trim_tokens(ts: Seq<Seq<char>>) -> Seq<Seq<char>>
    decreases ts.len(),
{
    if ts.len() == 0 {
        Seq::<Seq<char>>::empty()
    } else {
        let t = trim_token(ts[0]);
        let rest = trim_tokens(ts.drop_first());
        if t.len() > 0 {
            seq![t] + rest
        } else {
            rest
        }
    }
}

/// The token sequence of a text: normalize, split on whitespace, trim
/// residual punctuation from each token, and drop empty results.
pub open spec fn tokenize_spec(s: Seq<char>) -> Seq<Seq<char>> {
    trim_tokens(split_ws(normalize_spec(s)))
}

/// Trimming one more token on the right extends the trimmed list on the right.
pub proof fn lemma_trim_tokens_push(ts: Seq<Seq<char>>, t: Seq<char>)
    ensures
        trim_tokens(ts.push(t)) == trim_tokens(ts) + (if trim_token(t).len() > 0 {
            seq![trim_token(t)]
        } else {
            Seq::<Seq<char>>::empty()
        }),
    decreases ts.len(),
{
    let tail: Seq<Seq<char>> = if trim_token(t).len() > 0 {
        seq![trim_token(t)]
    } else {
        Seq::<Seq<char>>::empty()
    };
    if ts.len() == 0 {
        assert(ts.push(t) =~= seq![t]);
        assert(seq![t].drop_first() =~= Seq::<Seq<char>>::empty());
        assert(trim_tokens(Seq::<Seq<char>>::empty()) == Seq::<Seq<char>>::empty());
        assert(trim_tokens(ts.push(t)) =~= trim_tokens(ts) + tail);
    } else {
        let w = ts.push(t);
        assert(w[0] == ts[0]);
        assert(w.drop_first() =~= ts.drop_first().push(t));
        lemma_trim_tokens_push(ts.drop_first(), t);
        let t0 = trim_token(ts[0]);
        let rest = trim_tokens(ts.drop_first());
        if t0.len() > 0 {
            assert(trim_tokens(w) == seq![t0] + (rest + tail));
            assert(trim_tokens(ts) + tail =~= seq![t0] + (rest + tail));
        } else {
            assert(trim_tokens(w) == rest + tail);
        }
    }
}

/// Relies on std `String::push`: appends exactly the given character.
#[verifier::external_body]
fn push_char(s: &mut String, c: char)
    ensures
        final(s)@ == old(s)@ + seq![c],
{
    s.push(c);
}

/// Whether normalization retains this character.
fn keep_char_exec(c: char) -> (r: bool)
    ensures
        r == keep_char(c),
{
    is_alnum_char(c) || is_space_char(c) || c == '+'
}

/// Canonicalize a text: lowercase it and strip every character that is
/// not alphanumeric, whitespace, or `+` (kept so that a token such as
/// `c++` survives normalization).
pub fn normalize_token(s: &str) -> (r: String)
    ensures
        r@ == normalize_spec(s@),
{
    let low = to_lowercase_text(s);
    let n = low.as_str().unicode_len();
    let mut out = String::new();
    let mut i: usize = 0;
    proof {
        assert(out@ =~= keep_filter(low@.subrange(0, 0)));
    }
    while i < n
        invariant
            n == low@.len(),
            low@ == lower_of(s@),
            i <= n,
            out@ == keep_filter(low@.subrange(0, i as int)),
        decreases n - i,
    {
        let c = low.as_str().get_char(i);
        proof {
            assert(low@.subrange(0, i + 1) =~= low@.subrange(0, i as int).push(low@[i as int]));
            lemma_keep_filter_push(low@.subrange(0, i as int), low@[i as int]);
        }
        if keep_char_exec(c) {
            push_char(&mut out, c);
        }
        i = i + 1;
    }
    proof {
        assert(low@.subrange(0, n as int) =~= low@);
    }
    out
}

/// Whether `hay` holds `needle` starting at position `i`.
fn match_at(hay: &str, needle: &str, i: usize) -> (r: bool)
    requires
        i + needle@.len() <= hay@.len(),
    ensures
        r == (hay@.subrange(i as int, i + needle@.len()) == needle@),
{
    let hn = hay.unicode_len();
    let m = needle.unicode_len();
    let mut j: usize = 0;
    while j < m
        invariant
            hn == hay@.len(),
            m == needle@.len(),
            i + m <= hn,
            j <= m,
            forall|q: int| 0 <= q < j ==> hay@[i + q] == needle@[q],
        decreases m - j,
    {
        if hay.get_char(i + j) != needle.get_char(j) {
            proof {
                assert(hay@.subrange(i as int, i + m as int)[j as int] == hay@[i + j]);
                assert(hay@.subrange(i as int, i + m as int) != needle@);
            }
            return false;
        }
        j = j + 1;
    }
    proof {
        assert(hay@.subrange(i as int, i + m as int) =~= needle@);
    }
    true
}

/// Whether `needle` occurs anywhere inside `hay`.
pub fn str_contains(hay: &str, needle: &str) -> (r: bool)
    ensures
        r == is_substring(needle@, hay@),
{
    let n = hay.unicode_len();
    let m = needle.unicode_len();
    if m > n {
        proof {
            assert(!is_substring(needle@, hay@));
        }
        return false;
    }
    if m == 0 {
        proof {
            assert(hay@.subrange(0, 0 + needle@.len() as int) =~= needle@);
        }
        return true;
    }
    let limit = n - m;
    let mut i: usize = 0;
    while i <= limit
        invariant
            n == hay@.len(),
            m == needle@.len(),
            1 <= m <= n,
            limit == n - m,
            i <= limit + 1,
            forall|q: int|
                0 <= q < i ==> #[trigger] hay@.subrange(q, q + needle@.len() as int) != needle@,
        decreases limit - i + 1,
    {
        if match_at(hay, needle, i) {
            proof {
                assert(is_substring(needle@, hay@));
            }
            return true;
        }
        i = i + 1;
    }
    proof {
        assert(forall|q: int|
            0 <= q <= n - m ==> #[trigger] hay@.subrange(q, q + needle@.len() as int) != needle@);
    }
    false
}

/// Render a nonnegative number in decimal.
pub fn u64_to_string(n: u64) -> (r: String)
    ensures
        r@ == dec_spec(n as int),
{
    let mut digits: Vec<char> = Vec::new();
    let mut cur: u64 = n;
    while cur >= 10
        invariant
            dec_spec(n as int) == dec_spec(cur as int) + digits@.reverse(),
        decreases cur,
    {
        let d: char = ((48 + (cur % 10)) as u8) as char;
        let ghost old_digits = digits@;
        digits.push(d);
        proof {
            assert(d == dec_digit(cur as int % 10));
            assert(dec_spec(cur as int) == dec_spec(cur as int / 10).push(
                dec_digit(cur as int % 10),
            ));
            assert(digits@.reverse() =~= seq![d] + old_digits.reverse());
            assert(dec_spec(cur as int / 10) + digits@.reverse() =~= dec_spec(cur as int)
                + old_digits.reverse());
        }
        cur = cur / 10;
    }
    let d: char = ((48 + cur) as u8) as char;
    let ghost full = digits@.push(d);
    digits.push(d);
    proof {
        assert(d == dec_digit(cur as int));
        assert(dec_spec(cur as int) == seq![d]);
        assert(digits@.reverse() =~= seq![d] + full.drop_last().reverse());
        assert(full.drop_last() =~= digits@.drop_last());
        assert(dec_spec(n as int) == digits@.reverse());
    }
    let mut out = String::new();
    let mut k: usize = digits.len();
    proof {
        assert(out@ =~= digits@.reverse().subrange(0, 0));
    }
    while k > 0
        invariant
            k <= digits@.len(),
            out@ == digits@.reverse().subrange(0, digits@.len() - k),
        decreases k,
    {
        push_char(&mut out, digits[k - 1]);
        proof {
            let rev = digits@.reverse();
            let p = digits@.len() - k;
            assert(rev[p as int] == digits@[k - 1]);
            assert(out@ =~= rev.subrange(0, p + 1));
        }
        k = k - 1;
    }
    proof {
        assert(digits@.reverse().subrange(0, digits@.len() as int) =~= digits@.reverse());
    }
    out
}

/// Split a text into its maximal whitespace-free runs.
fn split_tokens(s: &String) -> (r: Vec<String>)
    ensures
        r.deep_view() == split_ws(s@),
{
    let n = s.as_str().unicode_len();
    let mut out: Vec<String> = Vec::new();
    let mut cur = String::new();
    let mut i: usize = 0;
    proof {
        assert(s@.skip(0) =~= s@);
        assert(out.deep_view() =~= Seq::<Seq<char>>::empty());
        assert(Seq::<Seq<char>>::empty() + split_ws_acc(s@, Seq::<char>::empty())
            =~= split_ws_acc(s@, Seq::<char>::empty()));
    }
    while i < n
        invariant
            n == s@.len(),
            i <= n,
            out.deep_view() + split_ws_acc(s@.skip(i as int), cur@) == split_ws(s@),
        decreases n - i,
    {
        let c = s.as_str().get_char(i);
        proof {
            assert(s@.skip(i as int).len() > 0);
            assert(s@.skip(i as int)[0] == s@[i as int]);
            assert(s@.skip(i as int).drop_first() =~= s@.skip(i + 1));
        }
        if is_space_char(c) {
            if !cur.as_str().is_empty() {
                let ghost old_out = out.deep_view();
                let ghost cur_view = cur@;
                out.push(cur);
                cur = String::new();
                proof {
                    assert(out.deep_view() =~= old_out.push(cur_view));
                    assert(cur@ =~= Seq::<char>::empty());
                    assert(out.deep_view() + split_ws_acc(s@.skip(i + 1), cur@) =~= old_out + (
                    seq![cur_view] + split_ws_acc(s@.skip(i + 1), Seq::<char>::empty())));
                }
            } else {
                proof {
                    assert(cur@ =~= Seq::<char>::empty());
                }
            }
        } else {
            let ghost cur_view = cur@;
            push_char(&mut cur, c);
            proof {
                assert(cur@ =~= cur_view.push(s@[i as int]));
            }
        }
        i = i + 1;
    }
    proof {
        assert(s@.skip(n as int) =~= Seq::<char>::empty());
    }
    if !cur.as_str().is_empty() {
        let ghost old_out = out.deep_view();
        let ghost cur_view = cur@;
        out.push(cur);
        proof {
            assert(out.deep_view() =~= old_out.push(cur_view));
            assert(out.deep_view() =~= old_out + seq![cur_view]);
        }
    } else {
        proof {
            assert(out.deep_view() + Seq::<Seq<char>>::empty() =~= out.deep_view());
        }
    }
    out
}

/// Trim residual punctuation from one token; `None` when nothing is left.
fn trim_token_exec(t: &String) -> (r: Option<String>)
    ensures
        match r {
            Some(u) => u@ == trim_token(t@) && u@.len() > 0,
            None => trim_token(t@).len() == 0,
        },
{
    let m = t.as_str().unicode_len();
    let mut a: usize = 0;
    proof {
        assert(t@.skip(0) =~= t@);
    }
    while a < m && !is_alnum_char(t.as_str().get_char(a))
        invariant
            m == t@.len(),
            a <= m,
            trim_front(t@) == trim_front(t@.skip(a as int)),
        decreases m - a,
    {
        proof {
            assert(t@.skip(a as int).len() > 0);
            assert(t@.skip(a as int)[0] == t@[a as int]);
            assert(t@.skip(a as int).drop_first() =~= t@.skip(a + 1));
        }
        a = a + 1;
    }
    if a == m {
        proof {
            assert(t@.skip(m as int) =~= Seq::<char>::empty());
            assert(trim_front(t@).len() == 0);
        }
        return None;
    }
    proof {
        assert(is_unicode_alnum(t@.skip(a as int)[0]));
        assert(trim_front(t@) == t@.skip(a as int));
    }
    let mut b: usize = m;
    proof {
        assert(t@.skip(a as int) =~= t@.subrange(a as int, m as int));
    }
    while b > a + 1 && !is_alnum_char(t.as_str().get_char(b - 1))
        invariant
            m == t@.len(),
            a < b <= m,
            is_unicode_alnum(t@[a as int]),
            trim_back(t@.skip(a as int)) == trim_back(t@.subrange(a as int, b as int)),
        decreases b,
    {
        proof {
            let v = t@.subrange(a as int, b as int);
            assert(v.len() > 0);
            assert(v.last() == t@[b - 1]);
            assert(v.drop_last() =~= t@.subrange(a as int, b - 1));
        }
        b = b - 1;
    }
    proof {
        let v = t@.subrange(a as int, b as int);
        assert(v.len() > 0);
        if b == a + 1 {
            assert(v.last() == t@[a as int]);
            assert(is_unicode_alnum(v.last()));
        } else {
            assert(v.last() == t@[b - 1]);
        }
        assert(trim_back(v) == v);
        assert(t@.skip(a as int) =~= t@.subrange(a as int, m as int));
    }
    let piece = t.as_str().substring_char(a, b);
    let u = String::from_str(piece);
    Some(u)
}

/// Tokenize a text: normalize it, split on whitespace, trim residual
/// punctuation from each token, and discard empty results.
pub fn tokenize(text: &str) -> (r: Vec<String>)
    ensures
        r.deep_view() == tokenize_spec(text@),
{
    let norm = normalize_token(text);
    let raw = split_tokens(&norm);
    let mut out: Vec<String> = Vec::new();
    let mut j: usize = 0;
    while j < raw.len()
        invariant
            j <= raw.len(),
            raw.deep_view() == split_ws(normalize_spec(text@)),
            out.deep_view() == trim_tokens(raw.deep_view().subrange(0, j as int)),
        decreases raw.len() - j,
    {
        let ghost prefix = raw.deep_view().subrange(0, j as int);
        proof {
            assert(raw.deep_view().subrange(0, j + 1) =~= prefix.push(raw.deep_view()[j as int]));
            lemma_trim_tokens_push(prefix, raw.deep_view()[j as int]);
            assert(raw.deep_view()[j as int] == raw@[j as int]@);
        }
        match trim_token_exec(&raw[j]) {
            Some(u) => {
                let ghost old_out = out.deep_view();
                let ghost u_view = u@;
                out.push(u);
                proof {
                    assert(out.deep_view() =~= old_out.push(u_view));
                    assert(out.deep_view() =~= old_out + seq![u_view]);
                }
            },
            None => {
                proof {
                    assert(out.deep_view() + Seq::<Seq<char>>::empty() =~= out.deep_view());
                }
            },
        }
        j = j + 1;
    }
    proof {
        assert(raw.deep_view().subrange(0, raw.deep_view().len() as int) =~= raw.deep_view());
    }
    out
}

} // verus!

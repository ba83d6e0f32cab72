//! Extracting a job identifier from a posting URL.
//!
//! Posting URLs end in a slug whose last dash-separated piece is the
//! numeric identifier (`.../category/job-title-123`).

use vstd::prelude::*;

verus! {

/// The suffix after the last occurrence of the character; the whole text
/// when the character does not occur.
pub open spec fn after_last(s: Seq<char>, c: char) -> Seq<char>
    decreases s.len(),
{
    if s.len() == 0 {
        s
    } else if s.last() == c {
        Seq::<char>::empty()
    } else {
        after_last(s.drop_last(), c).push(s.last())
    }
}

/// A decimal digit.
pub open spec fn is_digit(c: char) -> bool {
    48 <= c as u32 && c as u32 <= 57
}

/// Every character is a decimal digit.
pub open spec fn all_digits(s: Seq<char>) -> bool {
    forall|i: int| 0 <= i < s.len() ==> is_digit(#[trigger] s[i])
}

/// The value of a digit string, most significant digit first.
pub open spec fn digits_val(s: Seq<char>) -> int
    decreases s.len(),
{
    if s.len() == 0 {
        0
    } else {
        10 * digits_val(s.drop_last()) + (s.last() as u32 - 48)
    }
}

/// A digit string's value is nonnegative and no prefix is worth more than
/// the whole.
pub proof fn lemma_digits_val_prefix(s: Seq<char>, j: int)
    requires
        0 <= j <= s.len(),
        all_digits(s),
    ensures
        0 <= digits_val(s.take(j)) <= digits_val(s),
    decreases s.len() - j,
{
    if j == s.len() {
        assert(s.take(j) =~= s);
        lemma_digits_val_nonneg(s);
    } else {
        lemma_digits_val_prefix(s, j + 1);
        let t = s.take(j + 1);
        assert(t.drop_last() =~= s.take(j));
        assert(t.last() == s[j]);
        lemma_digits_val_nonneg(s.take(j));
        assert(digits_val(t) == 10 * digits_val(s.take(j)) + (s[j] as u32 - 48));
        assert(is_digit(s[j]));
    }
}

/// A digit string's value is nonnegative.
pub proof fn lemma_digits_val_nonneg(s: Seq<char>)
    requires
        all_digits(s),
    ensures
        digits_val(s) >= 0,
    decreases s.len(),
{
    if s.len() > 0 {
        assert(all_digits(s.drop_last())) by {
            assert(forall|i: int|
                0 <= i < s.drop_last().len() ==> #[trigger] s.drop_last()[i] == s[i]);
        }
        lemma_digits_val_nonneg(s.drop_last());
        assert(is_digit(s.last()));
    }
}

/// Parsing a piece as a 32-bit number: an optional leading `+`, then at
/// least one digit, all digits, value within range.
pub open spec fn parse_i32_spec(s: Seq<char>) -> Option<i32> {
    let body = if s.len() > 0 && s[0] == '+' {
        s.drop_first()
    } else {
        s
    };
    if body.len() > 0 && all_digits(body) && digits_val(body) <= 0x7FFF_FFFF {
        Some(digits_val(body) as i32)
    } else {
        None
    }
}

/// The numeric identifier at the end of a posting URL: the last
/// dash-separated piece of the last path segment, parsed as a number.
pub open spec fn job_id_of_url(url: Seq<char>) -> Option<i32> {
    parse_i32_spec(after_last(after_last(url, '/'), '-'))
}

/// `after_last` is the suffix that starts right after the last occurrence.
proof fn lemma_after_last_at(s: Seq<char>, c: char, k: int)
    requires
        0 <= k <= s.len(),
        forall|q: int| k <= q < s.len() ==> s[q] != c,
        k > 0 ==> s[k - 1] == c,
    ensures
        after_last(s, c) == s.skip(k),
    decreases s.len(),
{
    if s.len() == 0 {
        assert(s.skip(0) =~= s);
    } else if s.last() == c {
        assert(k == s.len());
        assert(s.skip(k) =~= Seq::<char>::empty());
    } else {
        assert(k < s.len());
        assert forall|q: int| k <= q < s.drop_last().len() implies s.drop_last()[q] != c by {
            assert(s.drop_last()[q] == s[q]);
        }
        if k > 0 {
            assert(s.drop_last()[k - 1] == s[k - 1]);
        }
        lemma_after_last_at(s.drop_last(), c, k);
        assert(after_last(s, c) == s.drop_last().skip(k).push(s.last()));
        assert(s.drop_last().skip(k).push(s.last()) =~= s.skip(k));
    }
}

/// Extract the numeric identifier from a posting URL, if its slug ends in
/// one.
pub fn extract_job_id_from_url(url: &str) -> (r: Option<i32>)
    ensures
        r == job_id_of_url(url@),
{
    let n = url.unicode_len();
    // Find the start of the last path segment.
    let mut a: usize = n;
    while a > 0 && url.get_char(a - 1) != '/'
        invariant
            a <= n,
            n == url@.len(),
            forall|q: int| a <= q < n ==> url@[q] != '/',
        decreases a,
    {
        a = a - 1;
    }
    proof {
        if a > 0 {
            assert(url@[a - 1] == '/');
        }
        lemma_after_last_at(url@, '/', a as int);
    }
    // Find the start of the last dash-separated piece within it.
    let mut b: usize = n;
    while b > a && url.get_char(b - 1) != '-'
        invariant
            a <= b <= n,
            n == url@.len(),
            forall|q: int| b <= q < n ==> url@[q] != '-',
        decreases b,
    {
        b = b - 1;
    }
    let ghost seg = url@.skip(a as int);
    proof {
        if b > a {
            assert(url@[b - 1] == '-');
            assert(seg[b - a - 1] == url@[b - 1]);
        }
        assert forall|q: int| b - a <= q < seg.len() implies seg[q] != '-' by {
            assert(seg[q] == url@[q + a]);
        }
        lemma_after_last_at(seg, '-', b - a as int);
        assert(seg.skip(b - a as int) =~= url@.skip(b as int));
    }
    let ghost piece = url@.skip(b as int);
    proof {
        assert(piece == after_last(after_last(url@, '/'), '-'));
    }
    // Parse the piece as a number with an optional leading plus sign.
    if b == n {
        proof {
            assert(piece.len() == 0);
        }
        return None;
    }
    let mut start: usize = b;
    if url.get_char(b) == '+' {
        start = b + 1;
    }
    let ghost body = if piece[0] == '+' {
        piece.drop_first()
    } else {
        piece
    };
    proof {
        assert(piece[0] == url@[b as int]);
        assert(body =~= url@.skip(start as int));
    }
    if start == n {
        proof {
            assert(body.len() == 0);
        }
        return None;
    }
    let mut val: u64 = 0;
    let mut t: usize = start;
    while t < n
        invariant
            start <= t <= n,
            n == url@.len(),
            start < n,
            piece == after_last(after_last(url@, '/'), '-'),
            piece.len() > 0,
            body == (if piece.len() > 0 && piece[0] == '+' {
                piece.drop_first()
            } else {
                piece
            }),
            body == url@.skip(start as int),
            val == digits_val(body.take(t - start)),
            val <= 0x7FFF_FFFF,
            all_digits(body.take(t - start)),
        decreases n - t,
    {
        let c = url.get_char(t);
        let u = c as u32;
        let ghost done = body.take(t - start);
        let ghost nextp = body.take(t + 1 - start);
        proof {
            assert(nextp.drop_last() =~= done);
            assert(nextp.last() == body[t - start]);
            assert(body[t - start] == url@[t as int]);
        }
        if !(48 <= u && u <= 57) {
            proof {
                assert(!is_digit(url@[t as int]));
                assert(body[t - start] == url@[t as int]);
                assert(!all_digits(body)) by {
                    if all_digits(body) {
                        assert(is_digit(body[t - start]));
                    }
                }
            }
            return None;
        }
        val = val * 10 + (u - 48) as u64;
        proof {
            assert(all_digits(nextp)) by {
                assert(forall|q: int| 0 <= q < done.len() ==> nextp[q] == done[q]);
            }
            assert(digits_val(nextp) == 10 * digits_val(done) + (url@[t as int] as u32 - 48));
        }
        if val > 0x7FFF_FFFF {
            proof {
                assert(digits_val(nextp) > 0x7FFF_FFFF);
                if all_digits(body) {
                    lemma_digits_val_prefix(body, t + 1 - start);
                    assert(digits_val(body) > 0x7FFF_FFFF);
                }
            }
            return None;
        }
        t = t + 1;
    }
    proof {
        assert(body.take(n - start as int) =~= body);
        assert(val == digits_val(body));
        assert(body.len() > 0);
    }
    Some(val as i32)
}

} // verus!

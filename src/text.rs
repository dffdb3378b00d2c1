use vstd::prelude::*;

verus! {

use vstd::string::*;
use vstd::utf8::*;

/// The byte `/`.
pub const SLASH: u8 = 47;

/// The byte `?`.
pub const QUESTION_MARK: u8 = 63;

/// The UTF-8 bytes of a text.
pub open spec fn utf8(s: Seq<char>) -> Seq<u8> {
    encode_utf8(s)
}

/// `p` without its first byte when that is a `/`.
pub open spec fn drop_leading_slash(p: Seq<u8>) -> Seq<u8> {
    if p.len() > 0 && p[0] == SLASH {
        p.drop_first()
    } else {
        p
    }
}

/// `p` without the `/` bytes it ends with.
pub open spec fn trim_trailing_slashes(p: Seq<u8>) -> Seq<u8>
    decreases p.len(),
{
    if p.len() > 0 && p.last() == SLASH {
        trim_trailing_slashes(p.drop_last())
    } else {
        p
    }
}

/// The position of the first `/` of `p`, or its length when it has none.
pub open spec fn slash_index(p: Seq<u8>) -> int
    decreases p.len(),
{
    if p.len() == 0 {
        0
    } else if p[0] == SLASH {
        0
    } else {
        1 + slash_index(p.drop_first())
    }
}

/// What comes before the first `/` of `p` (all of `p` when it has none).
pub open spec fn head_segment(p: Seq<u8>) -> Seq<u8> {
    p.subrange(0, slash_index(p))
}

/// What comes after the first `/` of `p` (nothing when it has none).
pub open spec fn tail_segment(p: Seq<u8>) -> Seq<u8> {
    if slash_index(p) < p.len() {
        p.subrange(slash_index(p) + 1, p.len() as int)
    } else {
        Seq::empty()
    }
}

pub proof fn lemma_utf8_concat(a: Seq<char>, b: Seq<char>)
    ensures
        utf8(a + b) == utf8(a) + utf8(b),
    decreases a.len(),
{
    if a.len() == 0 {
        assert(a + b =~= b);
        assert(utf8(a) + utf8(b) =~= utf8(b));
    } else {
        lemma_utf8_concat(a.drop_first(), b);
        assert((a + b).drop_first() =~= a.drop_first() + b);
        assert((a + b)[0] == a[0]);
        assert(utf8(a + b) =~= utf8(a) + utf8(b));
    }
}

proof fn lemma_utf8_ascii_char(c: char)
    requires
        (c as u32) < 128,
    ensures
        utf8(seq![c]) == seq![c as u8],
{
    assert(is_ascii_chars(seq![c]));
    is_ascii_chars_encode_utf8(seq![c]);
    assert(utf8(seq![c]) =~= seq![c as u8]);
}

proof fn lemma_slash_index_at(p: Seq<u8>, k: int)
    requires
        0 <= k <= p.len(),
        k < p.len() ==> p[k] == SLASH,
        forall|j: int| 0 <= j < k ==> p[j] != SLASH,
    ensures
        slash_index(p) == k,
    decreases k,
{
    if k > 0 {
        assert forall|j: int| 0 <= j < k - 1 implies p.drop_first()[j] != SLASH by {
            assert(p.drop_first()[j] == p[j + 1]);
        }
        lemma_slash_index_at(p.drop_first(), k - 1);
    }
}

/// Splits `s` at byte `i`, which is a `/` or the end of `s`.
fn split_at_slash<'a>(s: &'a str, i: usize) -> (r: (&'a str, &'a str))
    requires
        i <= s.spec_bytes().len(),
        i < s.spec_bytes().len() ==> s.spec_bytes()[i as int] == SLASH,
    ensures
        r.0.spec_bytes() == s.spec_bytes().subrange(0, i as int),
        r.1.spec_bytes() == s.spec_bytes().subrange(i as int, s.spec_bytes().len() as int),
{
    proof {
        encode_utf8_valid_utf8(s@);
        if i < s.spec_bytes().len() {
            is_char_boundary_iff_not_is_continuation_byte(s.spec_bytes(), i as int);
        } else {
            is_char_boundary_start_end_of_seq(s.spec_bytes());
        }
    }
    s.split_at(i)
}

/// `s` without its first byte, which is ASCII.
fn drop_ascii_byte<'a>(s: &'a str) -> (r: &'a str)
    requires
        s.spec_bytes().len() > 0,
        s.spec_bytes()[0] < 128,
    ensures
        r.spec_bytes() == s.spec_bytes().drop_first(),
{
    proof {
        let b = s.spec_bytes();
        encode_utf8_valid_utf8(s@);
        reveal_with_fuel(is_char_boundary, 2);
        assert(is_leading_byte_width_1(b[0]));
        assert(is_char_boundary(b, 1));
        assert(b.subrange(1, b.len() as int) =~= b.drop_first());
    }
    let (_, rest) = s.split_at(1);
    rest
}

/// `s` without its first byte when that is a `/`.
pub fn strip_leading_slash(s: &str) -> (r: &str)
    ensures
        r.spec_bytes() == drop_leading_slash(s.spec_bytes()),
{
    let b = s.as_bytes();
    if b.len() > 0 && b[0] == SLASH {
        drop_ascii_byte(s)
    } else {
        s
    }
}

/// `s` without the `/` bytes it ends with.
pub fn strip_trailing_slashes(s: &str) -> (r: &str)
    ensures
        r.spec_bytes() == trim_trailing_slashes(s.spec_bytes()),
{
    let b = s.as_bytes();
    let mut e: usize = b.len();
    proof {
        assert(b@.subrange(0, e as int) =~= b@);
    }
    while e > 0 && b[e - 1] == SLASH
        invariant
            b@ == s.spec_bytes(),
            e <= b@.len(),
            e < b@.len() ==> b@[e as int] == SLASH,
            trim_trailing_slashes(b@.subrange(0, e as int)) == trim_trailing_slashes(b@),
        decreases e,
    {
        assert(b@.subrange(0, e as int).drop_last() =~= b@.subrange(0, e as int - 1));
        e = e - 1;
    }
    proof {
        if e == b@.len() {
            assert(b@.subrange(0, e as int) =~= b@);
        }
    }
    let (head, _) = split_at_slash(s, e);
    head
}

/// Splits `s` at its first `/`: what comes before it, and what comes after it.
pub fn split_first_slash(s: &str) -> (r: (&str, &str))
    ensures
        r.0.spec_bytes() == head_segment(s.spec_bytes()),
        r.1.spec_bytes() == tail_segment(s.spec_bytes()),
{
    let b = s.as_bytes();
    let mut k: usize = 0;
    while k < b.len() && b[k] != SLASH
        invariant
            b@ == s.spec_bytes(),
            k <= b@.len(),
            forall|j: int| 0 <= j < k ==> b@[j] != SLASH,
        decreases b@.len() - k,
    {
        k = k + 1;
    }
    proof {
        lemma_slash_index_at(b@, k as int);
    }
    let (head, tail) = split_at_slash(s, k);
    if tail.as_bytes().len() == 0 {
        return (head, tail);
    }
    let after = drop_ascii_byte(tail);
    proof {
        assert(after.spec_bytes() =~= b@.subrange(k as int + 1, b@.len() as int));
    }
    (head, after)
}

/// `a`, then the ASCII character `c`, then `b`.
pub fn join_with(a: &str, c: &str, b: &str) -> (r: String)
    requires
        c@.len() == 1,
        (c@[0] as u32) < 128,
    ensures
        utf8(r@) == utf8(a@) + seq![c@[0] as u8] + utf8(b@),
{
    let mut out = a.to_owned();
    out.append(c);
    out.append(b);
    proof {
        assert(c@ =~= seq![c@[0]]);
        lemma_utf8_ascii_char(c@[0]);
        lemma_utf8_concat(a@, c@);
        lemma_utf8_concat(a@ + c@, b@);
    }
    out
}

} // verus!

use vstd::prelude::*;
use vstd::utf8::*;
use vstd::string::StringSliceAdditionalSpecFns;

verus! {

/// The pieces of `s` between the occurrences of `sep`: one more piece than
/// there are separators, empty pieces included.
pub open spec fn split_on(s: Seq<u8>, sep: u8) -> Seq<Seq<u8>>
    decreases s.len(),
{
    if s.len() == 0 {
        seq![Seq::empty()]
    } else {
        let pre = split_on(s.drop_last(), sep);
        if s.last() == sep {
            pre.push(Seq::empty())
        } else {
            pre.update(pre.len() - 1, pre.last().push(s.last()))
        }
    }
}

/// `s` begins with `p`.
pub open spec fn starts_with(s: Seq<u8>, p: Seq<u8>) -> bool {
    p.len() <= s.len() && s.subrange(0, p.len() as int) == p
}

/// The value of the decimal digit at position `k` of `s`, if there is one.
pub open spec fn digit_at(s: Seq<u8>, k: int) -> Option<u8> {
    if 0 <= k < s.len() && '0' as u8 <= s[k] <= '9' as u8 {
        Some((s[k] - '0' as u8) as u8)
    } else {
        None
    }
}

/// Every byte of `s` is a decimal digit.
pub open spec fn all_digits(s: Seq<u8>) -> bool {
    forall|i: int| 0 <= i < s.len() ==> '0' as u8 <= #[trigger] s[i] <= '9' as u8
}

/// The number that the decimal digits `s` write.
pub open spec fn digits_value(s: Seq<u8>) -> int
    decreases s.len(),
{
    if s.len() == 0 {
        0
    } else {
        digits_value(s.drop_last()) * 10 + (s.last() - '0' as u8)
    }
}

/// The `u32` that `s` writes in decimal, with an optional leading `+`, as
/// Rust's `u32` parser reads it; `None` where it reads no `u32`.
pub open spec fn u32_from(s: Seq<u8>) -> Option<u32> {
    let d = if s.len() > 0 && s[0] == '+' as u8 {
        s.drop_first()
    } else {
        s
    };
    if d.len() > 0 && all_digits(d) && digits_value(d) <= u32::MAX {
        Some(digits_value(d) as u32)
    } else {
        None
    }
}

/// Position `i` of `b` is next to an ASCII byte or at an end: there a string
/// can be cut.
pub open spec fn cut_point(b: Seq<u8>, i: int) -> bool {
    0 <= i <= b.len() && (i == 0 || i == b.len() || b[i] < 128 || b[i - 1] < 128)
}

proof fn lemma_digits_value_monotone(s: Seq<u8>, i: int)
    requires
        all_digits(s),
        0 <= i <= s.len(),
    ensures
        0 <= digits_value(s.subrange(0, i)) <= digits_value(s),
    decreases s.len(),
{
    if s.len() > 0 {
        if i == s.len() {
            assert(s.subrange(0, i) == s);
        } else {
            assert(s.drop_last().subrange(0, i) == s.subrange(0, i));
        }
        if i < s.len() {
            lemma_digits_value_monotone(s.drop_last(), i);
        }
        lemma_digits_value_monotone(s.drop_last(), 0);
    }
}

/// Next to an ASCII byte, a valid UTF-8 text can be cut.
pub proof fn lemma_cut_point_is_char_boundary(b: Seq<u8>, i: int)
    requires
        valid_utf8(b),
        cut_point(b, i),
    ensures
        is_char_boundary(b, i),
{
    is_char_boundary_start_end_of_seq(b);
    if i == 0 || i == b.len() {
    } else if b[i] < 128 {
        is_char_boundary_iff_not_is_continuation_byte(b, i);
    } else {
        is_char_boundary_iff_not_is_continuation_byte(b, i - 1);
        valid_utf8_split(b, i - 1);
        let s = b.subrange(i - 1, b.len() as int);
        assert(s[0] == b[i - 1]);
        assert(pop_first_scalar(s) == b.subrange(i, b.len() as int));
        let t = b.subrange(i, b.len() as int);
        assert(valid_utf8(t));
        assert(t[0] == b[i]);
        assert(!is_continuation_byte(b[i]));
        is_char_boundary_iff_not_is_continuation_byte(b, i);
    }
}

/// The byte strings that the spans `ps` cut from `b`.
pub open spec fn span_seqs(b: Seq<u8>, ps: Seq<(usize, usize)>) -> Seq<Seq<u8>> {
    ps.map_values(|p: (usize, usize)| b.subrange(p.0 as int, p.1 as int))
}

/// The pieces of `bytes[a..b]` between the occurrences of `sep`, as spans of
/// `bytes`.
pub fn split_span(bytes: &[u8], a: usize, b: usize, sep: u8) -> (pieces: Vec<(usize, usize)>)
    requires
        a <= b <= bytes@.len(),
    ensures
        span_seqs(bytes@, pieces@) == split_on(bytes@.subrange(a as int, b as int), sep),
        forall|k: int| 0 <= k < pieces@.len() ==> {
            let (s, e) = #[trigger] pieces@[k];
            &&& a <= s <= e <= b
            &&& (s == a || bytes@[s - 1] == sep)
            &&& (e == b || bytes@[e as int] == sep)
        },
{
    let mut pieces: Vec<(usize, usize)> = Vec::new();
    let mut cur: usize = a;
    let mut i: usize = a;
    assert(bytes@.subrange(a as int, a as int) =~= Seq::<u8>::empty());
    assert(span_seqs(bytes@, pieces@) =~= Seq::<Seq<u8>>::empty());
    assert(split_on(bytes@.subrange(a as int, a as int), sep) == span_seqs(bytes@, pieces@).push(
        bytes@.subrange(a as int, a as int),
    ));
    while i < b
        invariant
            a <= cur <= i <= b <= bytes@.len(),
            cur == a || bytes@[cur - 1] == sep,
            split_on(bytes@.subrange(a as int, i as int), sep) == span_seqs(bytes@, pieces@).push(
                bytes@.subrange(cur as int, i as int),
            ),
            forall|k: int| 0 <= k < pieces@.len() ==> {
                let (s, e) = #[trigger] pieces@[k];
                &&& a <= s <= e < i
                &&& (s == a || bytes@[s - 1] == sep)
                &&& bytes@[e as int] == sep
            },
        decreases b - i,
    {
        let ghost pre = bytes@.subrange(a as int, i as int);
        let ghost now = bytes@.subrange(a as int, i as int + 1);
        assert(now.drop_last() == pre);
        assert(now.last() == bytes@[i as int]);
        let ghost old_pieces = pieces@;
        let ghost old_cur = cur;
        if bytes[i] == sep {
            pieces.push((cur, i));
            cur = i + 1;
            assert(span_seqs(bytes@, pieces@) == span_seqs(bytes@, old_pieces).push(
                bytes@.subrange(old_cur as int, i as int),
            ));
            assert(bytes@.subrange(cur as int, i as int + 1) == Seq::<u8>::empty());
        } else {
            assert(bytes@.subrange(cur as int, i as int + 1) == bytes@.subrange(cur as int, i as int).push(
                bytes@[i as int],
            ));
        }
        i = i + 1;
    }
    let ghost old_pieces = pieces@;
    pieces.push((cur, b));
    assert(span_seqs(bytes@, pieces@) == span_seqs(bytes@, old_pieces).push(
        bytes@.subrange(cur as int, b as int),
    ));
    pieces
}

/// Whether `bytes[a..b]` is `lit`.
pub fn span_eq(bytes: &[u8], a: usize, b: usize, lit: &[u8]) -> (r: bool)
    requires
        a <= b <= bytes@.len(),
    ensures
        r == (bytes@.subrange(a as int, b as int) == lit@),
{
    if b - a != lit.len() {
        return false;
    }
    let mut i: usize = 0;
    while i < lit.len()
        invariant
            a <= b <= bytes@.len(),
            b - a == lit@.len(),
            0 <= i <= lit@.len(),
            forall|j: int| 0 <= j < i ==> bytes@[a + j] == lit@[j],
        decreases lit@.len() - i,
    {
        if bytes[a + i] != lit[i] {
            assert(bytes@.subrange(a as int, b as int)[i as int] != lit@[i as int]);
            return false;
        }
        i = i + 1;
    }
    assert(bytes@.subrange(a as int, b as int) =~= lit@);
    true
}

/// Whether `bytes[a..b]` begins with `lit`.
pub fn span_starts_with(bytes: &[u8], a: usize, b: usize, lit: &[u8]) -> (r: bool)
    requires
        a <= b <= bytes@.len(),
    ensures
        r == starts_with(bytes@.subrange(a as int, b as int), lit@),
{
    if b - a < lit.len() {
        return false;
    }
    let r = span_eq(bytes, a, a + lit.len(), lit);
    assert(bytes@.subrange(a as int, b as int).subrange(0, lit@.len() as int) == bytes@.subrange(
        a as int,
        a + lit@.len(),
    ));
    r
}

/// The decimal digit at position `k` of `bytes[a..b]`, if there is one.
pub fn digit_in_span(bytes: &[u8], a: usize, b: usize, k: usize) -> (d: Option<u8>)
    requires
        a <= b <= bytes@.len(),
    ensures
        d == digit_at(bytes@.subrange(a as int, b as int), k as int),
{
    if k < b - a && '0' as u8 <= bytes[a + k] && bytes[a + k] <= '9' as u8 {
        Some(bytes[a + k] - '0' as u8)
    } else {
        None
    }
}

/// The `u32` that `bytes[a..b]` writes in decimal (see `u32_from`).
pub fn parse_u32_span(bytes: &[u8], a: usize, b: usize) -> (r: Option<u32>)
    requires
        a <= b <= bytes@.len(),
    ensures
        r == u32_from(bytes@.subrange(a as int, b as int)),
{
    let ghost s = bytes@.subrange(a as int, b as int);
    let mut start = a;
    if a < b && bytes[a] == '+' as u8 {
        start = a + 1;
    }
    let ghost d = bytes@.subrange(start as int, b as int);
    assert(d == (if s.len() > 0 && s[0] == '+' as u8 {
        s.drop_first()
    } else {
        s
    }));
    if start == b {
        return None;
    }
    let mut value: u64 = 0;
    let mut i: usize = start;
    while i < b
        invariant
            a <= start <= i <= b <= bytes@.len(),
            d == bytes@.subrange(start as int, b as int),
            d.len() > 0,
            s == bytes@.subrange(a as int, b as int),
            u32_from(s) == (if d.len() > 0 && all_digits(d) && digits_value(d) <= u32::MAX {
                Some(digits_value(d) as u32)
            } else {
                None
            }),
            value == digits_value(d.subrange(0, i - start)),
            value <= u32::MAX,
            all_digits(d.subrange(0, i - start)),
        decreases b - i,
    {
        let c = bytes[i];
        if c < '0' as u8 || c > '9' as u8 {
            assert(d[i - start] == c);
            return None;
        }
        let ghost pre = d.subrange(0, i - start);
        let ghost now = d.subrange(0, i - start + 1);
        assert(now.drop_last() == pre);
        assert(now.last() == c);
        value = value * 10 + (c - '0' as u8) as u64;
        i = i + 1;
        assert(all_digits(now)) by {
            assert forall|j: int| 0 <= j < now.len() implies '0' as u8 <= #[trigger] now[j] <= '9' as u8 by {
                if j < now.len() - 1 {
                    assert(now[j] == pre[j]);
                }
            }
        }
        if value > u32::MAX as u64 {
            proof {
                if all_digits(d) {
                    lemma_digits_value_monotone(d, i - start);
                }
            }
            return None;
        }
    }
    assert(d.subrange(0, d.len() as int) == d);
    Some(value as u32)
}

/// The characters that `bytes[a..b]` encode, as a string cut from `text`,
/// whose bytes `bytes` are.
pub fn cut_string(text: &str, bytes: &[u8], a: usize, b: usize) -> (s: String)
    requires
        bytes@ == text.spec_bytes(),
        a <= b,
        cut_point(bytes@, a as int),
        cut_point(bytes@, b as int),
    ensures
        s@ == decode_utf8(bytes@.subrange(a as int, b as int)),
{
    proof {
        encode_utf8_valid_utf8(text@);
        lemma_cut_point_is_char_boundary(bytes@, a as int);
        valid_utf8_split(bytes@, a as int);
        let rest = bytes@.subrange(a as int, bytes@.len() as int);
        assert(cut_point(rest, b - a)) by {
            if b < bytes@.len() {
                assert(rest[b - a] == bytes@[b as int]);
            }
            if b > a {
                assert(rest[b - a - 1] == bytes@[b - 1]);
            }
        }
        lemma_cut_point_is_char_boundary(rest, b - a);
    }
    let (_, rest) = text.split_at(a);
    let (mid, _) = rest.split_at(b - a);
    proof {
        assert(mid.spec_bytes() == bytes@.subrange(a as int, b as int));
        encode_utf8_decode_utf8(mid@);
    }
    mid.to_owned()
}

} // verus!

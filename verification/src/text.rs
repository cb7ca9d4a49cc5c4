//! Byte-level text utilities: decimal numbers and splitting on a
//! separator byte or on line endings.

use vstd::prelude::*;

verus! {

/// ASCII `'0'`.
pub const DIGIT_ZERO: u8 = 0x30;

/// ASCII `'\n'`.
pub const LINE_FEED: u8 = 0x0a;

/// ASCII `'\r'`.
pub const CARRIAGE_RETURN: u8 = 0x0d;

/// `b` is an ASCII decimal digit.
pub open spec fn is_digit(b: u8) -> bool {
    0x30 <= b <= 0x39
}

/// The value of the digit `b`.
pub open spec fn digit_val(b: u8) -> nat
    recommends
        is_digit(b),
{
    (b - 0x30) as nat
}

/// `s` is a non-empty run of ASCII digits: the only byte strings that
/// the converter accepts as numeric fields of a timing line.
pub open spec fn is_number(s: Seq<u8>) -> bool {
    s.len() > 0 && forall|i: int| 0 <= i < s.len() ==> is_digit(s[i])
}

/// The natural number denoted by the digit string `s`, most significant
/// digit first; leading zeros are allowed and do not change the value.
pub open spec fn str_to_nat(s: Seq<u8>) -> nat
    recommends
        forall|i: int| 0 <= i < s.len() ==> is_digit(s[i]),
    decreases s.len(),
{
    if s.len() == 0 {
        0
    } else {
        str_to_nat(s.drop_last()) * 10 + digit_val(s.last())
    }
}

/// The decimal digit string of `n`, without leading zeros (`0` is `"0"`).
pub open spec fn dec_of(n: nat) -> Seq<u8>
    decreases n,
{
    if n < 10 {
        seq![(0x30 + n) as u8]
    } else {
        dec_of(n / 10).push((0x30 + n % 10) as u8)
    }
}

/// A digit string's value only grows as more digits follow it.
proof fn lemma_str_to_nat_prefix_le(s: Seq<u8>, i: int)
    requires
        0 <= i <= s.len(),
    ensures
        str_to_nat(s.take(i)) <= str_to_nat(s),
    decreases s.len() - i,
{
    if i < s.len() {
        assert(s.take(i + 1).drop_last() =~= s.take(i));
        assert(str_to_nat(s.take(i)) <= str_to_nat(s.take(i + 1)));
        lemma_str_to_nat_prefix_le(s, i + 1);
    } else {
        assert(s.take(i) =~= s);
    }
}

/// Parses a non-empty all-digit byte string as a `u32`; `None` exactly
/// when the string is empty, holds a non-digit, or denotes a value
/// above `u32::MAX`.
pub fn parse_u32(s: &Vec<u8>) -> (r: Option<u32>)
    ensures
        match r {
            Some(v) => is_number(s@) && v == str_to_nat(s@) && str_to_nat(s@) <= u32::MAX,
            None => !(is_number(s@) && str_to_nat(s@) <= u32::MAX),
        },
{
    if s.len() == 0 {
        return None;
    }
    let mut acc: u32 = 0;
    let mut i: usize = 0;
    while i < s.len()
        invariant
            0 < s@.len(),
            i <= s@.len(),
            forall|j: int| 0 <= j < i ==> is_digit(s@[j]),
            acc == str_to_nat(s@.take(i as int)),
        decreases s@.len() - i,
    {
        let b = s[i];
        if !(0x30 <= b && b <= 0x39) {
            return None;
        }
        let d = (b - 0x30) as u32;
        proof {
            assert(s@.take(i as int + 1).drop_last() =~= s@.take(i as int));
        }
        if acc > (u32::MAX - d) / 10 {
            proof {
                assert(str_to_nat(s@.take(i as int + 1)) > u32::MAX);
                if is_number(s@) {
                    lemma_str_to_nat_prefix_le(s@, i as int + 1);
                }
            }
            return None;
        }
        acc = acc * 10 + d;
        i += 1;
    }
    proof {
        assert(s@.take(s@.len() as int) =~= s@);
    }
    Some(acc)
}

/// Prints `n` as decimal digits, matching `dec_of`.
pub fn u32_to_dec(n: u32) -> (r: Vec<u8>)
    ensures
        r@ == dec_of(n as nat),
    decreases n,
{
    if n < 10 {
        let mut v: Vec<u8> = Vec::new();
        v.push(0x30 + n as u8);
        proof {
            assert(v@ =~= dec_of(n as nat));
        }
        v
    } else {
        let mut v = u32_to_dec(n / 10);
        v.push(0x30 + (n % 10) as u8);
        proof {
            assert(v@ =~= dec_of(n as nat));
        }
        v
    }
}

/// The segments of `s` between occurrences of `sep`, in order; the
/// empty sequence splits into one empty segment, as `str::split` does.
/// Each byte either closes the segment before it (a separator) or
/// extends the segment it stands in.
pub open spec fn split_on(s: Seq<u8>, sep: u8) -> Seq<Seq<u8>>
    decreases s.len(),
{
    if s.len() == 0 {
        seq![Seq::<u8>::empty()]
    } else if s.last() == sep {
        split_on(s.drop_last(), sep).push(Seq::<u8>::empty())
    } else {
        let rest = split_on(s.drop_last(), sep);
        rest.update(rest.len() - 1, rest.last().push(s.last()))
    }
}

/// Splitting always yields at least one segment.
pub proof fn lemma_split_on_nonempty(s: Seq<u8>, sep: u8)
    ensures
        split_on(s, sep).len() >= 1,
    decreases s.len(),
{
    if s.len() != 0 {
        lemma_split_on_nonempty(s.drop_last(), sep);
    }
}

/// Splits `s` at every occurrence of `sep`, matching `split_on`.
pub fn split_vec(s: &Vec<u8>, sep: u8) -> (r: Vec<Vec<u8>>)
    ensures
        r.deep_view() == split_on(s@, sep),
        r@.len() >= 1,
{
    let mut r: Vec<Vec<u8>> = Vec::new();
    let mut cur: Vec<u8> = Vec::new();
    let mut i: usize = 0;
    while i < s.len()
        invariant
            i <= s@.len(),
            r.deep_view().push(cur@) == split_on(s@.take(i as int), sep),
        decreases s@.len() - i,
    {
        let b = s[i];
        proof {
            assert(s@.take(i as int + 1).drop_last() =~= s@.take(i as int));
            lemma_split_on_nonempty(s@.take(i as int), sep);
        }
        if b == sep {
            r.push(cur);
            cur = Vec::new();
            proof {
                assert(r.deep_view().push(cur@) =~~= split_on(s@.take(i as int + 1), sep));
            }
        } else {
            cur.push(b);
            proof {
                assert(r.deep_view().push(cur@) =~~= split_on(s@.take(i as int + 1), sep));
            }
        }
        i += 1;
    }
    r.push(cur);
    proof {
        assert(s@.take(s@.len() as int) =~= s@);
        assert(r.deep_view() =~~= split_on(s@, sep));
    }
    r
}

/// Appends all bytes of `src` to `dst`.
pub fn append_bytes(dst: &mut Vec<u8>, src: &Vec<u8>)
    ensures
        final(dst)@ == old(dst)@ + src@,
{
    let ghost base = dst@;
    proof {
        assert(dst@ =~= base + src@.take(0));
    }
    let mut i: usize = 0;
    while i < src.len()
        invariant
            i <= src@.len(),
            dst@ == base + src@.take(i as int),
        decreases src@.len() - i,
    {
        dst.push(src[i]);
        proof {
            assert(dst@ =~= base + src@.take(i as int + 1));
        }
        i += 1;
    }
    proof {
        assert(base + src@.take(src@.len() as int) =~= base + src@);
    }
}

/// Copies the bytes of `v` from `from` up to `to`.
pub fn copy_range(v: &Vec<u8>, from: usize, to: usize) -> (r: Vec<u8>)
    requires
        from <= to <= v@.len(),
    ensures
        r@ == v@.subrange(from as int, to as int),
{
    let mut r: Vec<u8> = Vec::new();
    let mut i: usize = from;
    while i < to
        invariant
            from <= i <= to,
            to <= v@.len(),
            r@ == v@.subrange(from as int, i as int),
        decreases to - i,
    {
        r.push(v[i]);
        proof {
            assert(r@ =~= v@.subrange(from as int, i as int + 1));
        }
        i += 1;
    }
    r
}

/// The deep view of a vector of byte vectors, read off entry by entry.
pub proof fn lemma_deep_view_index(v: &Vec<Vec<u8>>, j: int)
    requires
        0 <= j < v@.len(),
    ensures
        v.deep_view().len() == v@.len(),
        v.deep_view()[j] == v@[j]@,
{
    assert(v@[j].deep_view() =~= v@[j]@);
}

/// Pushing one byte vector pushes its view onto the deep view.
pub proof fn lemma_deep_view_push(w: Vec<Vec<u8>>, v: Vec<Vec<u8>>, x: Vec<u8>)
    requires
        v@ == w@.push(x),
    ensures
        v.deep_view() == w.deep_view().push(x@),
{
    assert forall|j: int| 0 <= j < v@.len() implies v.deep_view()[j] == w.deep_view().push(x@)[j] by {
        assert(v@[j].deep_view() =~= v@[j]@);
        if j < w@.len() {
            assert(v@[j] == w@[j]);
            assert(w.deep_view()[j] == w@[j].deep_view());
        }
    }
    assert(v.deep_view() =~~= w.deep_view().push(x@));
}

/// `l` with one trailing carriage return removed, if it has one.
pub open spec fn strip_cr(l: Seq<u8>) -> Seq<u8> {
    if l.len() > 0 && l.last() == CARRIAGE_RETURN {
        l.drop_last()
    } else {
        l
    }
}

/// Every line of `ls` with its trailing carriage return removed.
pub open spec fn strip_all_cr(ls: Seq<Seq<u8>>) -> Seq<Seq<u8>> {
    ls.map_values(|l: Seq<u8>| strip_cr(l))
}

/// The lines of `s`, as `str::lines` yields them: split at each line
/// feed, a trailing carriage return removed from each line, and a
/// final line feed closing the last line rather than opening an empty
/// one.
pub open spec fn lines_of(s: Seq<u8>) -> Seq<Seq<u8>> {
    if s.len() == 0 {
        Seq::<Seq<u8>>::empty()
    } else if s.last() == LINE_FEED {
        strip_all_cr(split_on(s, LINE_FEED).drop_last())
    } else {
        strip_all_cr(split_on(s, LINE_FEED))
    }
}

/// Splits `s` into its lines, matching `lines_of`.
pub fn split_lines(s: &Vec<u8>) -> (r: Vec<Vec<u8>>)
    ensures
        r.deep_view() == lines_of(s@),
{
    let mut r: Vec<Vec<u8>> = Vec::new();
    if s.len() == 0 {
        proof {
            assert(r.deep_view() =~~= lines_of(s@));
        }
        return r;
    }
    let mut parts = split_vec(s, LINE_FEED);
    if s[s.len() - 1] == LINE_FEED {
        proof {
            lemma_split_on_nonempty(s@.drop_last(), LINE_FEED);
            assert(s@.drop_last() =~= s@.take(s@.len() - 1));
        }
        parts.pop();
    }
    let ghost base: Seq<Seq<u8>> = parts.deep_view();
    let mut i: usize = 0;
    while i < parts.len()
        invariant
            i <= parts@.len(),
            parts@.len() == base.len(),
            r@.len() == i,
            parts.deep_view() == base,
            r.deep_view() == strip_all_cr(base.take(i as int)),
        decreases parts@.len() - i,
    {
        let line = &parts[i];
        let n = line.len();
        let mut stripped = line.clone();
        proof {
            assert(stripped@ =~= base[i as int]);
        }
        if n > 0 && stripped[n - 1] == CARRIAGE_RETURN {
            stripped.pop();
        }
        proof {
            assert(stripped@ == strip_cr(base[i as int]));
        }
        let ghost prev = r.deep_view();
        let ghost prev_v = r@;
        r.push(stripped);
        proof {
            assert forall|j: int| 0 <= j < i + 1 implies r.deep_view()[j] == strip_all_cr(
                base.take(i as int + 1),
            )[j] by {
                assert(r.deep_view()[j] == r@[j].deep_view());
                assert(r@[j].deep_view() =~= r@[j]@);
                if j < i {
                    assert(r@[j] == prev_v[j]);
                    assert(prev[j] == prev_v[j].deep_view());
                    assert(prev[j] == strip_all_cr(base.take(i as int))[j]);
                    assert(strip_all_cr(base.take(i as int))[j] == strip_cr(base[j]));
                } else {
                    assert(r@[j]@ == stripped@);
                }
                assert(strip_all_cr(base.take(i as int + 1))[j] == strip_cr(base[j]));
            }
            assert(strip_all_cr(base.take(i as int + 1)) =~~= r.deep_view());
        }
        i += 1;
    }
    proof {
        assert(base.take(base.len() as int) =~= base);
        assert(r.deep_view() =~~= lines_of(s@));
    }
    r
}

} // verus!

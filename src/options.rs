use vstd::prelude::*;

use vstd::string::StrSliceExecFns;

verus! {

pub open spec fn is_digit(c: char) -> bool {
    '0' <= c <= '9'
}

pub open spec fn digit_value(c: char) -> int {
    (c as u32) - ('0' as u32)
}

/// The number written by the decimal digits `s`.
pub open spec fn digits_value(s: Seq<char>) -> int
    decreases s.len(),
{
    if s.len() == 0 {
        0
    } else {
        digits_value(s.drop_last()) * 10 + digit_value(s.last())
    }
}

/// `s` without one leading `+`, if it has one.
pub open spec fn unsigned_part(s: Seq<char>) -> Seq<char> {
    if s.len() > 0 && s[0] == '+' {
        s.drop_first()
    } else {
        s
    }
}

/// `s` is the decimal text of a `u32`: an optional `+`, then one or more
/// digits whose value fits in 32 bits.
pub open spec fn is_u32_text(s: Seq<char>) -> bool {
    let d = unsigned_part(s);
    &&& d.len() > 0
    &&& forall|i: int| 0 <= i < d.len() ==> is_digit(#[trigger] d[i])
    &&& digits_value(d) <= u32::MAX
}

pub open spec fn capped(v: int) -> int {
    if v > u32::MAX {
        u32::MAX + 1
    } else {
        v
    }
}

proof fn lemma_digits_nonneg(s: Seq<char>)
    requires
        forall|i: int| 0 <= i < s.len() ==> is_digit(#[trigger] s[i]),
    ensures
        digits_value(s) >= 0,
    decreases s.len(),
{
    if s.len() > 0 {
        assert forall|i: int| 0 <= i < s.drop_last().len() implies is_digit(
            #[trigger] s.drop_last()[i],
        ) by {
            assert(s.drop_last()[i] == s[i]);
        }
        lemma_digits_nonneg(s.drop_last());
    }
}

/// Reads the decimal text of a `u32`.
pub fn parse_u32(text: &str) -> (r: Option<u32>)
    ensures
        r is Some <==> is_u32_text(text@),
        r matches Some(v) ==> v == digits_value(unsigned_part(text@)),
{
    let len = text.unicode_len();
    let mut start: usize = 0;
    if len > 0 && text.get_char(0) == '+' {
        start = 1;
    }
    let ghost d = unsigned_part(text@);
    assert(d =~= text@.subrange(start as int, len as int));
    if start == len {
        return None;
    }
    let mut acc: u64 = 0;
    let mut i: usize = start;
    while i < len
        invariant
            start <= i <= len,
            len == text@.len(),
            d == text@.subrange(start as int, len as int),
            d == unsigned_part(text@),
            forall|k: int| 0 <= k < i - start ==> is_digit(#[trigger] d[k]),
            acc == capped(digits_value(d.take(i - start))),
            digits_value(d.take(i - start)) >= 0,
        decreases len - i,
    {
        let c = text.get_char(i);
        if c < '0' || c > '9' {
            assert(!is_digit(d[i - start]));
            return None;
        }
        let ghost pre = d.take(i - start);
        let ghost next = d.take(i - start + 1);
        assert(next.drop_last() =~= pre);
        assert(next.last() == c);
        let dv: u64 = (c as u32 - '0' as u32) as u64;
        acc = acc * 10 + dv;
        if acc > 0xFFFF_FFFF {
            acc = 0x1_0000_0000;
        }
        i = i + 1;
    }
    assert(d.take(len - start) =~= d);
    if acc > 0xFFFF_FFFF {
        None
    } else {
        Some(acc as u32)
    }
}

/// Accepts the value of the minimum-width option when it is the decimal text of a `u32`.
pub fn validate_min_width(val: String) -> (r: Result<(), String>)
    ensures
        r is Ok <==> is_u32_text(val@),
{
    match parse_u32(val.as_str()) {
        Some(_) => Ok(()),
        None => Err("the minimum width must be an integer in the range 0-4294967295".to_owned()),
    }
}

/// Accepts the value of the iterations option when it is the decimal text of a `u32`.
pub fn validate_iterations(val: String) -> (r: Result<(), String>)
    ensures
        r is Ok <==> is_u32_text(val@),
{
    match parse_u32(val.as_str()) {
        Some(_) => Ok(()),
        None => Err(
            "the number of iterations must be an integer in the range 0-4294967295".to_owned(),
        ),
    }
}

} // verus!

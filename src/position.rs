use vstd::prelude::*;

use crate::text::enclose;

verus! {

pub open spec fn is_digit(c: char) -> bool {
    '0' <= c && c <= '9'
}

/// Value of a string of decimal digits.
pub open spec fn digits_value(d: Seq<char>) -> int
    decreases d.len(),
{
    if d.len() == 0 {
        0
    } else {
        digits_value(d.drop_last()) * 10 + (d.last() as int - '0' as int)
    }
}

/// The digits of a number literal: `s` without one leading `+`.
pub open spec fn unsigned_digits(s: Seq<char>) -> Seq<char> {
    if s.len() > 0 && s[0] == '+' {
        s.drop_first()
    } else {
        s
    }
}

/// The `u8` that `s` writes in decimal (an optional `+`, then at least one
/// digit), if it is one.
pub open spec fn u8_value(s: Seq<char>) -> Option<u8> {
    let d = unsigned_digits(s);
    if d.len() > 0 && (forall|i: int| 0 <= i < d.len() ==> is_digit(#[trigger] d[i])) && digits_value(d)
        <= 255 {
        Some(digits_value(d) as u8)
    } else {
        None
    }
}

proof fn lemma_digits_value_grows(d: Seq<char>, k: int)
    requires
        0 <= k <= d.len(),
        forall|i: int| 0 <= i < d.len() ==> is_digit(#[trigger] d[i]),
    ensures
        digits_value(d.subrange(0, k)) <= digits_value(d),
        0 <= digits_value(d),
    decreases d.len(),
{
    if d.len() > 0 {
        lemma_digits_value_grows(d.drop_last(), if k == d.len() { k - 1 } else { k });
        if k == d.len() {
            assert(d.subrange(0, k) =~= d);
        } else {
            assert(d.drop_last().subrange(0, k) =~= d.subrange(0, k));
        }
    } else {
        assert(d.subrange(0, k) =~= d);
    }
}

fn parse_u8(s: &str) -> (r: Option<u8>)
    ensures
        r == u8_value(s@),
{
    let ghost d = unsigned_digits(s@);
    let n = s.unicode_len();
    let mut i: usize = 0;
    if n > 0 && s.get_char(0) == '+' {
        i = 1;
    }
    let start = i;
    assert(d =~= s@.subrange(start as int, n as int));
    if i == n {
        return None;
    }
    let mut v: u32 = 0;
    while i < n
        invariant
            start <= i <= n,
            n == s@.len(),
            start < n,
            d == s@.subrange(start as int, n as int),
            d == unsigned_digits(s@),
            forall|j: int| 0 <= j < i - start ==> is_digit(#[trigger] d[j]),
            v == digits_value(d.subrange(0, i - start)),
            v <= 255,
        decreases n - i,
    {
        let c = s.get_char(i);
        assert(c == d[i - start]);
        if !('0' <= c && c <= '9') {
            return None;
        }
        let ghost prefix = d.subrange(0, i + 1 - start);
        assert(prefix.drop_last() =~= d.subrange(0, i - start));
        v = v * 10 + (c as u32 - '0' as u32);
        assert(v == digits_value(prefix));
        i = i + 1;
        if v > 255 {
            proof {
                if forall|j: int| 0 <= j < d.len() ==> is_digit(#[trigger] d[j]) {
                    lemma_digits_value_grows(d, i - start);
                }
            }
            return None;
        }
    }
    assert(d.subrange(0, n - start) =~= d);
    Some(v as u8)
}

/// Reads a `u8` written in decimal. Where `s` is no such number, the error
/// is the message `"<s>? <err_mes>"`.
pub fn get_str_to_u8(s: &str, err_mes: &str) -> (r: Result<u8, String>)
    ensures
        u8_value(s@) matches Some(v) ==> r == Ok::<u8, String>(v),
        u8_value(s@) is None ==> (r matches Err(m) && m@ == s@ + "? "@ + err_mes@),
{
    match parse_u8(s) {
        Some(v) => Ok(v),
        None => Err(enclose(s, "? ", err_mes)),
    }
}

/// The comma-separated fields of `s`, in order; there is always at least one.
pub open spec fn comma_fields(s: Seq<char>) -> Seq<Seq<char>>
    decreases s.len(),
{
    if s.len() == 0 {
        seq![seq![]]
    } else {
        let f = comma_fields(s.drop_last());
        if s.last() == ',' {
            f.push(seq![])
        } else {
            f.update(f.len() - 1, f.last().push(s.last()))
        }
    }
}

proof fn lemma_comma_fields_nonempty(s: Seq<char>)
    ensures
        comma_fields(s).len() >= 1,
    decreases s.len(),
{
    if s.len() > 0 {
        lemma_comma_fields_nonempty(s.drop_last());
    }
}

/// Splits `s` at every comma.
fn split_commas<'a>(s: &'a str) -> (r: Vec<&'a str>)
    ensures
        r@.len() == comma_fields(s@).len(),
        forall|j: int| 0 <= j < r@.len() ==> (#[trigger] r@[j])@ == comma_fields(s@)[j],
{
    let n = s.unicode_len();
    let mut fields: Vec<&'a str> = Vec::new();
    let mut start: usize = 0;
    let mut i: usize = 0;
    assert(s@.subrange(0, 0) =~= Seq::<char>::empty());
    while i < n
        invariant
            start <= i <= n,
            n == s@.len(),
            comma_fields(s@.subrange(0, i as int)).len() == fields@.len() + 1,
            forall|j: int|
                0 <= j < fields@.len() ==> (#[trigger] fields@[j])@ == comma_fields(s@.subrange(0, i as int))[j],
            comma_fields(s@.subrange(0, i as int)).last() == s@.subrange(start as int, i as int),
        decreases n - i,
    {
        let c = s.get_char(i);
        let ghost pre = s@.subrange(0, i as int);
        let ghost next = s@.subrange(0, i + 1);
        assert(next.drop_last() =~= pre);
        assert(next.last() == c);
        proof {
            lemma_comma_fields_nonempty(pre);
        }
        if c == ',' {
            fields.push(s.substring_char(start, i));
            start = i + 1;
            assert(s@.subrange(start as int, i + 1) =~= Seq::<char>::empty());
        } else {
            assert(s@.subrange(start as int, i + 1) =~= s@.subrange(start as int, i as int).push(c));
        }
        i = i + 1;
    }
    assert(s@.subrange(0, n as int) =~= s@);
    fields.push(s.substring_char(start, n));
    fields
}

/// The position that `s` writes as `TRACK,SIDE,SECTOR` (three decimal `u8`,
/// the sector counted from 1; further fields are ignored), with the sector
/// counted from 0.
pub open spec fn position_of(s: Seq<char>) -> Option<(u8, u8, u8)> {
    let f = comma_fields(s);
    if f.len() >= 3 && u8_value(f[0]) is Some && u8_value(f[1]) is Some && u8_value(f[2]) is Some
        && u8_value(f[2])->0 >= 1 {
        Some((u8_value(f[0])->0, u8_value(f[1])->0, (u8_value(f[2])->0 - 1) as u8))
    } else {
        None
    }
}

/// A sector position given by track, side and sector, all counted from 0.
#[derive(Clone, Copy, Debug, PartialEq, Eq, Structural)]
pub struct Position {
    pub track: u8,
    pub side: u8,
    pub sector: u8,
}

impl Position {
    /// Reads `TRACK,SIDE,SECTOR`, the sector counted from 1. The error is a
    /// message naming the first field that is not a number in range.
    pub fn parse(arg: &str) -> (r: Result<Position, String>)
        ensures
            position_of(arg@) matches Some((t, s, n)) ==> r == Ok::<Position, String>(
                Position { track: t, side: s, sector: n },
            ),
            position_of(arg@) is None ==> r is Err,
    {
        let fields = split_commas(arg);
        if fields.len() < 3 {
            return Err(enclose(arg, "? ", "Not TRACK,SIDE,SECTOR"));
        }
        let track = match get_str_to_u8(fields[0], "Not Track Number") {
            Ok(v) => v,
            Err(m) => return Err(m),
        };
        let side = match get_str_to_u8(fields[1], "Not Side Number") {
            Ok(v) => v,
            Err(m) => return Err(m),
        };
        let sector = match get_str_to_u8(fields[2], "Not Sector Number") {
            Ok(v) => v,
            Err(m) => return Err(m),
        };
        if sector == 0 {
            return Err(enclose(fields[2], "? ", "Not Sector Number"));
        }
        Ok(Position { track, side, sector: sector - 1 })
    }
}

} // verus!

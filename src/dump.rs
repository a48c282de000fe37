use vstd::prelude::*;

verus! {

/// The lower-case character for the hexadecimal digit `d`.
pub open spec fn hex_char(d: int) -> char {
    "0123456789abcdef"@[d]
}

/// `n` in lower-case hexadecimal, padded with zeros to at least `width` digits.
pub open spec fn hex_digits(n: nat, width: nat) -> Seq<char>
    decreases n + width,
{
    if n < 16 && width <= 1 {
        seq![hex_char(n as int)]
    } else {
        hex_digits(n / 16, if width > 0 {
            (width - 1) as nat
        } else {
            0
        }) + seq![hex_char((n % 16) as int)]
    }
}

/// Each byte as two hexadecimal digits and a space.
pub open spec fn hex_bytes_text(b: Seq<u8>) -> Seq<char>
    decreases b.len(),
{
    if b.len() == 0 {
        seq![]
    } else {
        hex_bytes_text(b.drop_last()) + hex_digits(b.last() as nat, 2) + seq![' ']
    }
}

fn hex_digit(d: u64) -> (r: &'static str)
    requires
        d < 16,
    ensures
        r@ == seq![hex_char(d as int)],
{
    proof {
        reveal_strlit("0123456789abcdef");
    }
    let r = "0123456789abcdef".substring_char(d as usize, d as usize + 1);
    assert(r@ =~= seq![hex_char(d as int)]);
    r
}

/// `n` in lower-case hexadecimal, padded with zeros to at least `width` digits.
pub fn hex(n: u64, width: u64) -> (r: String)
    ensures
        r@ == hex_digits(n as nat, width as nat),
    decreases n + width,
{
    if n < 16 && width <= 1 {
        String::from_str(hex_digit(n))
    } else {
        let w = if width > 0 {
            width - 1
        } else {
            0
        };
        let mut s = hex(n / 16, w);
        s.append(hex_digit(n % 16));
        s
    }
}

/// The offset column of a dump line: at least five hexadecimal digits.
pub fn hex_offset(offset: u64) -> (r: String)
    ensures
        r@ == hex_digits(offset as nat, 5),
{
    hex(offset, 5)
}

/// The byte column of a dump line for the first `length` bytes of `buf`.
pub fn hex_bytes(buf: &[u8], length: usize) -> (r: String)
    requires
        length <= buf@.len(),
    ensures
        r@ == hex_bytes_text(buf@.subrange(0, length as int)),
{
    let mut s = String::new();
    let mut i: usize = 0;
    assert(buf@.subrange(0, 0) =~= Seq::<u8>::empty());
    while i < length
        invariant
            i <= length,
            length <= buf@.len(),
            s@ == hex_bytes_text(buf@.subrange(0, i as int)),
        decreases length - i,
    {
        let ghost next = buf@.subrange(0, i + 1);
        assert(next.drop_last() =~= buf@.subrange(0, i as int));
        let h = hex(buf[i] as u64, 2);
        s.append(h.as_str());
        s.append(" ");
        proof {
            reveal_strlit(" ");
        }
        assert(s@ =~= hex_bytes_text(next));
        i = i + 1;
    }
    s
}

} // verus!

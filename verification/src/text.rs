//! Canonical text rendering of a block: `"a.b.c.d/p"`, always showing the
//! block's base network address.

use vstd::prelude::*;
use vstd::string::StringExecFns;
use crate::block::NetworkBlock;

verus! {

/// The character for one decimal digit.
pub open spec fn digit_char(d: int) -> char {
    if d == 0 {
        '0'
    } else if d == 1 {
        '1'
    } else if d == 2 {
        '2'
    } else if d == 3 {
        '3'
    } else if d == 4 {
        '4'
    } else if d == 5 {
        '5'
    } else if d == 6 {
        '6'
    } else if d == 7 {
        '7'
    } else if d == 8 {
        '8'
    } else {
        '9'
    }
}

/// Decimal rendering of a byte-sized value, without leading zeros.
pub open spec fn dec_spec(n: int) -> Seq<char>
    recommends
        0 <= n < 256,
{
    if n >= 100 {
        seq![digit_char(n / 100), digit_char((n / 10) % 10), digit_char(n % 10)]
    } else if n >= 10 {
        seq![digit_char(n / 10), digit_char(n % 10)]
    } else {
        seq![digit_char(n)]
    }
}

/// The canonical `"a.b.c.d/p"` text of a block.
pub open spec fn block_text(b: NetworkBlock) -> Seq<char> {
    dec_spec(((b.network >> 24u32) & 0xffu32) as int) + seq!['.'] + dec_spec(
        ((b.network >> 16u32) & 0xffu32) as int,
    ) + seq!['.'] + dec_spec(((b.network >> 8u32) & 0xffu32) as int) + seq!['.'] + dec_spec(
        (b.network & 0xffu32) as int,
    ) + seq!['/'] + dec_spec(b.prefix_len as int)
}

/// One decimal digit as text.
fn digit_str(d: u8) -> (r: &'static str)
    requires
        d < 10,
    ensures
        r@ == seq![digit_char(d as int)],
{
    proof {
        reveal_strlit("0");
        reveal_strlit("1");
        reveal_strlit("2");
        reveal_strlit("3");
        reveal_strlit("4");
        reveal_strlit("5");
        reveal_strlit("6");
        reveal_strlit("7");
        reveal_strlit("8");
        reveal_strlit("9");
    }
    let r = if d == 0 {
        "0"
    } else if d == 1 {
        "1"
    } else if d == 2 {
        "2"
    } else if d == 3 {
        "3"
    } else if d == 4 {
        "4"
    } else if d == 5 {
        "5"
    } else if d == 6 {
        "6"
    } else if d == 7 {
        "7"
    } else if d == 8 {
        "8"
    } else {
        "9"
    };
    proof {
        assert(r@ =~= seq![digit_char(d as int)]);
    }
    r
}

/// Appends the decimal rendering of `n` to `out`.
fn append_dec(out: &mut String, n: u8)
    ensures
        final(out)@ == old(out)@ + dec_spec(n as int),
{
    if n >= 100 {
        out.append(digit_str(n / 100));
        out.append(digit_str((n / 10) % 10));
        out.append(digit_str(n % 10));
    } else if n >= 10 {
        out.append(digit_str(n / 10));
        out.append(digit_str(n % 10));
    } else {
        out.append(digit_str(n));
    }
    proof {
        assert(out@ =~= old(out)@ + dec_spec(n as int));
    }
}

impl NetworkBlock {
    /// Renders the block as `"a.b.c.d/p"`, dotted decimal octets of the
    /// network address followed by the prefix length.
    pub fn to_string(&self) -> (r: String)
        ensures
            r@ == block_text(*self),
    {
        proof {
            reveal_strlit(".");
            reveal_strlit("/");
            let n = self.network;
            assert(((n >> 24u32) & 0xffu32) < 256 && ((n >> 16u32) & 0xffu32) < 256 && ((n
                >> 8u32) & 0xffu32) < 256 && (n & 0xffu32) < 256) by (bit_vector);
        }
        let mut out = String::new();
        append_dec(&mut out, ((self.network >> 24u32) & 0xffu32) as u8);
        out.append(".");
        append_dec(&mut out, ((self.network >> 16u32) & 0xffu32) as u8);
        out.append(".");
        append_dec(&mut out, ((self.network >> 8u32) & 0xffu32) as u8);
        out.append(".");
        append_dec(&mut out, (self.network & 0xffu32) as u8);
        out.append("/");
        append_dec(&mut out, self.prefix_len);
        proof {
            assert(out@ =~= block_text(*self));
        }
        out
    }
}

} // verus!

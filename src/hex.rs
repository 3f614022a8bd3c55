use vstd::prelude::*;

verus! {

/// The lower-case hexadecimal digit for a value below sixteen.
pub open spec fn hex_char(d: u8) -> char {
    seq!['0', '1', '2', '3', '4', '5', '6', '7', '8', '9', 'a', 'b', 'c', 'd', 'e', 'f'][d as int]
}

/// Two lower-case hexadecimal digits for one byte, high nibble first.
pub open spec fn hex_byte(b: u8) -> Seq<char> {
    seq![hex_char(b / 16), hex_char(b % 16)]
}

/// The canonical text of an address: each byte as two hex digits, separated by colons.
pub open spec fn hex_colon(a: Seq<u8>) -> Seq<char>
    decreases a.len(),
{
    if a.len() == 0 {
        Seq::empty()
    } else if a.len() == 1 {
        hex_byte(a[0])
    } else {
        hex_colon(a.drop_last()) + seq![':'] + hex_byte(a.last())
    }
}

fn push_hex_digit(s: &mut String, d: u8)
    requires
        d < 16,
    ensures
        final(s)@ == old(s)@ + seq![hex_char(d)],
{
    proof {
        reveal_strlit("0123456789abcdef");
    }
    let digit: &str = "0123456789abcdef".substring_ascii(d as usize, d as usize + 1);
    assert(digit@ =~= seq![hex_char(d)]);
    s.append(digit);
}

/// Renders `input` as lower-case hex byte pairs joined by `:` (`aa:bb:cc`).
pub fn format_byte_array(input: &Vec<u8>) -> (r: String)
    ensures
        r@ == hex_colon(input@),
{
    let mut s: String = String::new();
    let mut i: usize = 0;
    while i < input.len()
        invariant
            i <= input.len(),
            s@ == hex_colon(input@.subrange(0, i as int)),
        decreases input.len() - i,
    {
        let ghost before = s@;
        if i > 0 {
            proof {
                reveal_strlit(":");
            }
            s.append(":");
        }
        let b: u8 = input[i];
        push_hex_digit(&mut s, b / 16);
        push_hex_digit(&mut s, b % 16);
        let ghost next = input@.subrange(0, i + 1);
        assert(next.drop_last() =~= input@.subrange(0, i as int));
        assert(next.last() == b);
        if i == 0 {
            assert(s@ =~= hex_colon(next));
        } else {
            assert(s@ =~= before + seq![':'] + hex_byte(b));
            assert(s@ =~= hex_colon(next));
        }
        i = i + 1;
    }
    assert(input@.subrange(0, i as int) =~= input@);
    s
}

} // verus!

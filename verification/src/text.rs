//! Small text-building helpers shared by error reporting.

use vstd::prelude::*;

verus! {

/// The character for one decimal digit value.
pub open spec fn digit_char(d: nat) -> char {
    if d == 0 {
        '0'
    } else if d == 1 {
        '1'
    } else if d == 2 {
        '2'
    } else if d == 3 {
        '3'
    } else if d == 4 {
        '4'
    } else if d == 5 {
        '5'
    } else if d == 6 {
        '6'
    } else if d == 7 {
        '7'
    } else if d == 8 {
        '8'
    } else {
        '9'
    }
}

/// The decimal rendering of a number, most significant digit first.
pub open spec fn dec_str(n: nat) -> Seq<char>
    decreases n,
{
    if n < 10 {
        seq![digit_char(n)]
    } else {
        dec_str(n / 10) + seq![digit_char(n % 10)]
    }
}

/// Relies on `String::push`: appends the given character to the end of the
/// string.
#[verifier::external_body]
pub(crate) fn push_char(s: &mut String, c: char)
    ensures
        final(s)@ == old(s)@ + seq![c],
{
    s.push(c);
}

fn digit_char_ex(d: usize) -> (c: char)
    requires
        d < 10,
    ensures
        c == digit_char(d as nat),
{
    if d == 0 {
        '0'
    } else if d == 1 {
        '1'
    } else if d == 2 {
        '2'
    } else if d == 3 {
        '3'
    } else if d == 4 {
        '4'
    } else if d == 5 {
        '5'
    } else if d == 6 {
        '6'
    } else if d == 7 {
        '7'
    } else if d == 8 {
        '8'
    } else {
        '9'
    }
}

/// Renders a number in decimal.
#[verifier::loop_isolation(false)]
pub fn usize_to_string(n: usize) -> (r: String)
    ensures
        r@ == dec_str(n as nat),
{
    let mut digits: Vec<char> = Vec::new();
    let mut cur = n;
    if cur == 0 {
        let mut s = String::new();
        push_char(&mut s, '0');
        proof {
            assert(s@ =~= dec_str(0));
        }
        return s;
    }
    while cur > 0
        invariant
            dec_str(n as nat) == (if cur > 0 {
                dec_str(cur as nat)
            } else {
                Seq::<char>::empty()
            }) + Seq::new(digits@.len(), |i: int| digits@[digits@.len() - 1 - i]),
        decreases cur,
    {
        let ghost pre = Seq::new(digits@.len(), |i: int| digits@[digits@.len() - 1 - i]);
        let d = cur % 10;
        let c = digit_char_ex(d);
        digits.push(c);
        cur = cur / 10;
        proof {
            let now = Seq::new(digits@.len(), |i: int| digits@[digits@.len() - 1 - i]);
            assert(now =~= seq![c] + pre);
        }
    }
    let ghost rendered = Seq::new(digits@.len(), |i: int| digits@[digits@.len() - 1 - i]);
    let mut s = String::new();
    let mut i: usize = 0;
    proof {
        assert(dec_str(n as nat) == rendered);
    }
    while i < digits.len()
        invariant
            0 <= i <= digits@.len(),
            s@ =~= rendered.take(i as int),
        decreases digits@.len() - i,
    {
        let c = digits[digits.len() - 1 - i];
        push_char(&mut s, c);
        i = i + 1;
        proof {
            assert(s@ =~= rendered.take(i as int));
        }
    }
    proof {
        assert(rendered.take(digits@.len() as int) =~= rendered);
    }
    s
}

} // verus!

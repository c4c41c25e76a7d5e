//! Text for messages: decimal numbers and lists of them.
use vstd::prelude::*;

verus! {

/// The character of a decimal digit.
pub open spec fn digit_char(d: nat) -> char {
    (48 + d) as char
}

/// The decimal digits of `n`, most significant first, without leading zeros.
pub open spec fn decimal(n: nat) -> Seq<char>
    decreases n,
{
    if n < 10 {
        seq![digit_char(n)]
    } else {
        decimal(n / 10).push(digit_char(n % 10))
    }
}

/// An integer in decimal, with a minus sign when it is negative.
pub open spec fn signed_decimal(x: int) -> Seq<char> {
    if x < 0 {
        seq!['-'] + decimal((-x) as nat)
    } else {
        decimal(x as nat)
    }
}

/// Integers in decimal, separated by a comma and a space.
pub open spec fn joined(xs: Seq<int>) -> Seq<char>
    decreases xs.len(),
{
    if xs.len() == 0 {
        Seq::empty()
    } else if xs.len() == 1 {
        signed_decimal(xs[0])
    } else {
        joined(xs.drop_last()) + seq![',', ' '] + signed_decimal(xs.last())
    }
}

/// Integers as a bracketed list: `[1, -2, 3]`.
pub open spec fn list_text(xs: Seq<int>) -> Seq<char> {
    seq!['['] + joined(xs) + seq![']']
}

/// Appends `t` to `s` by `String::push_str`; the contract claims that the characters of `s`
/// are followed by those of `t`.
#[verifier::external_body]
pub(crate) fn push_text(s: &mut String, t: &str)
    ensures
        final(s)@ == old(s)@ + t@,
{
    s.push_str(t);
}

/// Appends the character `c` to `s` by `String::push`; the contract claims that `c` follows
/// the characters of `s`.
#[verifier::external_body]
fn push_char(s: &mut String, c: char)
    ensures
        final(s)@ == old(s)@.push(c),
{
    s.push(c);
}

/// Appends the decimal digits of `n` to `s`.
pub(crate) fn push_decimal(s: &mut String, n: usize)
    ensures
        final(s)@ == old(s)@ + decimal(n as nat),
    decreases n,
{
    if n >= 10 {
        push_decimal(s, n / 10);
    }
    let d = (n % 10) as u8;
    let c = (48u8 + d) as char;
    assert(c == digit_char((n % 10) as nat));
    push_char(s, c);
    proof {
        if n >= 10 {
            assert(decimal(n as nat) == decimal((n / 10) as nat).push(digit_char((n % 10) as nat)));
        }
    }
}

/// Appends `x` in decimal, with a minus sign when it is negative.
pub(crate) fn push_signed(s: &mut String, x: isize)
    ensures
        final(s)@ == old(s)@ + signed_decimal(x as int),
{
    if x < 0 {
        push_char(s, '-');
        let m: usize = if x == isize::MIN {
            (isize::MAX as usize) + 1
        } else {
            (-x) as usize
        };
        push_decimal(s, m);
    } else {
        push_decimal(s, x as usize);
    }
}

/// The signed coordinates as integers.
pub open spec fn ints_of_isize(xs: Seq<isize>) -> Seq<int> {
    Seq::new(xs.len(), |i: int| xs[i] as int)
}

/// The unsigned numbers as integers.
pub open spec fn ints_of_usize(xs: Seq<usize>) -> Seq<int> {
    Seq::new(xs.len(), |i: int| xs[i] as int)
}

/// Appends the bracketed list of `xs`.
pub(crate) fn push_isize_list(s: &mut String, xs: &[isize])
    ensures
        final(s)@ == old(s)@ + list_text(ints_of_isize(xs@)),
{
    let ghost start = s@;
    push_char(s, '[');
    let mut i: usize = 0;
    while i < xs.len()
        invariant
            i <= xs@.len(),
            s@ == start + seq!['['] + joined(ints_of_isize(xs@.subrange(0, i as int))),
        decreases xs@.len() - i,
    {
        let ghost before = s@;
        if i > 0 {
            push_text(s, ", ");
            proof {
                reveal_strlit(", ");
            }
        }
        push_signed(s, xs[i]);
        proof {
            let a = ints_of_isize(xs@.subrange(0, i as int));
            let b = ints_of_isize(xs@.subrange(0, i + 1));
            assert(b.drop_last() =~= a);
            assert(b.last() == xs@[i as int] as int);
            if i == 0 {
                assert(a =~= Seq::<int>::empty());
                assert(joined(a) =~= Seq::<char>::empty());
                assert(b.len() == 1);
            }
            assert(s@ =~= start + seq!['['] + joined(b));
        }
        i = i + 1;
    }
    assert(xs@.subrange(0, xs@.len() as int) =~= xs@);
    push_char(s, ']');
    assert(s@ =~= start + list_text(ints_of_isize(xs@)));
}

/// Appends the bracketed list of `xs`.
pub(crate) fn push_usize_list(s: &mut String, xs: &[usize])
    ensures
        final(s)@ == old(s)@ + list_text(ints_of_usize(xs@)),
{
    let ghost start = s@;
    push_char(s, '[');
    let mut i: usize = 0;
    while i < xs.len()
        invariant
            i <= xs@.len(),
            s@ == start + seq!['['] + joined(ints_of_usize(xs@.subrange(0, i as int))),
        decreases xs@.len() - i,
    {
        if i > 0 {
            push_text(s, ", ");
            proof {
                reveal_strlit(", ");
            }
        }
        push_decimal(s, xs[i]);
        proof {
            let a = ints_of_usize(xs@.subrange(0, i as int));
            let b = ints_of_usize(xs@.subrange(0, i + 1));
            assert(b.drop_last() =~= a);
            assert(b.last() == xs@[i as int] as int);
            assert(signed_decimal(b.last()) == decimal(xs@[i as int] as nat));
            if i == 0 {
                assert(a =~= Seq::<int>::empty());
                assert(joined(a) =~= Seq::<char>::empty());
                assert(b.len() == 1);
            }
            assert(s@ =~= start + seq!['['] + joined(b));
        }
        i = i + 1;
    }
    assert(xs@.subrange(0, xs@.len() as int) =~= xs@);
    push_char(s, ']');
    assert(s@ =~= start + list_text(ints_of_usize(xs@)));
}

} // verus!

use vstd::prelude::*;

verus! {

/// ASCII digits of `n` in base ten, without leading zeros.
pub open spec fn decimal(n: nat) -> Seq<u8>
    decreases n,
{
    if n < 10 {
        seq![(48 + n) as u8]
    } else {
        decimal(n / 10).push((48 + n % 10) as u8)
    }
}

/// ASCII text of the integer `i` in base ten, with a leading `-` when negative.
pub open spec fn signed_decimal(i: int) -> Seq<u8> {
    if i < 0 {
        seq![45u8] + decimal((-i) as nat)
    } else {
        decimal(i as nat)
    }
}

/// Appends the decimal digits of `n` to `out`.
pub fn push_decimal(out: &mut Vec<u8>, n: u64)
    ensures
        final(out)@ == old(out)@ + decimal(n as nat),
    decreases n,
{
    if n < 10 {
        out.push((48 + n) as u8);
        assert(final(out)@ =~= old(out)@ + decimal(n as nat));
    } else {
        push_decimal(out, n / 10);
        out.push((48 + n % 10) as u8);
        assert(final(out)@ =~= old(out)@ + decimal(n as nat));
    }
}

/// Appends the decimal text of `i` to `out`.
pub fn push_signed_decimal(out: &mut Vec<u8>, i: i64)
    ensures
        final(out)@ == old(out)@ + signed_decimal(i as int),
{
    if i < 0 {
        out.push(45);
        let magnitude: u64 = (-(i + 1)) as u64 + 1;
        push_decimal(out, magnitude);
        assert(final(out)@ =~= old(out)@ + signed_decimal(i as int));
    } else {
        push_decimal(out, i as u64);
    }
}

/// Appends all of `src` to `out`.
pub fn push_all(out: &mut Vec<u8>, src: &[u8])
    ensures
        final(out)@ == old(out)@ + src@,
{
    let mut i: usize = 0;
    while i < src.len()
        invariant
            i <= src@.len(),
            out@ == old(out)@ + src@.subrange(0, i as int),
        decreases src@.len() - i,
    {
        out.push(src[i]);
        i = i + 1;
        assert(out@ =~= old(out)@ + src@.subrange(0, i as int));
    }
    assert(src@.subrange(0, src@.len() as int) =~= src@);
}

/// Which bytes a trim removes from the ends of a text.
#[derive(Debug, Clone, Copy, PartialEq, Eq, Structural)]
pub enum Strip {
    /// ASCII white space: space, tab, line feed, form feed, carriage return.
    Space,
    /// Every byte but the ASCII letters.
    NonLetter,
    /// The single quote.
    Quote,
}

/// Whether `b` is ASCII white space: space, tab, line feed, form feed or
/// carriage return.
pub open spec fn is_space(b: u8) -> bool {
    b == 32 || b == 9 || b == 10 || b == 12 || b == 13
}

#[verifier::when_used_as_spec(is_space)]
pub fn is_space_byte(b: u8) -> (r: bool)
    ensures
        r == is_space(b),
{
    b == 32 || b == 9 || b == 10 || b == 12 || b == 13
}

/// Whether a trim of kind `k` removes `b`.
pub open spec fn strips(k: Strip, b: u8) -> bool {
    match k {
        Strip::Space => is_space(b),
        Strip::NonLetter => !((65 <= b && b <= 90) || (97 <= b && b <= 122)),
        Strip::Quote => b == 39,
    }
}

fn strips_exec(k: Strip, b: u8) -> (r: bool)
    ensures
        r == strips(k, b),
{
    match k {
        Strip::Space => is_space_byte(b),
        Strip::NonLetter => !((65 <= b && b <= 90) || (97 <= b && b <= 122)),
        Strip::Quote => b == 39,
    }
}

/// Index of the first byte of `s` from `i` on that a trim of kind `k` keeps.
pub open spec fn skip_stripped(k: Strip, s: Seq<u8>, i: nat) -> nat
    decreases s.len() - i,
{
    if i < s.len() && strips(k, s[i as int]) {
        skip_stripped(k, s, i + 1)
    } else {
        i
    }
}

/// End of `s` up to `j` once a trim of kind `k` has removed its tail.
pub open spec fn stripped_end(k: Strip, s: Seq<u8>, j: nat) -> nat
    decreases j,
{
    if j > 0 && j <= s.len() && strips(k, s[j - 1]) {
        stripped_end(k, s, (j - 1) as nat)
    } else {
        j
    }
}

/// `s` without the bytes that a trim of kind `k` removes from both ends.
pub open spec fn trim_with(k: Strip, s: Seq<u8>) -> Seq<u8> {
    let a = skip_stripped(k, s, 0);
    let b = stripped_end(k, s, s.len());
    if a < b {
        s.subrange(a as int, b as int)
    } else {
        Seq::empty()
    }
}

/// `s` without leading and trailing ASCII white space.
pub open spec fn trim(s: Seq<u8>) -> Seq<u8> {
    trim_with(Strip::Space, s)
}

/// Copies `s` without the bytes that a trim of kind `k` removes from both
/// ends.
pub fn trim_bytes(k: Strip, s: &[u8]) -> (r: Vec<u8>)
    ensures
        r@ == trim_with(k, s@),
{
    let mut a: usize = 0;
    while a < s.len() && strips_exec(k, s[a])
        invariant
            a <= s@.len(),
            skip_stripped(k, s@, 0) == skip_stripped(k, s@, a as nat),
        decreases s@.len() - a,
    {
        a = a + 1;
    }
    let mut b: usize = s.len();
    while b > 0 && strips_exec(k, s[b - 1])
        invariant
            b <= s@.len(),
            stripped_end(k, s@, s@.len()) == stripped_end(k, s@, b as nat),
        decreases b,
    {
        b = b - 1;
    }
    let mut out: Vec<u8> = Vec::new();
    if a < b {
        let mut i: usize = a;
        while i < b
            invariant
                a <= i <= b <= s@.len(),
                out@ == s@.subrange(a as int, i as int),
            decreases b - i,
        {
            out.push(s[i]);
            i = i + 1;
            assert(out@ =~= s@.subrange(a as int, i as int));
        }
    }
    proof {
        if !(a < b) {
            assert(out@ =~= Seq::<u8>::empty());
        }
    }
    out
}

/// Copies `s` without leading and trailing ASCII white space.
pub fn trim_ascii(s: &[u8]) -> (r: Vec<u8>)
    ensures
        r@ == trim(s@),
{
    trim_bytes(Strip::Space, s)
}

} // verus!

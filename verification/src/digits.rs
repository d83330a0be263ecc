use vstd::prelude::*;

verus! {

/// The decimal digits of `n`, most significant first, as ASCII bytes.
pub open spec fn dec_digits(n: nat) -> Seq<u8>
    decreases n,
{
    if n < 10 {
        seq![(48 + n) as u8]
    } else {
        dec_digits(n / 10).push((48 + n % 10) as u8)
    }
}

pub open spec fn is_dec_digit(b: u8) -> bool {
    48 <= b && b <= 57
}

pub open spec fn all_dec_digits(s: Seq<u8>) -> bool {
    forall|i: int| 0 <= i < s.len() ==> is_dec_digit(#[trigger] s[i])
}

/// The numeric value of a digit string, read most significant first.
pub open spec fn dec_val(s: Seq<u8>) -> nat
    decreases s.len(),
{
    if s.len() == 0 {
        0
    } else {
        (dec_val(s.drop_last()) * 10 + (s.last() - 48)) as nat
    }
}

/// The value of a catalog identifier field: a non-empty run of decimal
/// digits whose value fits in a `u64`; anything else is rejected.
pub open spec fn spec_parse_u64(s: Seq<u8>) -> Option<u64> {
    if s.len() > 0 && all_dec_digits(s) && dec_val(s) <= u64::MAX {
        Some(dec_val(s) as u64)
    } else {
        None
    }
}

/// Appends the decimal rendering of `n` to `out`.
pub fn push_u64_dec(out: &mut Vec<u8>, n: u64)
    ensures
        final(out)@ == old(out)@ + dec_digits(n as nat),
    decreases n,
{
    if n < 10 {
        out.push((48 + n) as u8);
        assert(out@ =~= old(out)@ + dec_digits(n as nat));
    } else {
        push_u64_dec(out, n / 10);
        out.push((48 + n % 10) as u8);
        assert(out@ =~= old(out)@ + dec_digits(n as nat));
    }
}

proof fn lemma_dec_val_grows(s: Seq<u8>, i: int)
    requires
        0 <= i <= s.len(),
        all_dec_digits(s),
    ensures
        dec_val(s.take(i)) <= dec_val(s),
    decreases s.len() - i,
{
    if i < s.len() {
        let a = dec_val(s.take(i));
        let b = dec_val(s.take(i + 1));
        assert(s.take(i + 1).drop_last() =~= s.take(i));
        assert(s.take(i + 1).last() == s[i]);
        assert(a * 10 >= a) by (nonlinear_arith)
            requires a >= 0
        ;
        assert(b >= a);
        lemma_dec_val_grows(s, i + 1);
        assert(s.take(s.len() as int) =~= s);
    } else {
        assert(s.take(i) =~= s);
    }
}

/// Reads a decimal `u64`, accepting exactly the strings that
/// [`spec_parse_u64`] accepts.
pub fn parse_u64_dec(s: &Vec<u8>) -> (r: Option<u64>)
    ensures
        r == spec_parse_u64(s@),
{
    if s.len() == 0 {
        return None;
    }
    let mut acc: u64 = 0;
    let mut i: usize = 0;
    while i < s.len()
        invariant
            0 <= i <= s@.len(),
            all_dec_digits(s@.take(i as int)),
            acc == dec_val(s@.take(i as int)),
        decreases s@.len() - i,
    {
        let b = s[i];
        if b < 48 || b > 57 {
            assert(!all_dec_digits(s@));
            return None;
        }
        let d: u64 = (b - 48) as u64;
        assert(s@.take(i + 1).drop_last() =~= s@.take(i as int));
        assert(s@.take(i + 1).last() == s@[i as int]);
        if acc > (u64::MAX - d) / 10 {
            proof {
                let whole = u64::MAX as nat;
                assert(acc * 10 + d > whole) by (nonlinear_arith)
                    requires
                        acc > (whole - d) / 10,
                        0 <= d < 10,
                        whole == u64::MAX as nat,
                ;
                if all_dec_digits(s@) {
                    lemma_dec_val_grows(s@, i + 1);
                }
            }
            return None;
        }
        assert(acc * 10 + d <= u64::MAX as nat) by (nonlinear_arith)
            requires
                acc <= (u64::MAX as nat - d) / 10,
                0 <= d < 10,
        ;
        acc = acc * 10 + d;
        i += 1;
    }
    assert(s@.take(s@.len() as int) =~= s@);
    Some(acc)
}

/// A rendered identifier consists of decimal digits alone.
pub proof fn lemma_dec_digits_are_digits(n: nat)
    ensures
        dec_digits(n).len() > 0,
        forall|j: int| 0 <= j < dec_digits(n).len() ==> is_dec_digit(#[trigger] dec_digits(n)[j]),
    decreases n,
{
    if n < 10 {
    } else {
        lemma_dec_digits_are_digits(n / 10);
        let whole = dec_digits(n);
        let head = dec_digits(n / 10);
        assert forall|j: int| 0 <= j < whole.len() implies is_dec_digit(#[trigger] whole[j]) by {
            if j < head.len() {
                assert(whole[j] == head[j]);
            } else {
                assert(whole[j] == (48 + n % 10) as u8);
            }
        }
    }
}

/// Reading back a rendered identifier gives the identifier again.
pub proof fn lemma_dec_digits_round_trip(n: u64)
    ensures
        spec_parse_u64(dec_digits(n as nat)) == Some(n),
    decreases n,
{
    if n < 10 {
        assert(dec_digits(n as nat) =~= seq![(48 + n) as u8]);
        assert(dec_digits(n as nat).drop_last() =~= Seq::<u8>::empty());
        assert(dec_val(Seq::<u8>::empty()) == 0);
        assert(dec_digits(n as nat).last() == (48 + n) as u8);
        assert(dec_val(dec_digits(n as nat)) == n);
    } else {
        lemma_dec_digits_round_trip(n / 10);
        let whole = dec_digits(n as nat);
        let head = dec_digits((n / 10) as nat);
        assert(whole == head.push((48 + n % 10) as u8));
        assert(whole.drop_last() =~= head);
        assert(whole.last() == (48 + n % 10) as u8);
        assert(dec_val(whole) == dec_val(head) * 10 + n % 10);
        assert(dec_val(head) * 10 + n % 10 == n) by (nonlinear_arith)
            requires
                dec_val(head) == n / 10,
                n >= 10,
        ;
        assert(all_dec_digits(whole)) by {
            assert(forall|i: int|
                0 <= i < head.len() ==> whole[i] == #[trigger] head[i]);
        }
    }
}

} // verus!

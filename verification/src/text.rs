//! Building strings: characters, decimal numerals.
use vstd::prelude::*;

verus! {

/// Appends one character to a string.
///
/// Trusted: calls `String::push` from std, which appends the character to
/// the end of the string; the contract states just that.
#[verifier::external_body]
pub(crate) fn push_char(s: &mut String, c: char)
    ensures
        final(s)@ == old(s)@.push(c),
{
    s.push(c);
}

/// The decimal digit character for `d` (`d < 10`).
pub open spec fn digit_char(d: nat) -> char {
    ((d + 48) as u8) as char
}

/// The decimal numeral of a natural number, most significant digit first,
/// without leading zeros (zero is "0").
pub open spec fn nat_text(n: nat) -> Seq<char>
    decreases n,
{
    if n < 10 {
        seq![digit_char(n)]
    } else {
        nat_text(n / 10).push(digit_char(n % 10))
    }
}

/// The decimal numeral of an integer, with a leading '-' when it is negative.
pub open spec fn int_text(n: int) -> Seq<char> {
    if n < 0 {
        seq!['-'].add(nat_text((-n) as nat))
    } else {
        nat_text(n as nat)
    }
}

proof fn lemma_digit_char(d: nat)
    requires
        d < 10,
    ensures
        digit_char(d) as u32 == d + 48,
        digit_char(d) != ')',
        digit_char(d) != '-',
{
}

proof fn lemma_nat_text_chars(n: nat)
    ensures
        nat_text(n).len() >= 1,
        n >= 10 ==> nat_text(n).len() >= 2,
        forall|i: int| 0 <= i < nat_text(n).len() ==> #[trigger] nat_text(n)[i] != ')' && nat_text(n)[i] != '-',
    decreases n,
{
    if n < 10 {
        lemma_digit_char(n);
    } else {
        lemma_nat_text_chars(n / 10);
        lemma_digit_char(n % 10);
        let t = nat_text(n / 10);
        assert forall|i: int| 0 <= i < nat_text(n).len() implies #[trigger] nat_text(n)[i] != ')' && nat_text(n)[i] != '-' by {
            if i < t.len() {
                assert(nat_text(n)[i] == t[i]);
            }
        }
    }
}

proof fn lemma_nat_text_injective(n: nat, m: nat)
    requires
        nat_text(n) == nat_text(m),
    ensures
        n == m,
    decreases n,
{
    lemma_nat_text_chars(n);
    lemma_nat_text_chars(m);
    if n < 10 && m < 10 {
        lemma_digit_char(n);
        lemma_digit_char(m);
        assert(nat_text(n)[0] == digit_char(n));
        assert(nat_text(m)[0] == digit_char(m));
    } else if n >= 10 && m >= 10 {
        let tn = nat_text(n / 10);
        let tm = nat_text(m / 10);
        lemma_digit_char(n % 10);
        lemma_digit_char(m % 10);
        assert(nat_text(n)[nat_text(n).len() - 1] == digit_char(n % 10));
        assert(nat_text(m)[nat_text(m).len() - 1] == digit_char(m % 10));
        assert(tn =~= nat_text(n).drop_last());
        assert(tm =~= nat_text(m).drop_last());
        lemma_nat_text_injective(n / 10, m / 10);
    }
}

/// A decimal numeral holds digits and at most a leading `-`: no `)`.
pub proof fn lemma_int_text_has_no_close_paren(n: int)
    ensures
        forall|i: int| 0 <= i < int_text(n).len() ==> #[trigger] int_text(n)[i] != ')',
{
    if n < 0 {
        lemma_nat_text_chars((-n) as nat);
        assert forall|i: int| 0 <= i < int_text(n).len() implies #[trigger] int_text(n)[i] != ')' by {
            if i > 0 {
                assert(int_text(n)[i] == nat_text((-n) as nat)[i - 1]);
            }
        }
    } else {
        lemma_nat_text_chars(n as nat);
    }
}

/// Distinct integers have distinct numerals.
pub proof fn lemma_int_text_injective(n: int, m: int)
    requires
        int_text(n) == int_text(m),
    ensures
        n == m,
{
    if n < 0 {
        lemma_nat_text_chars((-n) as nat);
    } else {
        lemma_nat_text_chars(n as nat);
        assert(int_text(n)[0] == nat_text(n as nat)[0]);
    }
    if m < 0 {
        lemma_nat_text_chars((-m) as nat);
    } else {
        lemma_nat_text_chars(m as nat);
        assert(int_text(m)[0] == nat_text(m as nat)[0]);
    }
    if n < 0 && m < 0 {
        assert(nat_text((-n) as nat) =~= int_text(n).drop_first());
        assert(nat_text((-m) as nat) =~= int_text(m).drop_first());
        lemma_nat_text_injective((-n) as nat, (-m) as nat);
    } else if n >= 0 && m >= 0 {
        lemma_nat_text_injective(n as nat, m as nat);
    }
}

/// Appends the decimal numeral of `m` to `s`.
pub(crate) fn push_nat_text(s: &mut String, m: u64)
    ensures
        final(s)@ == old(s)@ + nat_text(m as nat),
    decreases m,
{
    if m >= 10 {
        push_nat_text(s, m / 10);
    }
    let d: u8 = (m % 10) as u8;
    push_char(s, (d + 48) as char);
    proof {
        if m < 10 {
            assert(old(s)@ + nat_text(m as nat) =~= old(s)@.push(digit_char(m as nat)));
        } else {
            assert(old(s)@ + nat_text(m as nat) =~= (old(s)@ + nat_text((m / 10) as nat)).push(digit_char((m % 10) as nat)));
        }
    }
}

/// Appends the decimal numeral of `n` to `s`, as `{n}` formats it.
pub(crate) fn push_int_text(s: &mut String, n: i64)
    ensures
        final(s)@ == old(s)@ + int_text(n as int),
{
    if n < 0 {
        push_char(s, '-');
        let m: u64 = ((-(n + 1)) as u64) + 1;
        push_nat_text(s, m);
        proof {
            assert(old(s)@ + int_text(n as int) =~= old(s)@.push('-') + nat_text(m as nat));
        }
    } else {
        push_nat_text(s, n as u64);
    }
}

} // verus!

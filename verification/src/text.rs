//! Decimal rendering of numbers, for messages.
use vstd::prelude::*;

verus! {

/// The character of the decimal digit `d`.
pub open spec fn digit_char(d: nat) -> char
    recommends
        d < 10,
{
    ((48 + d) as u8) as char
}

/// The decimal representation of `n`, without leading zeros (zero is "0").
pub open spec fn decimal(n: nat) -> Seq<char>
    decreases n,
{
    if n < 10 {
        seq![digit_char(n)]
    } else {
        decimal(n / 10).push(digit_char(n % 10))
    }
}

/// The one-character string of the decimal digit `d`.
fn digit_str(d: u8) -> (s: &'static str)
    requires
        d < 10,
    ensures
        s@ == seq![digit_char(d as nat)],
{
    proof {
        reveal_strlit("0");
        reveal_strlit("1");
        reveal_strlit("2");
        reveal_strlit("3");
        reveal_strlit("4");
        reveal_strlit("5");
        reveal_strlit("6");
        reveal_strlit("7");
        reveal_strlit("8");
        reveal_strlit("9");
    }
    match d {
        0 => "0",
        1 => "1",
        2 => "2",
        3 => "3",
        4 => "4",
        5 => "5",
        6 => "6",
        7 => "7",
        8 => "8",
        _ => "9",
    }
}

/// The decimal digits of `n`, least significant first.
spec fn digits_low_first(n: nat) -> Seq<u8>
    decreases n,
{
    if n < 10 {
        seq![n as u8]
    } else {
        seq![(n % 10) as u8] + digits_low_first(n / 10)
    }
}

proof fn lemma_digits(n: nat)
    ensures
        digits_low_first(n).len() >= 1,
        forall|i: int| 0 <= i < digits_low_first(n).len() ==> #[trigger] digits_low_first(n)[i] < 10,
    decreases n,
{
    if n >= 10 {
        lemma_digits(n / 10);
    }
}

/// The characters of the digits `ds`, most significant (last) first.
spec fn render_high_first(ds: Seq<u8>) -> Seq<char>
    decreases ds.len(),
{
    if ds.len() == 0 {
        Seq::empty()
    } else {
        render_high_first(ds.drop_first()).push(digit_char(ds[0] as nat))
    }
}

proof fn lemma_render_digits(n: nat)
    ensures
        render_high_first(digits_low_first(n)) == decimal(n),
    decreases n,
{
    let ds = digits_low_first(n);
    if n < 10 {
        assert(ds.drop_first() =~= Seq::<u8>::empty());
        assert(ds[0] as nat == n);
        assert(render_high_first(ds) == render_high_first(ds.drop_first()).push(digit_char(ds[0] as nat)));
        assert(render_high_first(ds) =~= seq![digit_char(n)]);
    } else {
        lemma_render_digits(n / 10);
        assert(ds.drop_first() =~= digits_low_first(n / 10));
        assert(ds[0] as nat == n % 10);
        assert(render_high_first(ds) == render_high_first(ds.drop_first()).push(digit_char(ds[0] as nat)));
    }
}

/// `render_high_first` of a suffix, one more digit at the front of the
/// suffix.
proof fn lemma_render_step(ds: Seq<u8>, k: int)
    requires
        0 <= k < ds.len(),
    ensures
        render_high_first(ds.subrange(k, ds.len() as int)) == render_high_first(
            ds.subrange(k + 1, ds.len() as int),
        ).push(digit_char(ds[k] as nat)),
{
    assert(ds.subrange(k, ds.len() as int).drop_first() =~= ds.subrange(k + 1, ds.len() as int));
}

/// The decimal representation of `n`.
pub fn decimal_string(n: u64) -> (s: String)
    ensures
        s@ == decimal(n as nat),
{
    let mut digits: Vec<u8> = Vec::new();
    let mut m: u64 = n;
    proof {
        lemma_digits(n as nat);
    }
    while m >= 10
        invariant
            digits@ + digits_low_first(m as nat) == digits_low_first(n as nat),
        decreases m,
    {
        let d = (m % 10) as u8;
        proof {
            assert(digits_low_first(m as nat) == seq![d] + digits_low_first((m / 10) as nat));
            assert(digits@.push(d) + digits_low_first((m / 10) as nat) =~= digits@ + (seq![d]
                + digits_low_first((m / 10) as nat)));
        }
        digits.push(d);
        m = m / 10;
    }
    digits.push(m as u8);
    proof {
        assert(digits_low_first(m as nat) =~= seq![m as u8]);
        assert(digits@ =~= digits_low_first(n as nat));
        lemma_render_digits(n as nat);
    }
    let ghost ds = digits@;
    let mut s = String::new();
    proof {
        assert(ds.subrange(ds.len() as int, ds.len() as int) =~= Seq::<u8>::empty());
    }
    let mut k: usize = digits.len();
    while k > 0
        invariant
            k <= ds.len(),
            digits@ == ds,
            forall|i: int| 0 <= i < ds.len() ==> #[trigger] ds[i] < 10,
            s@ == render_high_first(ds.subrange(k as int, ds.len() as int)),
        decreases k,
    {
        k = k - 1;
        proof {
            lemma_render_step(ds, k as int);
        }
        let d = digit_str(digits[k]);
        s.append(d);
        proof {
            assert(s@ =~= render_high_first(ds.subrange(k as int + 1, ds.len() as int)).push(
                digit_char(ds[k as int] as nat),
            ));
        }
    }
    proof {
        assert(ds.subrange(0, ds.len() as int) =~= ds);
    }
    s
}

} // verus!

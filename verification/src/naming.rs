//! Default names of new layers.
use vstd::prelude::*;
use vstd::string::StringExecFns;

verus! {

/// The character of decimal digit `d`.
pub open spec fn digit_char(d: nat) -> char {
    (48 + d) as char
}

/// The decimal digits of `n`, most significant first, without leading zeros.
pub open spec fn decimal(n: nat) -> Seq<char>
    decreases n,
{
    if n < 10 {
        seq![digit_char(n)]
    } else {
        decimal(n / 10).push(digit_char(n % 10))
    }
}

/// The name a new layer gets when it is the `n`-th one created: `Layer n`.
pub open spec fn layer_label(n: nat) -> Seq<char> {
    seq!['L', 'a', 'y', 'e', 'r', ' '] + decimal(n)
}

/// The number that a string of decimal digits spells, most significant
/// digit first (each character counting as its code minus that of `'0'`).
pub open spec fn numeral_value(s: Seq<char>) -> int
    decreases s.len(),
{
    if s.len() == 0 {
        0
    } else {
        numeral_value(s.drop_last()) * 10 + (s.last() as int - 48)
    }
}

/// A decimal numeral spells its number back: every character is a digit
/// `'0'..='9'`, the first is not `'0'` unless the number is 0 (then the
/// numeral is just `"0"`), and read as a base-10 numeral it gives `n`.
pub proof fn decimal_reads_back(n: nat)
    ensures
        numeral_value(decimal(n)) == n,
        decimal(n).len() > 0,
        forall|i: int| 0 <= i < decimal(n).len() ==> '0' <= #[trigger] decimal(n)[i] <= '9',
        n == 0 <==> decimal(n)[0] == '0',
        n == 0 ==> decimal(n).len() == 1,
        n < 10 <==> decimal(n).len() == 1,
    decreases n,
{
    if n < 10 {
        assert(decimal(n) == seq![digit_char(n)]);
        assert(seq![digit_char(n)].drop_last() =~= Seq::<char>::empty());
        assert(digit_char(n) as int == 48 + n);
        assert(numeral_value(Seq::<char>::empty()) == 0);
        assert(numeral_value(seq![digit_char(n)]) == numeral_value(Seq::<char>::empty()) * 10 + (digit_char(n) as int - 48));
    } else {
        let m = n / 10;
        let d = (n % 10) as nat;
        decimal_reads_back(m);
        let t = decimal(m);
        assert(decimal(n) == t.push(digit_char(d)));
        assert(t.push(digit_char(d)).drop_last() =~= t);
        assert(digit_char(d) as int == 48 + d);
        assert(numeral_value(decimal(n)) == m * 10 + d);
        assert(m * 10 + d == n);
        assert forall|i: int| 0 <= i < decimal(n).len() implies '0' <= #[trigger] decimal(n)[i] <= '9' by {
            if i < t.len() {
                assert(decimal(n)[i] == t[i]);
            }
        }
        assert(decimal(n)[0] == t[0]);
        assert(m > 0);
    }
}

/// The name of the `n`-th layer is `Layer ` followed by the digits of `n`,
/// which read back as `n`.
pub proof fn layer_label_reads_back(n: nat)
    ensures
        layer_label(n).take(6) == seq!['L', 'a', 'y', 'e', 'r', ' '],
        numeral_value(layer_label(n).skip(6)) == n,
{
    decimal_reads_back(n);
    assert(layer_label(n).take(6) =~= seq!['L', 'a', 'y', 'e', 'r', ' ']);
    assert(layer_label(n).skip(6) =~= decimal(n));
}

fn digit_str(d: u32) -> (s: &'static str)
    requires
        d < 10,
    ensures
        s@ == seq![digit_char(d as nat)],
{
    match d {
        0 => { proof { reveal_strlit("0"); } "0" },
        1 => { proof { reveal_strlit("1"); } "1" },
        2 => { proof { reveal_strlit("2"); } "2" },
        3 => { proof { reveal_strlit("3"); } "3" },
        4 => { proof { reveal_strlit("4"); } "4" },
        5 => { proof { reveal_strlit("5"); } "5" },
        6 => { proof { reveal_strlit("6"); } "6" },
        7 => { proof { reveal_strlit("7"); } "7" },
        8 => { proof { reveal_strlit("8"); } "8" },
        _ => { proof { reveal_strlit("9"); } "9" },
    }
}

fn append_decimal(s: &mut String, n: u32)
    ensures
        final(s)@ == old(s)@ + decimal(n as nat),
    decreases n,
{
    if n >= 10 {
        append_decimal(s, n / 10);
    }
    s.append(digit_str(n % 10));
    proof {
        if n >= 10 {
            assert(old(s)@ + decimal((n / 10) as nat) + seq![digit_char((n % 10) as nat)] =~= old(s)@ + decimal(n as nat));
        } else {
            assert(decimal(n as nat) == seq![digit_char(n as nat)]);
        }
    }
}

/// `Layer n`, the name of the `n`-th layer created.
pub fn layer_name(n: u32) -> (name: String)
    ensures
        name@ == layer_label(n as nat),
{
    let mut name = String::from_str("Layer ");
    proof {
        reveal_strlit("Layer ");
        assert("Layer "@ =~= seq!['L', 'a', 'y', 'e', 'r', ' ']);
    }
    append_decimal(&mut name, n);
    name
}

} // verus!

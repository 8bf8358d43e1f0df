//! The text that names a class and lists its levels in the printed plans.

use vstd::prelude::*;
use crate::config::LevelId;

verus! {

/// The character of the digit `d` (`0..=9`).
pub open spec fn digit_char(d: nat) -> char {
    if d == 0 {
        '0'
    } else if d == 1 {
        '1'
    } else if d == 2 {
        '2'
    } else if d == 3 {
        '3'
    } else if d == 4 {
        '4'
    } else if d == 5 {
        '5'
    } else if d == 6 {
        '6'
    } else if d == 7 {
        '7'
    } else if d == 8 {
        '8'
    } else {
        '9'
    }
}

/// `n` written in decimal, without leading zeros.
pub open spec fn decimal(n: nat) -> Seq<char>
    decreases n,
{
    if n < 10 {
        seq![digit_char(n)]
    } else {
        decimal(n / 10).push(digit_char(n % 10))
    }
}

/// The label of a class: its level, or its two levels joined by ` + `.
pub open spec fn label_of(comp: Seq<LevelId>) -> Seq<char> {
    if comp.len() == 2 {
        comp[0]@ + seq![' ', '+', ' '] + comp[1]@
    } else {
        comp[0]@
    }
}

/// One entry of a class's detail: the level, `:`, and its number of pupils.
pub open spec fn entry_text(e: (LevelId, u32)) -> Seq<char> {
    e.0@ + seq![':'] + decimal(e.1 as nat)
}

/// The detail of a class: its entries joined by `, `.
pub open spec fn detail_of(entries: Seq<(LevelId, u32)>) -> Seq<char>
    decreases entries.len(),
{
    if entries.len() == 0 {
        Seq::empty()
    } else if entries.len() == 1 {
        entry_text(entries[0])
    } else {
        detail_of(entries.drop_last()) + seq![',', ' '] + entry_text(entries.last())
    }
}

/// The number that the decimal digits of `s` stand for.
pub open spec fn digits_value(s: Seq<char>) -> int
    decreases s.len(),
{
    if s.len() == 0 {
        0
    } else {
        digits_value(s.drop_last()) * 10 + (s.last() as int - '0' as int)
    }
}

/// The digit characters `0` to `9`.
pub open spec fn is_digit(c: char) -> bool {
    '0' as int <= c as int <= '9' as int
}

/// Decimal text reads back as its number: `decimal(n)` is made of digits,
/// has no leading zero, and its digits stand for `n`.
pub proof fn lemma_decimal_reads_back(n: nat)
    ensures
        decimal(n).len() >= 1,
        forall|i: int| 0 <= i < decimal(n).len() ==> is_digit(#[trigger] decimal(n)[i]),
        decimal(n)[0] == '0' ==> n == 0,
        digits_value(decimal(n)) == n,
    decreases n,
{
    assert forall|d: nat| d < 10 implies #[trigger] digit_char(d) as int == '0' as int + d by {
        assert('0' as int == 48 && '1' as int == 49 && '2' as int == 50 && '3' as int == 51 && '4' as int == 52);
        assert('5' as int == 53 && '6' as int == 54 && '7' as int == 55 && '8' as int == 56 && '9' as int == 57);
    }
    if n >= 10 {
        lemma_decimal_reads_back(n / 10);
        let d = decimal(n / 10);
        let e = decimal(n);
        assert(e == d.push(digit_char(n % 10)));
        assert(e.drop_last() =~= d);
        assert(digit_char(n % 10) as int == '0' as int + n % 10);
        assert forall|i: int| 0 <= i < e.len() implies is_digit(#[trigger] e[i]) by {
            if i < d.len() {
                assert(e[i] == d[i]);
            }
        }
        assert(e[0] == d[0]);
        assert(e.last() == digit_char(n % 10));
        assert(digits_value(e) == digits_value(d) * 10 + (e.last() as int - '0' as int));
        assert((n / 10) * 10 + n % 10 == n) by (nonlinear_arith);
    } else {
        assert(digit_char(n) as int == '0' as int + n);
        assert(decimal(n).drop_last() =~= Seq::<char>::empty());
        assert(digits_value(decimal(n)) == digits_value(decimal(n).drop_last()) * 10 + (decimal(n).last() as int
            - '0' as int));
    }
}

fn digit_str(d: u32) -> (r: &'static str)
    requires
        d < 10,
    ensures
        r@ == seq![digit_char(d as nat)],
{
    proof {
        reveal_strlit("0");
        reveal_strlit("1");
        reveal_strlit("2");
        reveal_strlit("3");
        reveal_strlit("4");
        reveal_strlit("5");
        reveal_strlit("6");
        reveal_strlit("7");
        reveal_strlit("8");
        reveal_strlit("9");
    }
    match d {
        0 => "0",
        1 => "1",
        2 => "2",
        3 => "3",
        4 => "4",
        5 => "5",
        6 => "6",
        7 => "7",
        8 => "8",
        _ => "9",
    }
}

/// Appends `n` in decimal.
fn push_decimal(s: &mut String, n: u32)
    ensures
        final(s)@ == old(s)@ + decimal(n as nat),
    decreases n,
{
    if n < 10 {
        s.append(digit_str(n));
    } else {
        push_decimal(s, n / 10);
        s.append(digit_str(n % 10));
        proof {
            assert(decimal(n as nat) == decimal((n / 10) as nat).push(digit_char((n % 10) as nat)));
        }
    }
}

/// The label of a class: its level, or its two levels joined by ` + `.
pub fn class_label(comp: &Vec<LevelId>) -> (r: String)
    requires
        comp@.len() >= 1,
    ensures
        r@ == label_of(comp@),
{
    let mut r = String::new();
    r.append(comp[0].as_str());
    if comp.len() == 2 {
        proof {
            reveal_strlit(" + ");
        }
        r.append(" + ");
        r.append(comp[1].as_str());
    }
    r
}

/// The detail of a class: `level:pupils` for each entry, joined by `, `.
pub fn class_detail(entries: &Vec<(LevelId, u32)>) -> (r: String)
    ensures
        r@ == detail_of(entries@),
{
    let mut r = String::new();
    let mut i: usize = 0;
    while i < entries.len()
        invariant
            i <= entries@.len(),
            r@ == detail_of(entries@.take(i as int)),
        decreases entries@.len() - i,
    {
        proof {
            assert(entries@.take(i + 1).drop_last() =~= entries@.take(i as int));
            reveal_strlit(", ");
            reveal_strlit(":");
        }
        if i > 0 {
            r.append(", ");
        }
        let ghost before = r@;
        r.append(entries[i].0.as_str());
        r.append(":");
        push_decimal(&mut r, entries[i].1);
        proof {
            assert(r@ == before + entry_text(entries@[i as int]));
            if i == 0 {
                assert(r@ =~= entry_text(entries@[0]));
            }
        }
        i = i + 1;
    }
    proof {
        assert(entries@.take(entries@.len() as int) =~= entries@);
    }
    r
}

} // verus!

//! Numbers as big-endian octets: what a run of octets is worth, and the
//! shortest run that is worth a given number.

use vstd::arithmetic::div_mod;
use vstd::arithmetic::power;
use vstd::prelude::*;

verus! {

/// The natural number that `octets` are worth, the most significant first.
pub open spec fn unsigned_value(octets: Seq<u8>) -> nat
    decreases octets.len(),
{
    if octets.len() == 0 {
        0
    } else {
        unsigned_value(octets.drop_last()) * 256 + octets.last() as nat
    }
}

/// The shortest octets that are worth `n`; one octet for zero.
pub open spec fn digits(n: nat) -> Seq<u8>
    decreases n,
{
    if n < 256 {
        seq![n as u8]
    } else {
        digits(n / 256).push((n % 256) as u8)
    }
}

/// The integer that `octets` are worth in two's complement.
pub open spec fn signed_value(octets: Seq<u8>) -> int
    decreases octets.len(),
{
    if octets.len() == 0 {
        0
    } else if octets.len() == 1 {
        if octets[0] < 0x80 {
            octets[0] as int
        } else {
            octets[0] - 256
        }
    } else {
        signed_value(octets.drop_last()) * 256 + octets.last()
    }
}

/// The shortest two's complement octets that are worth `v`.
pub open spec fn integer_octets(v: int) -> Seq<u8>
    decreases (if v < 0 { -v } else { v }),
{
    if -128 <= v < 128 {
        seq![(v % 256) as u8]
    } else {
        integer_octets(v / 256).push((v % 256) as u8)
    }
}

/// Half the number of values that `width` octets can tell apart.
pub open spec fn half_range(width: nat) -> int
    decreases width,
{
    if width <= 1 {
        128
    } else {
        256 * half_range((width - 1) as nat)
    }
}

pub proof fn lemma_half_range_grows(narrow: nat, wide: nat)
    requires
        narrow <= wide,
    ensures
        128 <= half_range(narrow) <= half_range(wide),
    decreases wide,
{
    if wide > 1 {
        if narrow == wide {
            lemma_half_range_grows((wide - 1) as nat, (wide - 1) as nat);
        } else {
            lemma_half_range_grows(narrow, (wide - 1) as nat);
        }
    }
}

pub proof fn lemma_half_range_of_eight()
    ensures
        half_range(8) == 0x8000_0000_0000_0000,
{
    reveal_with_fuel(half_range, 9);
}

/// What octets are worth lies within what their number can hold.
pub proof fn lemma_signed_value_bounds(octets: Seq<u8>)
    requires
        octets.len() > 0,
    ensures
        -half_range(octets.len()) <= signed_value(octets) < half_range(octets.len()),
    decreases octets.len(),
{
    if octets.len() > 1 {
        lemma_signed_value_bounds(octets.drop_last());
    }
}

/// The number of octets that suffice for `v`.
pub proof fn lemma_integer_octets_width(v: int, width: nat)
    requires
        width > 0,
        -half_range(width) <= v < half_range(width),
    ensures
        0 < integer_octets(v).len() <= width,
    decreases width,
{
    if !(-128 <= v < 128) {
        lemma_integer_octets_width(v / 256, (width - 1) as nat);
    }
}

/// The octets of an integer are worth that integer.
pub proof fn lemma_integer_octets_value(v: int)
    ensures
        integer_octets(v).len() > 0,
        signed_value(integer_octets(v)) == v,
    decreases (if v < 0 { -v } else { v }),
{
    if !(-128 <= v < 128) {
        lemma_integer_octets_value(v / 256);
        assert(integer_octets(v).drop_last() =~= integer_octets(v / 256));
    }
}

/// As many octets that are worth the same are the same octets.
pub proof fn lemma_signed_value_injective(a: Seq<u8>, b: Seq<u8>)
    requires
        a.len() == b.len(),
        signed_value(a) == signed_value(b),
    ensures
        a =~= b,
    decreases a.len(),
{
    if a.len() > 1 {
        lemma_signed_value_injective(a.drop_last(), b.drop_last());
        assert(a =~= a.drop_last().push(a.last()));
        assert(b =~= b.drop_last().push(b.last()));
    }
}

/// The octets of an integer are the shortest two's complement: no octets
/// worth the same are fewer, and none of the same number are others.
pub proof fn integer_octets_are_the_shortest(v: int, octets: Seq<u8>)
    requires
        octets.len() > 0,
        signed_value(octets) == v,
    ensures
        signed_value(integer_octets(v)) == v,
        integer_octets(v).len() <= octets.len(),
        integer_octets(v).len() == octets.len() ==> integer_octets(v) == octets,
{
    lemma_integer_octets_value(v);
    lemma_signed_value_bounds(octets);
    lemma_integer_octets_width(v, octets.len());
    if integer_octets(v).len() == octets.len() {
        lemma_signed_value_injective(integer_octets(v), octets);
    }
}

/// The digits of a number are worth that number.
pub proof fn lemma_digits_value(n: nat)
    ensures
        digits(n).len() > 0,
        unsigned_value(digits(n)) == n,
    decreases n,
{
    if n < 256 {
        assert(unsigned_value(digits(n).drop_last()) == 0);
    } else {
        lemma_digits_value(n / 256);
        assert(digits(n).drop_last() =~= digits(n / 256));
    }
}

/// The number of values that `width` octets can tell apart.
pub open spec fn range(width: nat) -> nat
    decreases width,
{
    if width == 0 {
        1
    } else {
        256 * range((width - 1) as nat)
    }
}

/// The number of digits that suffice for `n`.
pub proof fn lemma_digits_width(n: nat, width: nat)
    requires
        width > 0,
        n < range(width),
    ensures
        0 < digits(n).len() <= width,
    decreases width,
{
    if n >= 256 {
        if width == 1 {
            assert(range(1) == 256 * range(0));
        }
        lemma_digits_width(n / 256, (width - 1) as nat);
    }
}

/// The number of digits that do not suffice for `n`.
pub proof fn lemma_digits_width_exceeds(n: nat, width: nat)
    requires
        range(width) <= n,
    ensures
        width < digits(n).len(),
    decreases width,
{
    if width == 0 {
        lemma_digits_value(n);
    } else {
        lemma_range_grows(0, (width - 1) as nat);
        lemma_digits_width_exceeds(n / 256, (width - 1) as nat);
    }
}

/// What octets are worth is below what their number can tell apart.
pub proof fn lemma_unsigned_value_bound(octets: Seq<u8>)
    ensures
        unsigned_value(octets) < range(octets.len()),
    decreases octets.len(),
{
    if octets.len() > 0 {
        lemma_unsigned_value_bound(octets.drop_last());
    }
}

pub proof fn lemma_range_grows(narrow: nat, wide: nat)
    requires
        narrow <= wide,
    ensures
        0 < range(narrow) <= range(wide),
    decreases wide,
{
    if wide > 0 {
        if narrow == wide {
            lemma_range_grows((wide - 1) as nat, (wide - 1) as nat);
        } else {
            lemma_range_grows(narrow, (wide - 1) as nat);
        }
    }
}

pub proof fn lemma_range_of_four()
    ensures
        range(4) == 0x1_0000_0000,
{
    reveal_with_fuel(range, 5);
}

pub proof fn lemma_range_of_eight()
    ensures
        range(8) == 0x1_0000_0000_0000_0000,
{
    reveal_with_fuel(range, 9);
}

proof fn lemma_power_step(e: nat)
    requires
        e > 0,
    ensures
        power::pow(256, e) == 256 * power::pow(256, (e - 1) as nat),
        power::pow(256, (e - 1) as nat) > 0,
{
    reveal(power::pow);
    power::lemma_pow_positive(256, (e - 1) as nat);
}

proof fn lemma_octet_above_the_last(value: int, e: nat)
    requires
        e > 0,
    ensures
        (value / 256) / power::pow(256, (e - 1) as nat) == value / power::pow(256, e),
{
    lemma_power_step(e);
    let p = power::pow(256, (e - 1) as nat);
    let high = value / 256;
    let q = high / p;
    let r = high % p;
    div_mod::lemma_fundamental_div_mod(high, p);
    let low = 256 * r + value % 256;
    assert(value == q * (256 * p) + low) by (nonlinear_arith)
        requires
            value == 256 * high + value % 256,
            high == p * q + r,
            low == 256 * r + value % 256,
    ;
    div_mod::lemma_mod_bound(high, p);
    div_mod::lemma_fundamental_div_mod_converse(value, 256 * p, q, low);
}

/// Octets are worth the number that has each of them in its place, the most
/// significant first.
pub proof fn each_octet_counts_by_its_place(octets: Seq<u8>)
    requires
        octets.len() > 0,
    ensures
        unsigned_value(octets) < power::pow(256, octets.len()),
        forall|i: int|
            0 <= i < octets.len() ==> #[trigger] octets[i] == (unsigned_value(octets) as int / power::pow(
                256,
                (octets.len() - 1 - i) as nat,
            )) % 256,
    decreases octets.len(),
{
    let value = unsigned_value(octets) as int;
    let front = octets.drop_last();
    power::lemma_pow0(256);
    lemma_power_step(octets.len());
    assert(unsigned_value(Seq::<u8>::empty()) == 0);
    if octets.len() > 1 {
        each_octet_counts_by_its_place(front);
    } else {
        assert(front =~= Seq::empty());
    }
    assert(value / 256 == unsigned_value(front));
    assert forall|i: int| 0 <= i < octets.len() implies #[trigger] octets[i] == (
    unsigned_value(octets) as int / power::pow(256, (octets.len() - 1 - i) as nat)) % 256 by {
        if i < octets.len() - 1 {
            assert(front[i] == octets[i]);
            lemma_octet_above_the_last(value, (octets.len() - 1 - i) as nat);
        }
    }
}

/// In two's complement, octets are worth the number that has each of them in
/// its place and lies within what their number can hold.
pub proof fn each_octet_counts_by_its_place_in_twos_complement(octets: Seq<u8>)
    requires
        octets.len() > 0,
    ensures
        -power::pow(256, octets.len()) <= 2 * signed_value(octets) < power::pow(256, octets.len()),
        forall|i: int|
            0 <= i < octets.len() ==> #[trigger] octets[i] == (signed_value(octets) / power::pow(
                256,
                (octets.len() - 1 - i) as nat,
            )) % 256,
    decreases octets.len(),
{
    let value = signed_value(octets);
    let front = octets.drop_last();
    power::lemma_pow0(256);
    lemma_half_range_is_half_a_power(octets.len());
    lemma_signed_value_bounds(octets);
    if octets.len() > 1 {
        each_octet_counts_by_its_place_in_twos_complement(front);
        assert(value / 256 == signed_value(front));
    }
    assert forall|i: int| 0 <= i < octets.len() implies #[trigger] octets[i] == (
    signed_value(octets) / power::pow(256, (octets.len() - 1 - i) as nat)) % 256 by {
        if i < octets.len() - 1 {
            assert(front[i] == octets[i]);
            lemma_octet_above_the_last(value, (octets.len() - 1 - i) as nat);
        }
    }
}

proof fn lemma_range_is_a_power(width: nat)
    ensures
        range(width) == power::pow(256, width),
    decreases width,
{
    reveal(power::pow);
    if width > 0 {
        lemma_range_is_a_power((width - 1) as nat);
    }
}

/// The digits of a number are its octets, each in its place, and no more of
/// them than it takes.
pub proof fn digits_stand_in_their_places(n: nat)
    ensures
        ({
            let written = digits(n);
            &&& written.len() > 0
            &&& n < power::pow(256, written.len())
            &&& written.len() > 1 ==> power::pow(256, (written.len() - 1) as nat) <= n
            &&& forall|i: int|
                0 <= i < written.len() ==> #[trigger] written[i] == (n as int / power::pow(
                    256,
                    (written.len() - 1 - i) as nat,
                )) % 256
        }),
{
    let written = digits(n);
    lemma_digits_value(n);
    each_octet_counts_by_its_place(written);
    if written.len() > 1 {
        let fewer = (written.len() - 1) as nat;
        lemma_range_is_a_power(fewer);
        if n < range(fewer) {
            lemma_digits_width(n, fewer);
        }
    }
}

/// The octets of an integer are those of its two's complement, each in its
/// place, and no more of them than it takes.
pub proof fn integer_octets_stand_in_their_places(value: int)
    ensures
        ({
            let written = integer_octets(value);
            &&& written.len() > 0
            &&& -power::pow(256, written.len()) <= 2 * value < power::pow(256, written.len())
            &&& written.len() > 1 ==> !(-power::pow(256, (written.len() - 1) as nat) <= 2 * value < power::pow(
                256,
                (written.len() - 1) as nat,
            ))
            &&& forall|i: int|
                0 <= i < written.len() ==> #[trigger] written[i] == (value / power::pow(
                    256,
                    (written.len() - 1 - i) as nat,
                )) % 256
        }),
{
    let written = integer_octets(value);
    lemma_integer_octets_value(value);
    each_octet_counts_by_its_place_in_twos_complement(written);
    if written.len() > 1 {
        let fewer = (written.len() - 1) as nat;
        lemma_half_range_is_half_a_power(fewer);
        if -half_range(fewer) <= value < half_range(fewer) {
            lemma_integer_octets_width(value, fewer);
        }
    }
}

proof fn lemma_half_range_is_half_a_power(width: nat)
    requires
        width > 0,
    ensures
        2 * half_range(width) == power::pow(256, width),
    decreases width,
{
    power::lemma_pow0(256);
    lemma_power_step(width);
    if width > 1 {
        lemma_half_range_is_half_a_power((width - 1) as nat);
    }
}

/// Append the digits of `n`.
pub(crate) fn push_digits(out: &mut Vec<u8>, n: usize)
    ensures
        final(out)@ == old(out)@ + digits(n as nat),
    decreases n,
{
    if n >= 256 {
        push_digits(out, n / 256);
    }
    out.push((n % 256) as u8);
}

/// Append the shortest two's complement of `v`.
pub(crate) fn push_integer(out: &mut Vec<u8>, v: i64)
    ensures
        final(out)@ == old(out)@ + integer_octets(v as int),
    decreases (if v < 0 { -v } else { v as int }),
{
    let high: i64 = if v >= 0 {
        v / 256
    } else {
        -1 - (-1 - v) / 256
    };
    assert(high == v as int / 256);
    if !(-128 <= v && v < 128) {
        push_integer(out, high);
    }
    out.push((v - high * 256) as u8);
}

} // verus!

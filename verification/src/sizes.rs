//! Byte counts: the total of the sizes that could be read, and the binary
//! unit in which a count is shown.
use vstd::prelude::*;

verus! {

/// The sum of the sizes that are known.
pub open spec fn known_total(sizes: Seq<Option<u64>>) -> int
    decreases sizes.len(),
{
    if sizes.len() == 0 {
        0
    } else {
        known_total(sizes.drop_last()) + match sizes.last() {
            Some(n) => n as int,
            None => 0,
        }
    }
}

/// How many sizes are unknown.
pub open spec fn unknown_count(sizes: Seq<Option<u64>>) -> int
    decreases sizes.len(),
{
    if sizes.len() == 0 {
        0
    } else {
        unknown_count(sizes.drop_last()) + if sizes.last() is None {
            1int
        } else {
            0int
        }
    }
}

pub proof fn lemma_known_total_prefix(sizes: Seq<Option<u64>>, i: int)
    requires
        0 <= i <= sizes.len(),
    ensures
        known_total(sizes.take(i)) <= known_total(sizes),
        unknown_count(sizes.take(i)) <= i,
    decreases sizes.len() - i,
{
    if i < sizes.len() {
        lemma_known_total_prefix(sizes, i + 1);
        assert(sizes.take(i + 1).drop_last() =~= sizes.take(i));
    } else {
        assert(sizes.take(i) =~= sizes);
    }
    lemma_unknown_count_bound(sizes.take(i));
}

pub proof fn lemma_unknown_count_bound(sizes: Seq<Option<u64>>)
    ensures
        0 <= unknown_count(sizes) <= sizes.len(),
    decreases sizes.len(),
{
    if sizes.len() > 0 {
        lemma_unknown_count_bound(sizes.drop_last());
    }
}

/// The total of the sizes that could be read (`Some`), and how many could
/// not be read (`None`).
pub fn total_size(sizes: &[Option<u64>]) -> (r: (u64, usize))
    requires
        known_total(sizes@) <= u64::MAX,
    ensures
        r.0 as int == known_total(sizes@),
        r.1 as int == unknown_count(sizes@),
{
    let mut bytes: u64 = 0;
    let mut unreadable: usize = 0;
    let mut i: usize = 0;
    assert(sizes@.take(0) =~= Seq::<Option<u64>>::empty());
    while i < sizes.len()
        invariant
            i <= sizes.len(),
            known_total(sizes@) <= u64::MAX,
            bytes as int == known_total(sizes@.take(i as int)),
            unreadable as int == unknown_count(sizes@.take(i as int)),
        decreases sizes.len() - i,
    {
        proof {
            assert(sizes@.take(i + 1).drop_last() =~= sizes@.take(i as int));
            lemma_known_total_prefix(sizes@, i + 1);
        }
        match sizes[i] {
            Some(n) => {
                bytes = bytes + n;
            },
            None => {
                unreadable = unreadable + 1;
            },
        }
        i = i + 1;
    }
    assert(sizes@.take(i as int) =~= sizes@);
    (bytes, unreadable)
}

/// 1024 to the power `k`.
pub open spec fn pow1024(k: nat) -> nat
    decreases k,
{
    if k == 0 {
        1
    } else {
        1024 * pow1024((k - 1) as nat)
    }
}

/// The index of the largest unit of B, KiB, MiB, GiB, TiB, PiB that is not
/// larger than `bytes` (B for counts under 1024; PiB at most).
pub open spec fn unit_index(bytes: int) -> int {
    if bytes >= pow1024(5) {
        5
    } else if bytes >= pow1024(4) {
        4
    } else if bytes >= pow1024(3) {
        3
    } else if bytes >= pow1024(2) {
        2
    } else if bytes >= pow1024(1) {
        1
    } else {
        0
    }
}

/// The symbols of the binary units, smallest first.
pub open spec fn unit_symbols() -> Seq<Seq<char>> {
    seq!["B"@, "KiB"@, "MiB"@, "GiB"@, "TiB"@, "PiB"@]
}

/// The unit in which `bytes` is shown: the largest of B, KiB, MiB, GiB,
/// TiB, PiB that is not larger than `bytes`, so that PiB is the last.
pub fn binary_unit(bytes: u64) -> (unit: usize)
    ensures
        unit as int == unit_index(bytes as int),
        unit <= 5,
        unit > 0 ==> bytes >= pow1024(unit as nat),
        unit == 5 || bytes < pow1024((unit + 1) as nat),
{
    proof {
        reveal_with_fuel(pow1024, 7);
    }
    let mut unit: usize = 0;
    let mut next: u64 = 1024;
    while unit < 5 && bytes >= next
        invariant
            unit <= 5,
            next as nat == pow1024((unit + 1) as nat),
            unit == 0 || bytes >= pow1024(unit as nat),
            pow1024(6) == 1152921504606846976nat,
            pow1024(5) == 1125899906842624nat,
            pow1024(4) == 1099511627776nat,
            pow1024(3) == 1073741824nat,
            pow1024(2) == 1048576nat,
            pow1024(1) == 1024nat,
            pow1024(0) == 1nat,
        decreases 5 - unit,
    {
        unit = unit + 1;
        next = next * 1024;
    }
    unit
}

/// The symbol of a binary unit.
pub fn unit_symbol(unit: usize) -> (s: &'static str)
    requires
        unit <= 5,
    ensures
        s@ == unit_symbols()[unit as int],
{
    if unit == 0 {
        "B"
    } else if unit == 1 {
        "KiB"
    } else if unit == 2 {
        "MiB"
    } else if unit == 3 {
        "GiB"
    } else if unit == 4 {
        "TiB"
    } else {
        "PiB"
    }
}

/// A path whose size could not be read leaves the total as it was (so
/// `total_size` accepts the longer list exactly when it accepts the shorter)
/// and adds one to the count of unreadable paths; one whose size was read
/// adds that size.
pub proof fn lemma_total_step(sizes: Seq<Option<u64>>, next: Option<u64>)
    ensures
        next is None ==> known_total(sizes.push(next)) == known_total(sizes),
        next is None ==> unknown_count(sizes.push(next)) == unknown_count(sizes) + 1,
        next is Some ==> known_total(sizes.push(next)) == known_total(sizes) + next->0,
        next is Some ==> unknown_count(sizes.push(next)) == unknown_count(sizes),
        next is None ==> (known_total(sizes.push(next)) <= u64::MAX <==> known_total(sizes) <= u64::MAX),
{
    assert(sizes.push(next).drop_last() =~= sizes);
}

/// A larger count is never shown in a smaller unit.
pub proof fn lemma_unit_monotone(a: int, b: int)
    requires
        a <= b,
    ensures
        unit_index(a) <= unit_index(b),
{
}

} // verus!

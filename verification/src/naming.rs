//! The names of the files in a data directory.
//!
//! A sorted run with id `N` is stored as `sstable_NNNNNN.vdb`: the id in
//! decimal, padded with zeros to six digits. The log is `velocity.wal`.

use vstd::prelude::*;
use crate::codec::append;
use crate::order::{compare_keys, KeyOrder};

verus! {

/// The fewest digits in the name of a sorted run.
pub const ID_WIDTH: usize = 6;

/// `sstable_`
pub open spec fn name_prefix() -> Seq<u8> {
    seq![115u8, 115u8, 116u8, 97u8, 98u8, 108u8, 101u8, 95u8]
}

/// `.vdb`
pub open spec fn name_suffix() -> Seq<u8> {
    seq![46u8, 118u8, 100u8, 98u8]
}

/// `velocity.wal`, the name of the log's file.
pub open spec fn wal_name() -> Seq<u8> {
    seq![118u8, 101u8, 108u8, 111u8, 99u8, 105u8, 116u8, 121u8, 46u8, 119u8, 97u8, 108u8]
}

/// The name of the log's file.
pub fn wal_file_name() -> (name: Vec<u8>)
    ensures
        name@ == wal_name(),
{
    let mut name: Vec<u8> = Vec::new();
    name.push(118);
    name.push(101);
    name.push(108);
    name.push(111);
    name.push(99);
    name.push(105);
    name.push(116);
    name.push(121);
    name.push(46);
    name.push(119);
    name.push(97);
    name.push(108);
    assert(name@ =~= wal_name());
    name
}

/// The ASCII digit for `d`.
pub open spec fn digit(d: nat) -> u8 {
    (48 + d) as u8
}

/// The decimal digits of `n`, most significant first, without leading zeros.
pub open spec fn digits(n: nat) -> Seq<u8>
    decreases n,
{
    if n < 10 {
        seq![digit(n)]
    } else {
        digits(n / 10).push(digit(n % 10))
    }
}

/// `k` zero digits.
pub open spec fn zeros(k: nat) -> Seq<u8> {
    Seq::new(k, |i: int| 48u8)
}

/// The digits of `n`, padded with leading zeros to `ID_WIDTH`.
pub open spec fn padded(n: nat) -> Seq<u8> {
    if digits(n).len() < ID_WIDTH {
        zeros((ID_WIDTH - digits(n).len()) as nat) + digits(n)
    } else {
        digits(n)
    }
}

/// The name of the file of the sorted run with the given id.
pub open spec fn sstable_name(id: u64) -> Seq<u8> {
    name_prefix() + padded(id as nat) + name_suffix()
}

/// Every byte is an ASCII digit.
pub open spec fn all_digits(s: Seq<u8>) -> bool {
    forall|i: int| 0 <= i < s.len() ==> 48 <= #[trigger] s[i] <= 57
}

/// The number that a string of digits stands for.
pub open spec fn number_of(s: Seq<u8>) -> nat
    decreases s.len(),
{
    if s.len() == 0 {
        0
    } else {
        (number_of(s.drop_last()) * 10 + (s.last() - 48)) as nat
    }
}

/// The digits of a number are digits, and they stand for the number.
pub proof fn lemma_digits(n: nat)
    ensures
        digits(n).len() >= 1,
        all_digits(digits(n)),
        number_of(digits(n)) == n,
    decreases n,
{
    if n < 10 {
        assert(digits(n).drop_last() =~= Seq::<u8>::empty());
        assert(number_of(Seq::<u8>::empty()) == 0);
    } else {
        lemma_digits(n / 10);
        assert(digits(n).drop_last() =~= digits(n / 10));
    }
}

/// Zeros in front of a digit string do not change its number.
pub proof fn lemma_leading_zeros(k: nat, s: Seq<u8>)
    ensures
        number_of(zeros(k) + s) == number_of(s),
        all_digits(s) ==> all_digits(zeros(k) + s),
    decreases s.len(), k,
{
    if s.len() == 0 {
        assert(zeros(k) + s =~= zeros(k));
        if k > 0 {
            assert(zeros(k).drop_last() =~= zeros((k - 1) as nat));
            lemma_leading_zeros((k - 1) as nat, s);
            assert(zeros((k - 1) as nat) + s =~= zeros((k - 1) as nat));
        }
    } else {
        lemma_leading_zeros(k, s.drop_last());
        assert((zeros(k) + s).drop_last() =~= zeros(k) + s.drop_last());
    }
}

/// The number of a front part of a digit string is no more than the number
/// of the whole.
pub proof fn lemma_number_of_prefix(s: Seq<u8>, i: int)
    requires
        all_digits(s),
        0 <= i <= s.len(),
    ensures
        number_of(s.take(i)) <= number_of(s),
    decreases s.len() - i,
{
    if i == s.len() {
        assert(s.take(i) =~= s);
    } else {
        lemma_number_of_prefix(s, i + 1);
        assert(s.take(i + 1).drop_last() =~= s.take(i));
        assert(s.take(i + 1).last() == s[i]);
    }
}

/// The padded digits of a number are at least `ID_WIDTH` digits that
/// stand for the number.
pub proof fn lemma_padded(n: nat)
    ensures
        padded(n).len() >= ID_WIDTH,
        all_digits(padded(n)),
        number_of(padded(n)) == n,
{
    lemma_digits(n);
    if digits(n).len() < ID_WIDTH {
        lemma_leading_zeros((ID_WIDTH - digits(n).len()) as nat, digits(n));
    }
}

/// The name of a sorted run tells its id: two ids with one name are one id.
pub proof fn lemma_name_tells_id(a: u64, b: u64)
    requires
        sstable_name(a) == sstable_name(b),
    ensures
        a == b,
{
    lemma_padded(a as nat);
    lemma_padded(b as nat);
    let na = sstable_name(a);
    let nb = sstable_name(b);
    assert(na.subrange(8, na.len() - 4) =~= padded(a as nat));
    assert(nb.subrange(8, nb.len() - 4) =~= padded(b as nat));
}

/// The decimal digits of `n`.
pub fn decimal(n: u64) -> (out: Vec<u8>)
    ensures
        out@ == digits(n as nat),
{
    let mut rev: Vec<u8> = Vec::new();
    let mut m: u64 = n;
    proof {
        assert(digits(m as nat) + rev@.reverse() =~= digits(n as nat));
    }
    while m >= 10
        invariant
            digits(n as nat) == digits(m as nat) + rev@.reverse(),
        decreases m,
    {
        let d = (m % 10) as u8;
        let ghost before = rev@;
        rev.push(48 + d);
        proof {
            assert(rev@.reverse() =~= seq![digit((m % 10) as nat)] + before.reverse());
            assert(digits((m / 10) as nat).push(digit((m % 10) as nat)) + before.reverse()
                =~= digits((m / 10) as nat) + rev@.reverse());
        }
        m = m / 10;
    }
    let mut out: Vec<u8> = Vec::new();
    out.push(48 + m as u8);
    let ghost tail = rev@.reverse();
    let mut i: usize = rev.len();
    while i > 0
        invariant
            i <= rev.len(),
            tail == rev@.reverse(),
            out@ == digits(m as nat) + tail.take(rev.len() - i),
        decreases i,
    {
        i -= 1;
        out.push(rev[i]);
        proof {
            assert(tail[rev.len() - 1 - i] == rev@[i as int]);
            assert(out@ =~= digits(m as nat) + tail.take(rev.len() - i));
        }
    }
    proof {
        assert(tail.take(rev.len() as int) =~= tail);
    }
    out
}

/// The name of the file of the sorted run with the given id.
pub fn sstable_file_name(id: u64) -> (name: Vec<u8>)
    ensures
        name@ == sstable_name(id),
{
    let mut name: Vec<u8> = Vec::new();
    name.push(115);
    name.push(115);
    name.push(116);
    name.push(97);
    name.push(98);
    name.push(108);
    name.push(101);
    name.push(95);
    assert(name@ =~= name_prefix());
    let number = decimal(id);
    let mut k: usize = number.len();
    while k < ID_WIDTH
        invariant
            number.len() <= k,
            k == number.len() || k <= ID_WIDTH,
            name@ == name_prefix() + zeros((k - number.len()) as nat),
        decreases ID_WIDTH - k,
    {
        name.push(48);
        k += 1;
        assert(name@ =~= name_prefix() + zeros((k - number.len()) as nat));
    }
    append(&mut name, number.as_slice());
    name.push(46);
    name.push(118);
    name.push(100);
    name.push(98);
    proof {
        if number.len() >= ID_WIDTH {
            assert(zeros(0) + digits(id as nat) =~= digits(id as nat));
        }
        assert(name@ =~= sstable_name(id));
    }
    name
}

/// The id that a file name gives to a sorted run, if the name is that of a
/// sorted run.
pub fn parse_sstable_file_name(name: &[u8]) -> (id: Option<u64>)
    ensures
        match id {
            Some(id) => name@ == sstable_name(id),
            None => forall|id: u64| name@ != sstable_name(id),
        },
{
    if name.len() < 12 + ID_WIDTH {
        proof {
            assert forall|id: u64| name@ != sstable_name(id) by {
                lemma_padded(id as nat);
            }
        }
        return None;
    }
    let end = name.len() - 4;
    let ghost middle = name@.subrange(8, end as int);
    let mut value: u64 = 0;
    let mut i: usize = 8;
    proof {
        assert(middle.take(0) =~= Seq::<u8>::empty());
        assert forall|id: u64| name@ == sstable_name(id) implies middle == padded(id as nat) by {
            lemma_padded(id as nat);
            assert(sstable_name(id).subrange(8, end as int) =~= padded(id as nat));
        }
    }
    while i < end
        invariant
            8 <= i <= end,
            end == name.len() - 4,
            middle == name@.subrange(8, end as int),
            all_digits(middle.take(i - 8)),
            value == number_of(middle.take(i - 8)),
            forall|id: u64| name@ == sstable_name(id) ==> middle == padded(id as nat),
        decreases end - i,
    {
        let c = name[i];
        proof {
            assert(middle.take(i - 8 + 1).drop_last() =~= middle.take(i - 8));
            assert(middle.take(i - 8 + 1).last() == c);
        }
        if c < 48 || c > 57 {
            proof {
                assert forall|id: u64| name@ != sstable_name(id) by {
                    if name@ == sstable_name(id) {
                        lemma_padded(id as nat);
                        assert(middle[i - 8] == c);
                    }
                }
            }
            return None;
        }
        let d = (c - 48) as u64;
        if value > (u64::MAX - d) / 10 {
            proof {
                assert forall|id: u64| name@ != sstable_name(id) by {
                    if name@ == sstable_name(id) {
                        lemma_padded(id as nat);
                        lemma_number_of_prefix(middle, i - 8 + 1);
                    }
                }
            }
            return None;
        }
        value = value * 10 + d;
        proof {
            assert forall|j: int| 0 <= j < i - 8 + 1 implies 48 <= #[trigger] middle.take(
                i - 8 + 1,
            )[j] <= 57 by {
                if j < i - 8 {
                    assert(middle.take(i - 8 + 1)[j] == middle.take(i - 8)[j]);
                }
            }
        }
        i += 1;
    }
    proof {
        assert(middle.take(end - 8) =~= middle);
    }
    let canonical = sstable_file_name(value);
    match compare_keys(canonical.as_slice(), name) {
        KeyOrder::Same => Some(value),
        _ => {
            proof {
                assert forall|id: u64| name@ != sstable_name(id) by {
                    if name@ == sstable_name(id) {
                        lemma_padded(id as nat);
                    }
                }
            }
            None
        },
    }
}

} // verus!
